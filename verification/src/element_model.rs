//! The model of one conjunctive group: a range of versions together with a
//! range of build numbers.
use crate::order::Sign;
use crate::position::{value_pos, Pos};
use crate::range_model::{
    lemma_meet, lemma_none_any, lemma_range_ext, lemma_range_order, lemma_witness, range_lt,
    RangeView,
};
use vstd::prelude::*;

verus! {

/// A group: the candidates whose version lies in one range and whose build
/// number lies in another.
#[verifier::ext_equal]
pub struct ElementView {
    pub version: RangeView,
    pub build_number: RangeView,
}

impl ElementView {
    /// Both ranges are well formed, and a group that holds nothing is
    /// written in one way only: with both ranges empty.
    pub open spec fn wf(self) -> bool {
        &&& self.version.wf()
        &&& self.build_number.wf()
        &&& (self.version == RangeView::none() <==> self.build_number == RangeView::none())
    }

    /// The group that holds nothing.
    pub open spec fn none() -> ElementView {
        ElementView { version: RangeView::none(), build_number: RangeView::none() }
    }

    /// The group that holds everything.
    pub open spec fn any() -> ElementView {
        ElementView { version: RangeView::any(), build_number: RangeView::any() }
    }

    /// The group of the two ranges, or `none` where one of them is empty.
    pub open spec fn of(version: RangeView, build_number: RangeView) -> ElementView {
        if version == RangeView::none() || build_number == RangeView::none() {
            ElementView::none()
        } else {
            ElementView { version, build_number }
        }
    }

    /// The group holds the pair of a place on the line of versions and a
    /// place on the line of build numbers.
    pub open spec fn covers(self, version: Pos, build_number: Pos) -> bool {
        self.version.covers(version) && self.build_number.covers(build_number)
    }

    /// The group holds the candidate with the given keys.
    pub open spec fn holds(self, version: Seq<int>, build_number: Seq<int>) -> bool {
        self.covers(value_pos(version), value_pos(build_number))
    }

    /// The group that holds what both `self` and `other` hold.
    pub open spec fn meet(self, other: ElementView) -> ElementView {
        ElementView::of(
            self.version.meet(other.version),
            self.build_number.meet(other.build_number),
        )
    }
}

/// The order in which groups are sorted: by the range of versions, then by
/// the range of build numbers.
pub open spec fn element_lt(a: ElementView, b: ElementView) -> bool {
    range_lt(a.version, b.version) || (a.version == b.version && range_lt(
        a.build_number,
        b.build_number,
    ))
}

/// How the group `a` stands to the group `b`.
pub open spec fn element_sign(a: ElementView, b: ElementView) -> Sign {
    if element_lt(a, b) {
        Sign::Less
    } else if element_lt(b, a) {
        Sign::Greater
    } else {
        Sign::Equal
    }
}

/// Groups are strictly and totally ordered.
pub proof fn lemma_element_order(a: ElementView, b: ElementView, c: ElementView)
    ensures
        !element_lt(a, a),
        element_lt(a, b) && element_lt(b, c) ==> element_lt(a, c),
        element_lt(a, b) ==> !element_lt(b, a),
        a == b || element_lt(a, b) || element_lt(b, a),
        element_sign(a, b) == Sign::Equal <==> a == b,
{
    lemma_range_order(a.version, b.version, c.version);
    lemma_range_order(b.version, a.version, c.version);
    lemma_range_order(a.build_number, b.build_number, c.build_number);
    lemma_range_order(b.build_number, a.build_number, c.build_number);
}

/// The same, for all groups at once.
pub proof fn lemma_element_total_order()
    ensures
        forall|a: ElementView| !#[trigger] element_lt(a, a),
        forall|a: ElementView, b: ElementView, c: ElementView|
            #[trigger] element_lt(a, b) && #[trigger] element_lt(b, c) ==> element_lt(a, c),
        forall|a: ElementView, b: ElementView| #[trigger] element_lt(a, b) ==> !element_lt(b, a),
        forall|a: ElementView, b: ElementView| a == b || #[trigger] element_lt(a, b) || element_lt(b, a),
{
    assert forall|a: ElementView, b: ElementView, c: ElementView|
        #[trigger] element_lt(a, b) && #[trigger] element_lt(b, c) implies element_lt(a, c) by {
        lemma_element_order(a, b, c);
    }
    assert forall|a: ElementView| !#[trigger] element_lt(a, a) by {
        lemma_element_order(a, a, a);
    }
    assert forall|a: ElementView, b: ElementView| #[trigger] element_lt(a, b) implies !element_lt(b, a) by {
        lemma_element_order(a, b, a);
    }
    assert forall|a: ElementView, b: ElementView| a == b || #[trigger] element_lt(a, b) || element_lt(b, a) by {
        lemma_element_order(a, b, a);
    }
}

/// `none` holds nothing and `any` holds everything.
pub proof fn lemma_element_none_any()
    ensures
        ElementView::none().wf(),
        ElementView::any().wf(),
        ElementView::none() != ElementView::any(),
        forall|v: Pos, b: Pos| !#[trigger] ElementView::none().covers(v, b),
        forall|v: Pos, b: Pos| #[trigger] ElementView::any().covers(v, b),
{
    lemma_none_any();
}

/// The group made of two well-formed ranges is well formed and holds the
/// pairs that lie in both ranges.
pub proof fn lemma_element_of(version: RangeView, build_number: RangeView)
    requires
        version.wf(),
        build_number.wf(),
    ensures
        ElementView::of(version, build_number).wf(),
        forall|v: Pos, b: Pos| #[trigger]
            ElementView::of(version, build_number).covers(v, b) == (version.covers(v)
                && build_number.covers(b)),
{
    lemma_none_any();
}

/// The intersection of two groups is well formed and holds a pair exactly
/// when both groups hold it.
pub proof fn lemma_element_meet(x: ElementView, y: ElementView)
    requires
        x.wf(),
        y.wf(),
    ensures
        x.meet(y).wf(),
        forall|v: Pos, b: Pos| #[trigger] x.meet(y).covers(v, b) == (x.covers(v, b) && y.covers(v, b)),
{
    lemma_meet(x.version, y.version);
    lemma_meet(x.build_number, y.build_number);
    lemma_element_of(x.version.meet(y.version), x.build_number.meet(y.build_number));
    assert forall|v: Pos, b: Pos| #[trigger]
        x.meet(y).covers(v, b) == (x.covers(v, b) && y.covers(v, b)) by {
        assert(x.version.meet(y.version).covers(v) == (x.version.covers(v) && y.version.covers(v)));
        assert(x.build_number.meet(y.build_number).covers(b) == (x.build_number.covers(b)
            && y.build_number.covers(b)));
    }
}

/// A well-formed group other than `none` holds the pair of the witnesses of
/// its two ranges.
pub proof fn lemma_element_witness(x: ElementView)
    requires
        x.wf(),
        x != ElementView::none(),
    ensures
        x.covers(x.version.witness(), x.build_number.witness()),
{
    if x.version == RangeView::none() {
        assert(x =~= ElementView::none());
    }
    lemma_witness(x.version);
    lemma_witness(x.build_number);
}

/// Two well-formed groups that hold the same pairs are one group.
pub proof fn lemma_element_ext(x: ElementView, y: ElementView)
    requires
        x.wf(),
        y.wf(),
        forall|v: Pos, b: Pos| #[trigger] x.covers(v, b) == y.covers(v, b),
    ensures
        x == y,
{
    lemma_none_any();
    if x == ElementView::none() || y == ElementView::none() {
        if x != ElementView::none() {
            lemma_element_witness(x);
            assert(x.covers(x.version.witness(), x.build_number.witness()) == y.covers(
                x.version.witness(),
                x.build_number.witness(),
            ));
        }
        if y != ElementView::none() {
            lemma_element_witness(y);
            assert(x.covers(y.version.witness(), y.build_number.witness()) == y.covers(
                y.version.witness(),
                y.build_number.witness(),
            ));
        }
    } else {
        lemma_element_witness(x);
        let v0 = x.version.witness();
        let b0 = x.build_number.witness();
        assert(x.covers(v0, b0) == y.covers(v0, b0));
        assert forall|v: Pos| #[trigger] x.version.covers(v) == y.version.covers(v) by {
            assert(x.covers(v, b0) == y.covers(v, b0));
        }
        assert forall|b: Pos| #[trigger] x.build_number.covers(b) == y.build_number.covers(b) by {
            assert(x.covers(v0, b) == y.covers(v0, b));
        }
        lemma_range_ext(x.version, y.version);
        lemma_range_ext(x.build_number, y.build_number);
        assert(x =~= y);
    }
}

/// A well-formed group that holds every pair is `any`.
pub proof fn lemma_element_full(x: ElementView)
    requires
        x.wf(),
        forall|v: Pos, b: Pos| #[trigger] x.covers(v, b),
    ensures
        x == ElementView::any(),
{
    lemma_element_none_any();
    lemma_element_ext(x, ElementView::any());
}

/// Intersection of groups is idempotent, commutative and associative, `any`
/// leaves a group as it is, `none` takes everything away, and the
/// intersection is `any` only where both groups are.
pub proof fn lemma_element_meet_algebra(x: ElementView, y: ElementView, z: ElementView)
    requires
        x.wf(),
        y.wf(),
        z.wf(),
    ensures
        x.meet(x) == x,
        x.meet(y) == y.meet(x),
        x.meet(y).meet(z) == x.meet(y.meet(z)),
        x.meet(ElementView::any()) == x,
        ElementView::any().meet(x) == x,
        x.meet(ElementView::none()) == ElementView::none(),
        ElementView::none().meet(x) == ElementView::none(),
        x.meet(y) == ElementView::any() <==> x == ElementView::any() && y == ElementView::any(),
{
    lemma_element_none_any();
    let any = ElementView::any();
    let none = ElementView::none();
    lemma_element_meet(x, x);
    lemma_element_meet(x, y);
    lemma_element_meet(y, x);
    lemma_element_meet(y, z);
    lemma_element_meet(x.meet(y), z);
    lemma_element_meet(x, y.meet(z));
    lemma_element_meet(x, any);
    lemma_element_meet(any, x);
    lemma_element_meet(x, none);
    lemma_element_meet(none, x);
    lemma_element_ext(x.meet(x), x);
    lemma_element_ext(x.meet(y), y.meet(x));
    lemma_element_ext(x.meet(y).meet(z), x.meet(y.meet(z)));
    lemma_element_ext(x.meet(any), x);
    lemma_element_ext(any.meet(x), x);
    lemma_element_ext(x.meet(none), none);
    lemma_element_ext(none.meet(x), none);
    if x.meet(y) == any {
        assert forall|v: Pos, b: Pos| #[trigger] x.covers(v, b) by {
            assert(x.meet(y).covers(v, b));
        }
        assert forall|v: Pos, b: Pos| #[trigger] y.covers(v, b) by {
            assert(x.meet(y).covers(v, b));
        }
        lemma_element_full(x);
        lemma_element_full(y);
    }
    if x == any && y == any {
        assert(x.meet(y) == x);
    }
}

} // verus!
