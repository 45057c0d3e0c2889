//! The model of a range: a subset of an ordered line, given by the places
//! at which it is cut.
//!
//! A range holds or does not hold each place of the line. Going up the line
//! from the lowest place, it changes between the two at each of its cuts.
//! Two well-formed ranges that hold the same places have the same cuts, so a
//! range is known by what it holds.
use crate::order::{
    key_lt, lemma_key_order, lemma_lex_connected, lemma_lex_irreflexive, lemma_lex_transitive,
    lex_lt, Sign,
};
use crate::position::{
    after, at_or_below, before, cut_lt, cut_order, lemma_cut_total_order, lemma_value_pos,
    value_pos, CutView, Pos,
};
use vstd::prelude::*;

verus! {

/// A range: whether it holds the lowest place, and the places, in rising
/// order, at which it changes.
#[verifier::ext_equal]
pub struct RangeView {
    pub inverted: bool,
    pub cuts: Seq<CutView>,
}

/// The cuts rise strictly.
pub open spec fn increasing(cuts: Seq<CutView>) -> bool {
    forall|i: int, j: int| 0 <= i < j < cuts.len() ==> cut_lt(#[trigger] cuts[i], #[trigger] cuts[j])
}

/// Every cut of `cuts` is below `bound`.
pub open spec fn all_below(cuts: Seq<CutView>, bound: CutView) -> bool {
    forall|i: int| 0 <= i < cuts.len() ==> cut_lt(#[trigger] cuts[i], bound)
}

/// Whether a range that starts as `inverted` says and changes at each of
/// `cuts` holds the place `p`: it changes once for every cut at or below `p`.
pub open spec fn inside(inverted: bool, cuts: Seq<CutView>, p: Pos) -> bool
    decreases cuts.len(),
{
    if cuts.len() == 0 {
        inverted
    } else {
        inside(inverted, cuts.drop_last(), p) != at_or_below(cuts.last(), p)
    }
}

/// Whether the range holds the places above all its cuts.
pub open spec fn top(inverted: bool, cuts: Seq<CutView>) -> bool {
    inverted != (cuts.len() % 2 == 1)
}

/// The cuts of the intersection of two ranges: of the cuts of both, those
/// at which the intersection changes.
pub open spec fn meet_cuts(ia: bool, a: Seq<CutView>, ib: bool, b: Seq<CutView>) -> Seq<CutView>
    decreases a.len() + b.len(),
{
    if a.len() == 0 && b.len() == 0 {
        Seq::empty()
    } else {
        let drop_a = a.len() > 0 && (b.len() == 0 || !cut_lt(a.last(), b.last()));
        let drop_b = b.len() > 0 && (!drop_a || !cut_lt(b.last(), a.last()));
        let a2 = if drop_a { a.drop_last() } else { a };
        let b2 = if drop_b { b.drop_last() } else { b };
        let highest = if drop_a { a.last() } else { b.last() };
        let rest = meet_cuts(ia, a2, ib, b2);
        if (top(ia, a) && top(ib, b)) != (top(ia, a2) && top(ib, b2)) {
            rest.push(highest)
        } else {
            rest
        }
    }
}

impl RangeView {
    /// The cuts are in strictly rising order.
    pub open spec fn wf(self) -> bool {
        increasing(self.cuts)
    }

    /// The range holds the place `p`.
    pub open spec fn covers(self, p: Pos) -> bool {
        inside(self.inverted, self.cuts, p)
    }

    /// The range holds the scalar with the key `key`.
    pub open spec fn contains_key(self, key: Seq<int>) -> bool {
        self.covers(value_pos(key))
    }

    /// The range that holds nothing.
    pub open spec fn none() -> RangeView {
        RangeView { inverted: false, cuts: Seq::empty() }
    }

    /// The range that holds everything.
    pub open spec fn any() -> RangeView {
        RangeView { inverted: true, cuts: Seq::empty() }
    }

    /// The range that holds the scalar with the key `key` and nothing else.
    pub open spec fn equal(key: Seq<int>) -> RangeView {
        RangeView { inverted: false, cuts: seq![before(key), after(key)] }
    }

    /// The range from `low`, taken in, up to `high`, left out.
    pub open spec fn between(low: Seq<int>, high: Seq<int>) -> RangeView {
        if key_lt(low, high) {
            RangeView { inverted: false, cuts: seq![before(low), before(high)] }
        } else {
            RangeView::none()
        }
    }

    /// The range that holds what `self` does not.
    pub open spec fn negation(self) -> RangeView {
        RangeView { inverted: !self.inverted, cuts: self.cuts }
    }

    /// The range that holds what both `self` and `other` hold.
    pub open spec fn meet(self, other: RangeView) -> RangeView {
        RangeView {
            inverted: self.inverted && other.inverted,
            cuts: meet_cuts(self.inverted, self.cuts, other.inverted, other.cuts),
        }
    }

    /// A place that the range holds, if it holds any.
    pub open spec fn witness(self) -> Pos {
        if self.inverted || self.cuts.len() == 0 {
            Pos::Lowest
        } else {
            Pos::At(self.cuts[0])
        }
    }
}

/// The order in which ranges are sorted: ranges that leave the lowest place
/// out come first, then the cuts decide, lexicographically.
pub open spec fn range_lt(a: RangeView, b: RangeView) -> bool {
    (!a.inverted && b.inverted) || (a.inverted == b.inverted && lex_lt(cut_order(), a.cuts, b.cuts))
}

pub proof fn lemma_inside_push(inverted: bool, cuts: Seq<CutView>, cut: CutView, p: Pos)
    ensures
        inside(inverted, cuts.push(cut), p) == (inside(inverted, cuts, p) != at_or_below(cut, p)),
{
    assert(cuts.push(cut).drop_last() =~= cuts);
}

/// Above all its cuts a range is what its last change left it.
pub proof fn lemma_inside_above(inverted: bool, cuts: Seq<CutView>, p: Pos)
    requires
        forall|i: int| 0 <= i < cuts.len() ==> at_or_below(#[trigger] cuts[i], p),
    ensures
        inside(inverted, cuts, p) == top(inverted, cuts),
    decreases cuts.len(),
{
    if cuts.len() > 0 {
        let rest = cuts.drop_last();
        assert forall|i: int| 0 <= i < rest.len() implies at_or_below(#[trigger] rest[i], p) by {
            assert(rest[i] == cuts[i]);
        }
        lemma_inside_above(inverted, rest, p);
        assert(at_or_below(cuts[cuts.len() - 1], p));
    }
}

/// Below all its cuts a range is what it starts as.
pub proof fn lemma_inside_beneath(inverted: bool, cuts: Seq<CutView>, p: Pos)
    requires
        forall|i: int| 0 <= i < cuts.len() ==> !at_or_below(#[trigger] cuts[i], p),
    ensures
        inside(inverted, cuts, p) == inverted,
    decreases cuts.len(),
{
    if cuts.len() > 0 {
        let rest = cuts.drop_last();
        assert forall|i: int| 0 <= i < rest.len() implies !at_or_below(#[trigger] rest[i], p) by {
            assert(rest[i] == cuts[i]);
        }
        lemma_inside_beneath(inverted, rest, p);
        assert(!at_or_below(cuts[cuts.len() - 1], p));
    }
}

/// A range and its negation hold complementary places.
pub proof fn lemma_inside_inverted(inverted: bool, cuts: Seq<CutView>, p: Pos)
    ensures
        inside(!inverted, cuts, p) == !inside(inverted, cuts, p),
    decreases cuts.len(),
{
    if cuts.len() > 0 {
        lemma_inside_inverted(inverted, cuts.drop_last(), p);
    }
}

/// What the intersection gives: rising cuts, below every bound of both
/// inputs, which make a range that holds a place exactly when both inputs
/// hold it.
pub proof fn lemma_meet(x: RangeView, y: RangeView)
    requires
        x.wf(),
        y.wf(),
    ensures
        x.meet(y).wf(),
        forall|bound: CutView|
            all_below(x.cuts, bound) && all_below(y.cuts, bound) ==> #[trigger] all_below(
                x.meet(y).cuts,
                bound,
            ),
        top(x.meet(y).inverted, x.meet(y).cuts) == (top(x.inverted, x.cuts) && top(
            y.inverted,
            y.cuts,
        )),
        forall|p: Pos| #[trigger] x.meet(y).covers(p) == (x.covers(p) && y.covers(p)),
    decreases x.cuts.len() + y.cuts.len(),
{
    let (ia, a, ib, b) = (x.inverted, x.cuts, y.inverted, y.cuts);
    lemma_cut_total_order();
    let r = meet_cuts(ia, a, ib, b);
    if a.len() == 0 && b.len() == 0 {
    } else {
        let drop_a = a.len() > 0 && (b.len() == 0 || !cut_lt(a.last(), b.last()));
        let drop_b = b.len() > 0 && (!drop_a || !cut_lt(b.last(), a.last()));
        let a2 = if drop_a { a.drop_last() } else { a };
        let b2 = if drop_b { b.drop_last() } else { b };
        let highest = if drop_a { a.last() } else { b.last() };
        let rest = meet_cuts(ia, a2, ib, b2);
        let grows = (top(ia, a) && top(ib, b)) != (top(ia, a2) && top(ib, b2));
        let x2 = RangeView { inverted: ia, cuts: a2 };
        let y2 = RangeView { inverted: ib, cuts: b2 };
        lemma_meet(x2, y2);
        assert(x2.meet(y2).cuts == rest);
        // the highest cut bounds what is left of both inputs
        assert(all_below(a2, highest)) by {
            assert forall|i: int| 0 <= i < a2.len() implies cut_lt(#[trigger] a2[i], highest) by {
                assert(a2[i] == a[i]);
                if !drop_a {
                    assert(cut_lt(a.last(), b.last()));
                    if i < a.len() - 1 {
                        assert(cut_lt(a[i], a[a.len() - 1]));
                    }
                } else {
                    assert(cut_lt(a[i], a[a.len() - 1]));
                }
            }
        }
        assert(all_below(b2, highest)) by {
            assert forall|i: int| 0 <= i < b2.len() implies cut_lt(#[trigger] b2[i], highest) by {
                assert(b2[i] == b[i]);
                if !drop_b {
                    assert(drop_a);
                    if i < b.len() - 1 {
                        assert(cut_lt(b[i], b[b.len() - 1]));
                    }
                } else {
                    assert(cut_lt(b[i], b[b.len() - 1]));
                }
            }
        }
        assert(all_below(rest, highest));
        assert(increasing(r)) by {
            if grows {
                assert forall|i: int, j: int| 0 <= i < j < r.len() implies cut_lt(
                    #[trigger] r[i],
                    #[trigger] r[j],
                ) by {
                    if j < rest.len() {
                        assert(cut_lt(rest[i], rest[j]));
                    } else {
                        assert(cut_lt(rest[i], highest));
                    }
                }
            }
        }
        assert forall|bound: CutView| all_below(a, bound) && all_below(b, bound) implies #[trigger] all_below(
            r,
            bound,
        ) by {
            assert(all_below(a2, bound)) by {
                assert forall|i: int| 0 <= i < a2.len() implies cut_lt(#[trigger] a2[i], bound) by {
                    assert(a2[i] == a[i]);
                }
            }
            assert(all_below(b2, bound)) by {
                assert forall|i: int| 0 <= i < b2.len() implies cut_lt(#[trigger] b2[i], bound) by {
                    assert(b2[i] == b[i]);
                }
            }
            assert(all_below(rest, bound));
            assert(cut_lt(highest, bound)) by {
                if drop_a {
                    assert(cut_lt(a[a.len() - 1], bound));
                } else {
                    assert(cut_lt(b[b.len() - 1], bound));
                }
            }
            assert forall|i: int| 0 <= i < r.len() implies cut_lt(#[trigger] r[i], bound) by {
                if i < rest.len() {
                    assert(cut_lt(rest[i], bound));
                }
            }
        }
        assert forall|p: Pos| #[trigger] x.meet(y).covers(p) == (x.covers(p) && y.covers(p)) by {
            assert(x2.meet(y2).covers(p) == (x2.covers(p) && y2.covers(p)));
            if at_or_below(highest, p) {
                let q = p->At_0;
                assert forall|i: int| 0 <= i < a.len() implies at_or_below(#[trigger] a[i], p) by {
                    if i < a2.len() {
                        assert(cut_lt(a2[i], highest));
                    }
                }
                assert forall|i: int| 0 <= i < b.len() implies at_or_below(#[trigger] b[i], p) by {
                    if i < b2.len() {
                        assert(cut_lt(b2[i], highest));
                    }
                }
                assert forall|i: int| 0 <= i < r.len() implies at_or_below(#[trigger] r[i], p) by {
                    if i < rest.len() {
                        assert(cut_lt(rest[i], highest));
                    }
                }
                lemma_inside_above(ia, a, p);
                lemma_inside_above(ib, b, p);
                lemma_inside_above(ia && ib, r, p);
            } else {
                assert(inside(ia, a, p) == inside(ia, a2, p));
                assert(inside(ib, b, p) == inside(ib, b2, p));
                if grows {
                    lemma_inside_push(ia && ib, rest, highest, p);
                }
                assert(inside(ia && ib, rest, p) == (inside(ia, a2, p) && inside(ib, b2, p)));
            }
        }
    }
}

/// A range whose cuts rise holds a place by the number of cuts at or below
/// it: with the first `n` cuts there and the others above, it has changed
/// `n` times.
pub proof fn lemma_inside_count(inverted: bool, cuts: Seq<CutView>, n: int, p: Pos)
    requires
        0 <= n <= cuts.len(),
        forall|i: int| 0 <= i < n ==> at_or_below(#[trigger] cuts[i], p),
        forall|i: int| n <= i < cuts.len() ==> !at_or_below(#[trigger] cuts[i], p),
    ensures
        inside(inverted, cuts, p) == (inverted != (n % 2 == 1)),
    decreases cuts.len(),
{
    if n == cuts.len() {
        lemma_inside_above(inverted, cuts, p);
    } else {
        let rest = cuts.drop_last();
        assert forall|i: int| 0 <= i < n implies at_or_below(#[trigger] rest[i], p) by {
            assert(rest[i] == cuts[i]);
        }
        assert forall|i: int| n <= i < rest.len() implies !at_or_below(#[trigger] rest[i], p) by {
            assert(rest[i] == cuts[i]);
        }
        lemma_inside_count(inverted, rest, n, p);
        assert(!at_or_below(cuts[cuts.len() - 1], p));
    }
}

/// The negation holds a place exactly when the range does not.
pub proof fn lemma_negation(x: RangeView)
    ensures
        x.negation().wf() == x.wf(),
        x.negation().negation() == x,
        forall|p: Pos| #[trigger] x.negation().covers(p) == !x.covers(p),
{
    assert forall|p: Pos| #[trigger] x.negation().covers(p) == !x.covers(p) by {
        lemma_inside_inverted(x.inverted, x.cuts, p);
    }
}

/// `none` holds no place, `any` holds every place.
pub proof fn lemma_none_any()
    ensures
        RangeView::none().wf(),
        RangeView::any().wf(),
        RangeView::none().negation() == RangeView::any(),
        RangeView::any().negation() == RangeView::none(),
        forall|p: Pos| !#[trigger] RangeView::none().covers(p),
        forall|p: Pos| #[trigger] RangeView::any().covers(p),
{
}

/// The range `equal(key)` holds the place of that scalar alone, so of all
/// scalars it holds that one and no other.
pub proof fn lemma_equal(key: Seq<int>)
    ensures
        RangeView::equal(key).wf(),
        RangeView::equal(key) != RangeView::none(),
        forall|p: Pos| #[trigger] RangeView::equal(key).covers(p) <==> p == value_pos(key),
        forall|other: Seq<int>| #[trigger] RangeView::equal(key).contains_key(other) <==> other == key,
{
    lemma_cut_total_order();
    let r = RangeView::equal(key);
    lemma_key_order(key, key, key);
    assert(r.cuts.len() == 2);
    assert forall|p: Pos| #[trigger] r.covers(p) <==> p == value_pos(key) by {
        reveal_with_fuel(inside, 3);
        assert(r.cuts.drop_last() =~= seq![before(key)]);
        assert(r.cuts.drop_last().drop_last() =~= Seq::<CutView>::empty());
        assert(r.covers(p) == (at_or_below(before(key), p) != at_or_below(after(key), p)));
        if let Pos::At(q) = p {
            lemma_key_order(q.key, key, key);
            lemma_key_order(key, q.key, key);
            if q.key == key && !q.after {
                assert(q =~= before(key));
            }
        }
    }
    assert forall|other: Seq<int>| #[trigger] r.contains_key(other) <==> other == key by {
        assert(r.covers(value_pos(other)) <==> value_pos(other) == value_pos(key));
    }
}

/// The range `between(low, high)` holds the scalars from `low` up to, but
/// not with, `high`.
pub proof fn lemma_between(low: Seq<int>, high: Seq<int>)
    ensures
        RangeView::between(low, high).wf(),
        forall|key: Seq<int>| #[trigger]
            RangeView::between(low, high).contains_key(key) <==> !key_lt(key, low) && key_lt(
                key,
                high,
            ),
{
    let r = RangeView::between(low, high);
    lemma_key_order(low, high, low);
    assert forall|key: Seq<int>| #[trigger]
        r.contains_key(key) <==> !key_lt(key, low) && key_lt(key, high) by {
        lemma_key_order(key, low, high);
        lemma_key_order(key, high, low);
        lemma_key_order(low, high, key);
        if key_lt(low, high) {
            let p = value_pos(key);
            reveal_with_fuel(inside, 3);
            assert(r.cuts.len() == 2);
            assert(r.cuts.drop_last() =~= seq![before(low)]);
            assert(r.cuts.drop_last().drop_last() =~= Seq::<CutView>::empty());
            assert(r.covers(p) == (at_or_below(before(low), p) != at_or_below(before(high), p)));
            lemma_value_pos(before(low), key);
            lemma_value_pos(before(high), key);
        }
    }
}

/// A well-formed range other than `none` holds its witness.
pub proof fn lemma_witness(x: RangeView)
    requires
        x.wf(),
        x != RangeView::none(),
    ensures
        x.covers(x.witness()),
{
    lemma_cut_total_order();
    if x.inverted {
        lemma_inside_beneath(x.inverted, x.cuts, Pos::Lowest);
    } else {
        if x.cuts.len() == 0 {
            assert(x =~= RangeView::none());
        }
        lemma_inside_count(x.inverted, x.cuts, 1, Pos::At(x.cuts[0]));
    }
}

/// Of two ranges that hold the same places, the one whose last cut is not
/// below the other's has that cut in common with it.
proof fn lemma_same_last_cut(x: RangeView, y: RangeView)
    requires
        x.wf(),
        y.wf(),
        forall|p: Pos| #[trigger] x.covers(p) == y.covers(p),
        x.cuts.len() > 0,
        y.cuts.len() == 0 || !cut_lt(x.cuts.last(), y.cuts.last()),
    ensures
        y.cuts.len() > 0,
        y.cuts.last() == x.cuts.last(),
{
    lemma_cut_total_order();
    let highest = x.cuts.last();
    let rest = x.cuts.drop_last();
    if y.cuts.len() == 0 || cut_lt(y.cuts.last(), highest) {
        let above = Pos::At(highest);
        assert forall|i: int| 0 <= i < x.cuts.len() implies at_or_below(#[trigger] x.cuts[i], above) by {
            if i < x.cuts.len() - 1 {
                assert(cut_lt(x.cuts[i], x.cuts[x.cuts.len() - 1]));
            }
        }
        assert forall|i: int| 0 <= i < y.cuts.len() implies at_or_below(#[trigger] y.cuts[i], above) by {
            if i < y.cuts.len() - 1 {
                assert(cut_lt(y.cuts[i], y.cuts[y.cuts.len() - 1]));
            }
        }
        lemma_inside_above(x.inverted, x.cuts, above);
        lemma_inside_above(y.inverted, y.cuts, above);
        assert(x.covers(above) == y.covers(above));
        let below = if rest.len() == 0 && y.cuts.len() == 0 {
            Pos::Lowest
        } else if y.cuts.len() == 0 || (rest.len() > 0 && cut_lt(y.cuts.last(), rest.last())) {
            Pos::At(rest.last())
        } else {
            Pos::At(y.cuts.last())
        };
        assert forall|i: int| 0 <= i < rest.len() implies at_or_below(#[trigger] rest[i], below) by {
            assert(rest[i] == x.cuts[i]);
            if i < rest.len() - 1 {
                assert(cut_lt(x.cuts[i], x.cuts[rest.len() - 1]));
            }
        }
        assert forall|i: int| 0 <= i < y.cuts.len() implies at_or_below(#[trigger] y.cuts[i], below) by {
            if i < y.cuts.len() - 1 {
                assert(cut_lt(y.cuts[i], y.cuts[y.cuts.len() - 1]));
            }
        }
        assert(!at_or_below(highest, below)) by {
            if rest.len() > 0 {
                assert(cut_lt(x.cuts[rest.len() - 1], x.cuts[x.cuts.len() - 1]));
            }
        }
        lemma_inside_above(x.inverted, rest, below);
        lemma_inside_above(y.inverted, y.cuts, below);
        assert(x.covers(below) == y.covers(below));
        assert(false);
    }
}

/// Two well-formed ranges that hold the same places are one range.
pub proof fn lemma_range_ext(x: RangeView, y: RangeView)
    requires
        x.wf(),
        y.wf(),
        forall|p: Pos| #[trigger] x.covers(p) == y.covers(p),
    ensures
        x == y,
    decreases x.cuts.len() + y.cuts.len(),
{
    if x.cuts.len() == 0 && y.cuts.len() == 0 {
        assert(x.covers(Pos::Lowest) == y.covers(Pos::Lowest));
        assert(x =~= y);
    } else {
        lemma_cut_total_order();
        if x.cuts.len() > 0 && (y.cuts.len() == 0 || !cut_lt(x.cuts.last(), y.cuts.last())) {
            lemma_same_last_cut(x, y);
        } else {
            lemma_same_last_cut(y, x);
        }
        let x2 = RangeView { inverted: x.inverted, cuts: x.cuts.drop_last() };
        let y2 = RangeView { inverted: y.inverted, cuts: y.cuts.drop_last() };
        assert forall|p: Pos| #[trigger] x2.covers(p) == y2.covers(p) by {
            assert(x.covers(p) == y.covers(p));
        }
        assert(x2.wf()) by {
            assert forall|i: int, j: int| 0 <= i < j < x2.cuts.len() implies cut_lt(
                #[trigger] x2.cuts[i],
                #[trigger] x2.cuts[j],
            ) by {
                assert(cut_lt(x.cuts[i], x.cuts[j]));
            }
        }
        assert(y2.wf()) by {
            assert forall|i: int, j: int| 0 <= i < j < y2.cuts.len() implies cut_lt(
                #[trigger] y2.cuts[i],
                #[trigger] y2.cuts[j],
            ) by {
                assert(cut_lt(y.cuts[i], y.cuts[j]));
            }
        }
        lemma_range_ext(x2, y2);
        assert(x.cuts =~= x2.cuts.push(x.cuts.last()));
        assert(y.cuts =~= y2.cuts.push(y.cuts.last()));
        assert(x =~= y);
    }
}

/// How the range `a` stands to the range `b` in the order of ranges.
pub open spec fn range_sign(a: RangeView, b: RangeView) -> Sign {
    if range_lt(a, b) {
        Sign::Less
    } else if range_lt(b, a) {
        Sign::Greater
    } else {
        Sign::Equal
    }
}

/// Ranges are strictly and totally ordered.
pub proof fn lemma_range_order(a: RangeView, b: RangeView, c: RangeView)
    ensures
        !range_lt(a, a),
        range_lt(a, b) && range_lt(b, c) ==> range_lt(a, c),
        range_lt(a, b) ==> !range_lt(b, a),
        a == b || range_lt(a, b) || range_lt(b, a),
        range_sign(a, b) == Sign::Equal <==> a == b,
{
    lemma_cut_total_order();
    let lt = cut_order();
    lemma_lex_irreflexive(lt, a.cuts);
    lemma_lex_irreflexive(lt, b.cuts);
    lemma_lex_connected(lt, a.cuts, b.cuts);
    if lex_lt(lt, a.cuts, b.cuts) && lex_lt(lt, b.cuts, c.cuts) {
        lemma_lex_transitive(lt, a.cuts, b.cuts, c.cuts);
    }
    if lex_lt(lt, a.cuts, b.cuts) && lex_lt(lt, b.cuts, a.cuts) {
        lemma_lex_transitive(lt, a.cuts, b.cuts, a.cuts);
    }
    if a.inverted == b.inverted && a.cuts == b.cuts {
        assert(a =~= b);
    }
}

/// One step of going through the cuts of two ranges in rising order: with
/// `i` cuts of the one and `j` of the other behind, the lowest of those
/// ahead is taken, from one range or, where both have it, from both. It
/// is a cut of the intersection exactly where the intersection changes.
pub proof fn lemma_meet_step(
    ia: bool,
    a: Seq<CutView>,
    ib: bool,
    b: Seq<CutView>,
    i: int,
    j: int,
    take_a: bool,
    take_b: bool,
)
    requires
        increasing(a),
        increasing(b),
        0 <= i <= a.len(),
        0 <= j <= b.len(),
        take_a || take_b,
        take_a ==> i < a.len(),
        take_b ==> j < b.len(),
        i > 0 && j < b.len() ==> cut_lt(a[i - 1], b[j]),
        j > 0 && i < a.len() ==> cut_lt(b[j - 1], a[i]),
        take_a && take_b ==> a[i] == b[j],
        take_a && !take_b ==> j == b.len() || cut_lt(a[i], b[j]),
        take_b && !take_a ==> i == a.len() || cut_lt(b[j], a[i]),
    ensures
        ({
            let i2 = if take_a { i + 1 } else { i };
            let j2 = if take_b { j + 1 } else { j };
            let cut = if take_a { a[i] } else { b[j] };
            let before = meet_cuts(ia, a.take(i), ib, b.take(j));
            let grows = (top(ia, a.take(i2)) && top(ib, b.take(j2))) != (top(ia, a.take(i)) && top(
                ib,
                b.take(j),
            ));
            &&& meet_cuts(ia, a.take(i2), ib, b.take(j2)) == if grows {
                before.push(cut)
            } else {
                before
            }
            &&& (i2 > 0 && j2 < b.len() ==> cut_lt(a[i2 - 1], b[j2]))
            &&& (j2 > 0 && i2 < a.len() ==> cut_lt(b[j2 - 1], a[i2]))
        }),
{
    lemma_cut_total_order();
    let i2 = if take_a { i + 1 } else { i };
    let j2 = if take_b { j + 1 } else { j };
    let a2 = a.take(i2);
    let b2 = b.take(j2);
    if take_a {
        assert(a2.drop_last() =~= a.take(i));
        assert(a2.last() == a[i]);
        if i + 1 < a.len() {
            assert(cut_lt(a[i], a[i + 1]));
        }
    } else {
        assert(a2 =~= a.take(i));
    }
    if take_b {
        assert(b2.drop_last() =~= b.take(j));
        assert(b2.last() == b[j]);
        if j + 1 < b.len() {
            assert(cut_lt(b[j], b[j + 1]));
        }
    } else {
        assert(b2 =~= b.take(j));
    }
    if i > 0 {
        assert(a.take(i).last() == a[i - 1]);
    }
    if j > 0 {
        assert(b.take(j).last() == b[j - 1]);
    }
}

} // verus!
