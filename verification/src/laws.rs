//! The laws of the algebra of constraints.
//!
//! Each law is stated over the models that the contracts of
//! [`crate::constraints::MatchSpecConstraints`] speak of, so that it holds of
//! what the operations return. Laws about what a constraint holds are true
//! of all constraints. Laws that equate two lists of groups need more: a
//! constraint can be written as a list of groups in more than one way, and
//! the operations do not always arrive at the same one.
use crate::dnf_model::{
    all_alternatives, all_wf, alternatives, complement_of, dnf_covers, dnf_wf, empty, expand,
    expand_choices, full, intersection_of, is_meet_of, lemma_complement, lemma_complement_empty,
    lemma_intersection, lemma_intersection_groups, lemma_normalize, lemma_normalize_same,
    lemma_alternatives, lemma_expand, lemma_pairs, lemma_sorted_unique, pairs, row,
    union_of,
};
use crate::element_model::{
    lemma_element_ext, lemma_element_meet, lemma_element_meet_algebra, lemma_element_none_any,
    lemma_element_witness, ElementView,
};
use crate::position::Pos;
use crate::range_model::{
    lemma_meet, lemma_negation, lemma_none_any, lemma_range_ext, RangeView,
};
use vstd::prelude::*;

verus! {

/// Ranges form a boolean algebra: intersection is idempotent, commutative
/// and associative, `any` leaves a range as it is and `none` leaves
/// nothing, a range has nothing in common with its negation, and the
/// negation of the negation is the range.
pub proof fn law_ranges_form_an_algebra(x: RangeView, y: RangeView, z: RangeView)
    requires
        x.wf(),
        y.wf(),
        z.wf(),
    ensures
        x.meet(x) == x,
        x.meet(y) == y.meet(x),
        x.meet(y).meet(z) == x.meet(y.meet(z)),
        x.meet(RangeView::any()) == x,
        RangeView::any().meet(x) == x,
        x.meet(RangeView::none()) == RangeView::none(),
        RangeView::none().meet(x) == RangeView::none(),
        x.meet(x.negation()) == RangeView::none(),
        x.negation().meet(x) == RangeView::none(),
        x.negation().negation() == x,
        RangeView::none().negation() == RangeView::any(),
        RangeView::any().negation() == RangeView::none(),
{
    let any = RangeView::any();
    let none = RangeView::none();
    let not_x = x.negation();
    lemma_none_any();
    lemma_negation(x);
    lemma_meet(x, x);
    lemma_meet(x, y);
    lemma_meet(y, x);
    lemma_meet(y, z);
    lemma_meet(x.meet(y), z);
    lemma_meet(x, y.meet(z));
    lemma_meet(x, any);
    lemma_meet(any, x);
    lemma_meet(x, none);
    lemma_meet(none, x);
    lemma_meet(x, not_x);
    lemma_meet(not_x, x);
    lemma_range_ext(x.meet(x), x);
    lemma_range_ext(x.meet(y), y.meet(x));
    lemma_range_ext(x.meet(y).meet(z), x.meet(y.meet(z)));
    lemma_range_ext(x.meet(any), x);
    lemma_range_ext(any.meet(x), x);
    lemma_range_ext(x.meet(none), none);
    lemma_range_ext(none.meet(x), none);
    lemma_range_ext(x.meet(not_x), none);
    lemma_range_ext(not_x.meet(x), none);
}

/// A constraint in the form in which constraints are kept that holds no
/// pair has no group.
pub proof fn law_nothing_held_is_empty(x: Seq<ElementView>)
    requires
        dnf_wf(x),
        forall|v: Pos, b: Pos| !#[trigger] dnf_covers(x, v, b),
    ensures
        x == empty(),
{
    if x.len() > 0 {
        assert(x[0].wf());
        assert(x.contains(x[0]));
        lemma_element_witness(x[0]);
        let v = x[0].version.witness();
        let b = x[0].build_number.witness();
        assert(x[0].covers(v, b));
        assert(dnf_covers(x, v, b));
    }
    assert(x =~= empty());
}

/// Double complement: the complement of the complement of a constraint
/// holds what the constraint holds.
pub proof fn law_double_complement_holds_the_same(x: Seq<ElementView>)
    requires
        dnf_wf(x),
    ensures
        forall|v: Pos, b: Pos| #[trigger]
            dnf_covers(complement_of(complement_of(x)), v, b) == dnf_covers(x, v, b),
{
    lemma_complement(x);
    lemma_complement(complement_of(x));
    assert forall|v: Pos, b: Pos| #[trigger]
        dnf_covers(complement_of(complement_of(x)), v, b) == dnf_covers(x, v, b) by {
        assert(dnf_covers(complement_of(x), v, b) == !dnf_covers(x, v, b));
    }
}

/// Excluded middle: a constraint and its complement have nothing in
/// common, in either order.
pub proof fn law_excluded_middle(x: Seq<ElementView>)
    requires
        dnf_wf(x),
    ensures
        intersection_of(x, complement_of(x)) == empty(),
        intersection_of(complement_of(x), x) == empty(),
{
    lemma_complement(x);
    lemma_intersection(x, complement_of(x));
    lemma_intersection(complement_of(x), x);
    assert forall|v: Pos, b: Pos| !#[trigger] dnf_covers(intersection_of(x, complement_of(x)), v, b) by {
        assert(dnf_covers(complement_of(x), v, b) == !dnf_covers(x, v, b));
    }
    assert forall|v: Pos, b: Pos| !#[trigger] dnf_covers(intersection_of(complement_of(x), x), v, b) by {
        assert(dnf_covers(complement_of(x), v, b) == !dnf_covers(x, v, b));
    }
    law_nothing_held_is_empty(intersection_of(x, complement_of(x)));
    law_nothing_held_is_empty(intersection_of(complement_of(x), x));
}

/// Totality: the union of a constraint and its complement is `full`, in
/// either order.
pub proof fn law_totality(x: Seq<ElementView>)
    requires
        dnf_wf(x),
    ensures
        union_of(x, complement_of(x)) == full(),
        union_of(complement_of(x), x) == full(),
{
    lemma_complement(x);
    law_excluded_middle(complement_of(x));
    lemma_complement_empty();
}

/// The complement of `empty` is `full`, and the complement of `full` is
/// `empty`.
pub proof fn law_complement_of_the_ends()
    ensures
        complement_of(empty()) == full(),
        complement_of(full()) == empty(),
        dnf_wf(empty()),
        dnf_wf(full()),
{
    lemma_complement_empty();
    lemma_element_none_any();
    assert(full()[0] == ElementView::any());
    assert(dnf_wf(full())) by {
        assert forall|g: ElementView| full().contains(g) implies g == ElementView::any() by {
            let k = choose|k: int| 0 <= k < full().len() && full()[k] == g;
        }
    }
    lemma_complement(full());
    assert forall|v: Pos, b: Pos| !#[trigger] dnf_covers(complement_of(full()), v, b) by {
        assert(full()[0].covers(v, b));
        assert(dnf_covers(full(), v, b));
    }
    law_nothing_held_is_empty(complement_of(full()));
}

/// The intersection of a constraint with itself has, besides the groups
/// of the constraint, the parts that two of them have in common.
pub open spec fn closed_under_meet(x: Seq<ElementView>) -> bool {
    forall|i: int, j: int|
        0 <= i < x.len() && 0 <= j < x.len() ==> #[trigger] x[i].meet(x[j]) == ElementView::none()
            || x.contains(x[i].meet(x[j]))
}

/// Idempotence: the intersection of a constraint with itself is the
/// constraint, exactly when what any two of its groups have in common is
/// nothing or again one of its groups. That is so of every constraint of a
/// single group.
pub proof fn law_idempotence(x: Seq<ElementView>)
    requires
        dnf_wf(x),
    ensures
        intersection_of(x, x) == x <==> closed_under_meet(x),
        x.len() <= 1 ==> closed_under_meet(x),
{
    lemma_element_none_any();
    lemma_intersection_groups(x, x);
    lemma_intersection(x, x);
    let r = intersection_of(x, x);
    assert forall|i: int| 0 <= i < x.len() implies #[trigger] x[i].meet(x[i]) == x[i] by {
        assert(x[i].wf());
        lemma_element_meet_algebra(x[i], x[i], x[i]);
    }
    if closed_under_meet(x) {
        assert forall|g: ElementView| #[trigger] r.contains(g) <==> x.contains(g) by {
            if r.contains(g) {
                let (i, j) = choose|i: int, j: int|
                    0 <= i < x.len() && 0 <= j < x.len() && g == #[trigger] x[i].meet(x[j]);
                assert(x.contains(g));
            }
            if x.contains(g) {
                let i = choose|i: int| 0 <= i < x.len() && x[i] == g;
                assert(g == x[i].meet(x[i]));
                assert(is_meet_of(g, x, x));
            }
        }
        lemma_sorted_unique(r, x);
    }
    if r == x {
        assert forall|i: int, j: int| 0 <= i < x.len() && 0 <= j < x.len() implies #[trigger] x[i].meet(
            x[j],
        ) == ElementView::none() || x.contains(x[i].meet(x[j])) by {
            let g = x[i].meet(x[j]);
            if g != ElementView::none() {
                assert(is_meet_of(g, x, x));
                assert(r.contains(g));
            }
        }
    }
    if x.len() == 1 {
        assert(x.contains(x[0]));
    }
}

/// Identity and absorbing element: intersecting with `full` leaves a
/// constraint as it is, and intersecting with `empty` leaves nothing.
pub proof fn law_identity_and_absorbing(x: Seq<ElementView>)
    requires
        dnf_wf(x),
    ensures
        intersection_of(x, full()) == x,
        intersection_of(full(), x) == x,
        intersection_of(x, empty()) == empty(),
        intersection_of(empty(), x) == empty(),
{
    lemma_element_none_any();
    law_complement_of_the_ends();
    let any = ElementView::any();
    assert(full()[0] == any);
    lemma_intersection_groups(x, full());
    lemma_intersection_groups(full(), x);
    lemma_intersection_groups(x, empty());
    lemma_intersection_groups(empty(), x);
    lemma_intersection(x, full());
    lemma_intersection(full(), x);
    lemma_intersection(x, empty());
    lemma_intersection(empty(), x);
    assert forall|i: int| 0 <= i < x.len() implies #[trigger] x[i].meet(any) == x[i] by {
        assert(x[i].wf());
        lemma_element_meet_algebra(x[i], any, any);
    }
    assert forall|g: ElementView| #[trigger] intersection_of(x, full()).contains(g) <==> x.contains(
        g,
    ) by {
        if is_meet_of(g, x, full()) {
            let (i, j) = choose|i: int, j: int|
                0 <= i < x.len() && 0 <= j < full().len() && g == #[trigger] x[i].meet(full()[j]);
            assert(g == x[i].meet(any));
            assert(x.contains(g));
        }
        if x.contains(g) {
            let i = choose|i: int| 0 <= i < x.len() && x[i] == g;
            assert(g == x[i].meet(full()[0]));
            assert(is_meet_of(g, x, full()));
        }
    }
    assert forall|g: ElementView| #[trigger] intersection_of(full(), x).contains(g) <==> x.contains(
        g,
    ) by {
        if is_meet_of(g, full(), x) {
            let (i, j) = choose|i: int, j: int|
                0 <= i < full().len() && 0 <= j < x.len() && g == #[trigger] full()[i].meet(x[j]);
            assert(x[j].wf());
            lemma_element_meet_algebra(x[j], any, any);
            assert(g == any.meet(x[j]));
            assert(x.contains(g));
        }
        if x.contains(g) {
            let j = choose|j: int| 0 <= j < x.len() && x[j] == g;
            assert(x[j].wf());
            lemma_element_meet_algebra(x[j], any, any);
            assert(g == full()[0].meet(x[j]));
            assert(is_meet_of(g, full(), x));
        }
    }
    lemma_sorted_unique(intersection_of(x, full()), x);
    lemma_sorted_unique(intersection_of(full(), x), x);
    let left = intersection_of(x, empty());
    let right = intersection_of(empty(), x);
    if left.len() > 0 {
        assert(left.contains(left[0]));
    }
    if right.len() > 0 {
        assert(right.contains(right[0]));
    }
    assert(left =~= empty());
    assert(right =~= empty());
}

/// Commutativity: the intersection of two constraints does not depend on
/// which of them comes first.
pub proof fn law_commutativity(x: Seq<ElementView>, y: Seq<ElementView>)
    requires
        dnf_wf(x),
        dnf_wf(y),
    ensures
        intersection_of(x, y) == intersection_of(y, x),
{
    lemma_pairs(x, y);
    lemma_pairs(y, x);
    assert forall|g: ElementView| #[trigger] pairs(x, y).contains(g) <==> pairs(y, x).contains(g) by {
        if is_meet_of(g, x, y) {
            let (i, j) = choose|i: int, j: int|
                0 <= i < x.len() && 0 <= j < y.len() && g == #[trigger] x[i].meet(y[j]);
            assert(x[i].wf() && y[j].wf());
            lemma_element_meet_algebra(x[i], y[j], y[j]);
            assert(g == y[j].meet(x[i]));
        }
        if is_meet_of(g, y, x) {
            let (j, i) = choose|j: int, i: int|
                0 <= j < y.len() && 0 <= i < x.len() && g == #[trigger] y[j].meet(x[i]);
            assert(x[i].wf() && y[j].wf());
            lemma_element_meet_algebra(x[i], y[j], y[j]);
            assert(g == x[i].meet(y[j]));
        }
    }
    lemma_normalize_same(pairs(x, y), pairs(y, x));
}

/// Associativity: the intersection of three constraints does not depend
/// on which two are intersected first. With commutativity this makes the
/// result of intersecting several constraints independent of the order in
/// which it is done.
pub proof fn law_associativity(x: Seq<ElementView>, y: Seq<ElementView>, z: Seq<ElementView>)
    requires
        dnf_wf(x),
        dnf_wf(y),
        dnf_wf(z),
    ensures
        intersection_of(intersection_of(x, y), z) == intersection_of(x, intersection_of(y, z)),
{
    let none = ElementView::none();
    let xy = intersection_of(x, y);
    let yz = intersection_of(y, z);
    lemma_intersection(x, y);
    lemma_intersection(y, z);
    lemma_intersection_groups(x, y);
    lemma_intersection_groups(y, z);
    lemma_pairs(xy, z);
    lemma_pairs(x, yz);
    assert forall|g: ElementView| g != none implies (#[trigger] pairs(xy, z).contains(g) <==> pairs(
        x,
        yz,
    ).contains(g)) by {
        if is_meet_of(g, xy, z) {
            let (k, l) = choose|k: int, l: int|
                0 <= k < xy.len() && 0 <= l < z.len() && g == #[trigger] xy[k].meet(z[l]);
            assert(xy.contains(xy[k]));
            let (i, j) = choose|i: int, j: int|
                0 <= i < x.len() && 0 <= j < y.len() && xy[k] == #[trigger] x[i].meet(y[j]);
            assert(x[i].wf() && y[j].wf() && z[l].wf());
            lemma_element_meet_algebra(x[i], y[j], z[l]);
            let m = y[j].meet(z[l]);
            lemma_element_meet(y[j], z[l]);
            lemma_element_meet_algebra(x[i], m, m);
            assert(g == x[i].meet(m));
            assert(m != none);
            assert(is_meet_of(m, y, z));
            assert(yz.contains(m));
            let k2 = choose|k2: int| 0 <= k2 < yz.len() && yz[k2] == m;
            assert(g == x[i].meet(yz[k2]));
            assert(is_meet_of(g, x, yz));
        }
        if is_meet_of(g, x, yz) {
            let (i, k) = choose|i: int, k: int|
                0 <= i < x.len() && 0 <= k < yz.len() && g == #[trigger] x[i].meet(yz[k]);
            assert(yz.contains(yz[k]));
            let (j, l) = choose|j: int, l: int|
                0 <= j < y.len() && 0 <= l < z.len() && yz[k] == #[trigger] y[j].meet(z[l]);
            assert(x[i].wf() && y[j].wf() && z[l].wf());
            lemma_element_meet_algebra(x[i], y[j], z[l]);
            let m = x[i].meet(y[j]);
            lemma_element_meet(x[i], y[j]);
            lemma_element_meet_algebra(m, z[l], z[l]);
            lemma_element_meet_algebra(z[l], z[l], z[l]);
            assert(g == m.meet(z[l]));
            assert(m != none);
            assert(is_meet_of(m, x, y));
            assert(xy.contains(m));
            let k2 = choose|k2: int| 0 <= k2 < xy.len() && xy[k2] == m;
            assert(g == xy[k2].meet(z[l]));
            assert(is_meet_of(g, xy, z));
        }
    }
    lemma_normalize_same(pairs(xy, z), pairs(x, yz));
}

/// With no list left to pick from, each choice gives one group.
proof fn lemma_expand_last_level(acc: ElementView, choices: Seq<ElementView>)
    ensures
        expand_choices(acc, choices, Seq::empty()) == row(acc, choices),
    decreases choices.len(),
{
    let rest = Seq::<Seq<ElementView>>::empty();
    if choices.len() == 0 {
        assert(expand_choices(acc, choices, rest) =~= row(acc, choices));
    } else {
        lemma_expand_last_level(acc, choices.drop_last());
        assert(expand(acc.meet(choices.last()), rest) =~= seq![acc.meet(choices.last())]);
        assert(row(acc, choices.drop_last()) + seq![acc.meet(choices.last())] =~= row(acc, choices));
    }
}

/// Where every list offers one choice there is one way to pick.
proof fn lemma_expand_one_each(acc: ElementView, lists: Seq<Seq<ElementView>>)
    requires
        forall|d: int| 0 <= d < lists.len() ==> (#[trigger] lists[d]).len() == 1,
    ensures
        expand(acc, lists).len() == 1,
    decreases lists.len(),
{
    if lists.len() > 0 {
        let choices = lists[0];
        let rest = lists.drop_first();
        assert forall|d: int| 0 <= d < rest.len() implies (#[trigger] rest[d]).len() == 1 by {
            assert(rest[d] == lists[d + 1]);
        }
        lemma_expand_one_each(acc.meet(choices.last()), rest);
        assert(choices.drop_last().len() == 0);
        assert(expand_choices(acc, choices.drop_last(), rest) =~= Seq::<ElementView>::empty());
    }
}

/// An alternative of a group that is neither `none` nor `any` has itself
/// one alternative.
proof fn lemma_alternative_of_alternative(g: ElementView, h: ElementView)
    requires
        g.wf(),
        g != ElementView::none(),
        alternatives(g).contains(h),
    ensures
        alternatives(h).len() == 1,
        h != ElementView::any(),
{
    lemma_none_any();
    lemma_negation(g.version);
    lemma_negation(g.build_number);
    lemma_negation(RangeView::any());
    let k = choose|k: int| 0 <= k < alternatives(g).len() && alternatives(g)[k] == h;
    if g.version == RangeView::none() {
        assert(g =~= ElementView::none());
    }
    assert(g.version.negation() != RangeView::any());
    assert(g.build_number.negation() != RangeView::any());
}

/// Double complement: a constraint of at most one group is the complement
/// of its complement, and so is its complement.
pub proof fn law_double_complement_of_one_group(x: Seq<ElementView>)
    requires
        dnf_wf(x),
        x.len() <= 1,
    ensures
        complement_of(complement_of(x)) == x,
        complement_of(complement_of(complement_of(x))) == complement_of(x),
{
    lemma_element_none_any();
    law_complement_of_the_ends();
    let any = ElementView::any();
    if x.len() == 0 {
        assert(x =~= empty());
    } else if x[0] == any {
        assert(x =~= full());
    } else {
        let g = x[0];
        assert(g.wf());
        assert(x.contains(g));
        let cx = complement_of(x);
        lemma_complement(x);
        lemma_complement(cx);
        lemma_alternatives(g);
        // the groups of the complement are alternatives of the group
        let choices = alternatives(g);
        let lists = all_alternatives(x);
        let items = expand(any, lists);
        assert(lists[0] == choices);
        assert(lists.drop_first() =~= Seq::<Seq<ElementView>>::empty());
        lemma_expand_last_level(any, choices);
        assert(items == row(any, choices));
        assert forall|j: int| 0 <= j < choices.len() implies #[trigger] items[j] == choices[j] by {
            assert(choices[j].wf());
            lemma_element_meet_algebra(choices[j], any, any);
        }
        assert(items =~= choices);
        assert(!choices.contains(any)) by {
            if choices.contains(any) {
                lemma_alternative_of_alternative(g, any);
            }
        }
        lemma_normalize(items);
        // so each of them has one alternative
        let lists2 = all_alternatives(cx);
        assert forall|d: int| 0 <= d < lists2.len() implies (#[trigger] lists2[d]).len() == 1 by {
            assert(cx.contains(cx[d]));
            assert(choices.contains(cx[d]));
            lemma_alternative_of_alternative(g, cx[d]);
        }
        lemma_expand_one_each(any, lists2);
        let items2 = expand(any, lists2);
        let e = items2[0];
        assert(items2 =~= seq![e]);
        assert(crate::dnf_model::lists_wf(lists2)) by {
            assert forall|d: int| 0 <= d < lists2.len() implies all_wf(#[trigger] lists2[d]) by {
                assert(cx[d].wf());
                lemma_alternatives(cx[d]);
            }
        }
        lemma_expand(any, lists2);
        assert(e.wf());
        lemma_normalize(items2);
        let ccx = complement_of(cx);
        assert forall|v: Pos, b: Pos| #[trigger] e.covers(v, b) == g.covers(v, b) by {
            assert(dnf_covers(ccx, v, b) == !dnf_covers(cx, v, b));
            assert(dnf_covers(cx, v, b) == !dnf_covers(x, v, b));
            assert(dnf_covers(ccx, v, b) == dnf_covers(items2, v, b));
            if e.covers(v, b) {
                assert(items2[0].covers(v, b));
            }
            if g.covers(v, b) {
                assert(x[0].covers(v, b));
            }
        }
        lemma_element_ext(e, g);
        reveal_with_fuel(crate::dnf_model::gather, 2);
        assert(items2.drop_last() =~= Seq::<ElementView>::empty());
        assert(!items2.contains(any));
        assert(ccx =~= x);
    }
}

/// `pick` has one group from each list of `lists`, in the order of the
/// lists.
pub open spec fn is_pick(lists: Seq<Seq<ElementView>>, pick: Seq<ElementView>) -> bool {
    &&& pick.len() == lists.len()
    &&& forall|d: int| 0 <= d < lists.len() ==> (#[trigger] lists[d]).contains(pick[d])
}

/// The intersection of `acc` with the groups of `pick`, one after the
/// other.
pub open spec fn meet_all(acc: ElementView, pick: Seq<ElementView>) -> ElementView
    decreases pick.len(),
{
    if pick.len() == 0 {
        acc
    } else {
        meet_all(acc.meet(pick[0]), pick.drop_first())
    }
}

/// A group is among those expanded from `choices` and `rest` exactly when
/// it is expanded from `rest` after one of the choices.
proof fn lemma_expand_choices_groups(
    acc: ElementView,
    choices: Seq<ElementView>,
    rest: Seq<Seq<ElementView>>,
    g: ElementView,
)
    ensures
        expand_choices(acc, choices, rest).contains(g) <==> exists|j: int|
            0 <= j < choices.len() && #[trigger] expand(acc.meet(choices[j]), rest).contains(g),
    decreases choices.len(),
{
    if choices.len() > 0 {
        let before = choices.drop_last();
        let last = choices.last();
        lemma_expand_choices_groups(acc, before, rest, g);
        crate::dnf_model::lemma_contains_concat(
            expand_choices(acc, before, rest),
            expand(acc.meet(last), rest),
        );
        if expand_choices(acc, before, rest).contains(g) {
            let j = choose|j: int|
                0 <= j < before.len() && #[trigger] expand(acc.meet(before[j]), rest).contains(g);
            assert(expand(acc.meet(choices[j]), rest).contains(g));
        }
        if expand(acc.meet(last), rest).contains(g) {
            assert(expand(acc.meet(choices[choices.len() - 1]), rest).contains(g));
        }
        if exists|j: int|
            0 <= j < choices.len() && #[trigger] expand(acc.meet(choices[j]), rest).contains(g) {
            let j = choose|j: int|
                0 <= j < choices.len() && #[trigger] expand(acc.meet(choices[j]), rest).contains(g);
            if j < before.len() {
                assert(expand(acc.meet(before[j]), rest).contains(g));
            }
        }
    }
}

/// What is expanded from lists of groups: for every way of picking one
/// group from each list, the intersection of the groups picked, and
/// nothing else.
pub proof fn law_expansion_goes_through_all_picks(
    acc: ElementView,
    lists: Seq<Seq<ElementView>>,
    g: ElementView,
)
    ensures
        expand(acc, lists).contains(g) <==> exists|pick: Seq<ElementView>| #[trigger]
            is_pick(lists, pick) && g == meet_all(acc, pick),
    decreases lists.len(),
{
    if lists.len() == 0 {
        let none_picked = Seq::<ElementView>::empty();
        assert(expand(acc, lists)[0] == acc);
        if g == acc {
            assert(is_pick(lists, none_picked) && g == meet_all(acc, none_picked));
        }
    } else {
        let choices = lists[0];
        let rest = lists.drop_first();
        lemma_expand_choices_groups(acc, choices, rest, g);
        if expand(acc, lists).contains(g) {
            let j = choose|j: int|
                0 <= j < choices.len() && #[trigger] expand(acc.meet(choices[j]), rest).contains(g);
            law_expansion_goes_through_all_picks(acc.meet(choices[j]), rest, g);
            let later = choose|later: Seq<ElementView>| #[trigger]
                is_pick(rest, later) && g == meet_all(acc.meet(choices[j]), later);
            let pick = seq![choices[j]] + later;
            assert(pick.drop_first() =~= later);
            assert(is_pick(lists, pick)) by {
                assert forall|d: int| 0 <= d < lists.len() implies (#[trigger] lists[d]).contains(
                    pick[d],
                ) by {
                    if d > 0 {
                        assert(rest[d - 1] == lists[d]);
                        assert(rest[d - 1].contains(later[d - 1]));
                    }
                }
            }
            assert(g == meet_all(acc, pick));
        }
        if exists|pick: Seq<ElementView>| #[trigger] is_pick(lists, pick) && g == meet_all(acc, pick) {
            let pick = choose|pick: Seq<ElementView>| #[trigger]
                is_pick(lists, pick) && g == meet_all(acc, pick);
            let later = pick.drop_first();
            assert(lists[0].contains(pick[0]));
            let j = choose|j: int| 0 <= j < choices.len() && choices[j] == pick[0];
            assert(is_pick(rest, later)) by {
                assert forall|d: int| 0 <= d < rest.len() implies (#[trigger] rest[d]).contains(
                    later[d],
                ) by {
                    assert(lists[d + 1].contains(pick[d + 1]));
                }
            }
            law_expansion_goes_through_all_picks(acc.meet(choices[j]), rest, g);
            assert(expand(acc.meet(choices[j]), rest).contains(g));
        }
    }
}

/// The groups of the complement of a constraint: for every way of picking
/// one alternative of each group of the constraint, what the alternatives
/// picked have in common, unless that is nothing. Where it is everything,
/// the complement is `full`.
pub proof fn law_groups_of_the_complement(x: Seq<ElementView>, g: ElementView)
    requires
        dnf_wf(x),
    ensures
        (exists|pick: Seq<ElementView>| #[trigger]
            is_pick(all_alternatives(x), pick) && meet_all(ElementView::any(), pick)
                == ElementView::any()) ==> complement_of(x) == full(),
        !(exists|pick: Seq<ElementView>| #[trigger]
            is_pick(all_alternatives(x), pick) && meet_all(ElementView::any(), pick)
                == ElementView::any()) ==> (complement_of(x).contains(g) <==> g != ElementView::none()
            && exists|pick: Seq<ElementView>| #[trigger]
                is_pick(all_alternatives(x), pick) && g == meet_all(ElementView::any(), pick)),
{
    let any = ElementView::any();
    let lists = all_alternatives(x);
    let items = expand(any, lists);
    law_expansion_goes_through_all_picks(any, lists, any);
    law_expansion_goes_through_all_picks(any, lists, g);
    assert(crate::dnf_model::lists_wf(lists)) by {
        assert forall|d: int| 0 <= d < lists.len() implies all_wf(#[trigger] lists[d]) by {
            assert(x[d].wf());
            lemma_alternatives(x[d]);
        }
    }
    lemma_element_none_any();
    lemma_expand(any, lists);
    lemma_normalize(items);
}

/// The groups of the intersection of two constraints: what a group of the
/// one has in common with a group of the other, unless that is nothing.
pub proof fn law_groups_of_the_intersection(x: Seq<ElementView>, y: Seq<ElementView>, g: ElementView)
    requires
        dnf_wf(x),
        dnf_wf(y),
    ensures
        intersection_of(x, y).contains(g) <==> g != ElementView::none() && exists|i: int, j: int|
            0 <= i < x.len() && 0 <= j < y.len() && g == #[trigger] x[i].meet(y[j]),
{
    lemma_intersection_groups(x, y);
}

} // verus!
