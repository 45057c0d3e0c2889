//! The model of a constraint: a list of groups, read as their disjunction.
//!
//! A constraint holds a pair of places when one of its groups does. Its
//! groups are kept without `none`, without repetition and in the order of
//! groups, so that a constraint is known by the set of its groups.
use crate::element_model::{
    element_lt, lemma_element_meet, lemma_element_meet_algebra, lemma_element_none_any,
    lemma_element_total_order, ElementView,
};
use crate::position::{value_pos, Pos};
use crate::range_model::RangeView;
use vstd::prelude::*;

verus! {

/// One of the groups holds the pair of places.
pub open spec fn dnf_covers(groups: Seq<ElementView>, version: Pos, build_number: Pos) -> bool {
    exists|i: int| 0 <= i < groups.len() && (#[trigger] groups[i]).covers(version, build_number)
}

/// One of the groups holds the candidate with the given keys.
pub open spec fn dnf_holds(groups: Seq<ElementView>, version: Seq<int>, build_number: Seq<int>) -> bool {
    dnf_covers(groups, value_pos(version), value_pos(build_number))
}

/// Every group of the list is well formed.
pub open spec fn all_wf(groups: Seq<ElementView>) -> bool {
    forall|i: int| 0 <= i < groups.len() ==> (#[trigger] groups[i]).wf()
}

/// The groups rise strictly in the order of groups.
pub open spec fn sorted(groups: Seq<ElementView>) -> bool {
    forall|i: int, j: int|
        0 <= i < j < groups.len() ==> element_lt(#[trigger] groups[i], #[trigger] groups[j])
}

/// The list is in the form in which constraints are kept: well-formed
/// groups, none of them `none`, in strictly rising order, and `any` only
/// as the single group of the list.
pub open spec fn dnf_wf(groups: Seq<ElementView>) -> bool {
    &&& all_wf(groups)
    &&& sorted(groups)
    &&& !groups.contains(ElementView::none())
    &&& (groups.contains(ElementView::any()) ==> groups.len() == 1)
}

/// The constraint that holds nothing: no group.
pub open spec fn empty() -> Seq<ElementView> {
    Seq::empty()
}

/// The constraint that holds everything: the one group `any`.
pub open spec fn full() -> Seq<ElementView> {
    seq![ElementView::any()]
}

/// The sorted list `groups` with `element` put in its place, unless it is
/// there already.
pub open spec fn insert(groups: Seq<ElementView>, element: ElementView) -> Seq<ElementView>
    decreases groups.len(),
{
    if groups.len() == 0 {
        seq![element]
    } else if element_lt(groups.last(), element) {
        groups.push(element)
    } else if groups.last() == element {
        groups
    } else {
        insert(groups.drop_last(), element).push(groups.last())
    }
}

/// The sorted list `base` with each of `items` put in its place, but for
/// those that are `none`.
pub open spec fn gather(base: Seq<ElementView>, items: Seq<ElementView>) -> Seq<ElementView>
    decreases items.len(),
{
    if items.len() == 0 {
        base
    } else if items.last() == ElementView::none() {
        gather(base, items.drop_last())
    } else {
        insert(gather(base, items.drop_last()), items.last())
    }
}

/// The groups of a constraint made of `items`: if one of them is `any`
/// the constraint is `full`, otherwise it has the items other than `none`,
/// each once, in order.
pub open spec fn normalize(items: Seq<ElementView>) -> Seq<ElementView> {
    if items.contains(ElementView::any()) {
        full()
    } else {
        gather(empty(), items)
    }
}

pub proof fn lemma_contains_push<A>(s: Seq<A>, a: A)
    ensures
        forall|g: A| #[trigger] s.push(a).contains(g) <==> s.contains(g) || g == a,
{
    assert forall|g: A| #[trigger] s.push(a).contains(g) <==> s.contains(g) || g == a by {
        if s.contains(g) {
            let i = choose|i: int| 0 <= i < s.len() && s[i] == g;
            assert(s.push(a)[i] == g);
        }
        if g == a {
            assert(s.push(a)[s.len() as int] == g);
        }
        if s.push(a).contains(g) {
            let i = choose|i: int| 0 <= i < s.push(a).len() && s.push(a)[i] == g;
            if i < s.len() {
                assert(s[i] == g);
            }
        }
    }
}

pub proof fn lemma_contains_concat<A>(s: Seq<A>, t: Seq<A>)
    ensures
        forall|g: A| #[trigger] (s + t).contains(g) <==> s.contains(g) || t.contains(g),
{
    assert forall|g: A| #[trigger] (s + t).contains(g) <==> s.contains(g) || t.contains(g) by {
        if s.contains(g) {
            let i = choose|i: int| 0 <= i < s.len() && s[i] == g;
            assert((s + t)[i] == g);
        }
        if t.contains(g) {
            let i = choose|i: int| 0 <= i < t.len() && t[i] == g;
            assert((s + t)[s.len() + i] == g);
        }
        if (s + t).contains(g) {
            let i = choose|i: int| 0 <= i < (s + t).len() && (s + t)[i] == g;
            if i < s.len() {
                assert(s[i] == g);
            } else {
                assert(t[i - s.len()] == g);
            }
        }
    }
}

/// Putting a group into a sorted list leaves the list sorted and adds
/// that group to what the list has, nothing else.
pub proof fn lemma_insert(groups: Seq<ElementView>, element: ElementView)
    requires
        sorted(groups),
    ensures
        sorted(insert(groups, element)),
        forall|g: ElementView| #[trigger]
            insert(groups, element).contains(g) <==> groups.contains(g) || g == element,
    decreases groups.len(),
{
    lemma_element_total_order();
    let r = insert(groups, element);
    if groups.len() == 0 {
        assert forall|g: ElementView| #[trigger] r.contains(g) <==> groups.contains(g) || g == element by {
            if g == element {
                assert(r[0] == g);
            }
        }
    } else if element_lt(groups.last(), element) {
        lemma_contains_push(groups, element);
        assert forall|i: int, j: int| 0 <= i < j < r.len() implies element_lt(
            #[trigger] r[i],
            #[trigger] r[j],
        ) by {
            if j == groups.len() {
                if i < groups.len() - 1 {
                    assert(element_lt(groups[i], groups[groups.len() - 1]));
                }
            } else {
                assert(element_lt(groups[i], groups[j]));
            }
        }
    } else if groups.last() == element {
        assert(groups[groups.len() - 1] == element);
    } else {
        let rest = groups.drop_last();
        let last = groups.last();
        assert(sorted(rest)) by {
            assert forall|i: int, j: int| 0 <= i < j < rest.len() implies element_lt(
                #[trigger] rest[i],
                #[trigger] rest[j],
            ) by {
                assert(element_lt(groups[i], groups[j]));
            }
        }
        lemma_insert(rest, element);
        let inner = insert(rest, element);
        lemma_contains_push(inner, last);
        assert(groups =~= rest.push(last));
        lemma_contains_push(rest, last);
        assert forall|i: int, j: int| 0 <= i < j < r.len() implies element_lt(
            #[trigger] r[i],
            #[trigger] r[j],
        ) by {
            if j == inner.len() {
                assert(inner.contains(inner[i]));
                if rest.contains(inner[i]) {
                    let k = choose|k: int| 0 <= k < rest.len() && rest[k] == inner[i];
                    assert(element_lt(groups[k], groups[groups.len() - 1]));
                }
            } else {
                assert(element_lt(inner[i], inner[j]));
            }
        }
    }
}

/// Gathering items into a sorted list leaves it sorted and adds the
/// items other than `none` to what the list has.
pub proof fn lemma_gather(base: Seq<ElementView>, items: Seq<ElementView>)
    requires
        sorted(base),
    ensures
        sorted(gather(base, items)),
        forall|g: ElementView| #[trigger]
            gather(base, items).contains(g) <==> base.contains(g) || (items.contains(g) && g
                != ElementView::none()),
    decreases items.len(),
{
    if items.len() > 0 {
        let rest = items.drop_last();
        lemma_gather(base, rest);
        lemma_insert(gather(base, rest), items.last());
        assert(items =~= rest.push(items.last()));
        lemma_contains_push(rest, items.last());
    }
}

/// Gathering a list of items in two parts gives what gathering it at once
/// gives.
pub proof fn lemma_gather_concat(base: Seq<ElementView>, first: Seq<ElementView>, second: Seq<ElementView>)
    ensures
        gather(base, first + second) == gather(gather(base, first), second),
    decreases second.len(),
{
    if second.len() == 0 {
        assert(first + second =~= first);
    } else {
        assert((first + second).drop_last() =~= first + second.drop_last());
        assert((first + second).last() == second.last());
        lemma_gather_concat(base, first, second.drop_last());
    }
}

/// Two sorted lists with the same groups are one list.
pub proof fn lemma_sorted_unique(s: Seq<ElementView>, t: Seq<ElementView>)
    requires
        sorted(s),
        sorted(t),
        forall|g: ElementView| #[trigger] s.contains(g) <==> t.contains(g),
    ensures
        s == t,
    decreases s.len(),
{
    lemma_element_total_order();
    if s.len() == 0 {
        if t.len() > 0 {
            assert(t.contains(t[0]));
            assert(s.contains(t[0]));
        }
        assert(s =~= t);
    } else {
        let a = s.last();
        assert(s.contains(s[s.len() - 1]));
        assert(t.contains(a));
        let b = t.last();
        assert(t.contains(t[t.len() - 1]));
        assert(s.contains(b));
        let i = choose|i: int| 0 <= i < t.len() && t[i] == a;
        let j = choose|j: int| 0 <= j < s.len() && s[j] == b;
        if i < t.len() - 1 {
            assert(element_lt(t[i], t[t.len() - 1]));
        }
        if j < s.len() - 1 {
            assert(element_lt(s[j], s[s.len() - 1]));
        }
        assert(a == b);
        let s2 = s.drop_last();
        let t2 = t.drop_last();
        assert(s =~= s2.push(a));
        assert(t =~= t2.push(b));
        lemma_contains_push(s2, a);
        lemma_contains_push(t2, b);
        assert(sorted(s2)) by {
            assert forall|i: int, j: int| 0 <= i < j < s2.len() implies element_lt(
                #[trigger] s2[i],
                #[trigger] s2[j],
            ) by {
                assert(element_lt(s[i], s[j]));
            }
        }
        assert(sorted(t2)) by {
            assert forall|i: int, j: int| 0 <= i < j < t2.len() implies element_lt(
                #[trigger] t2[i],
                #[trigger] t2[j],
            ) by {
                assert(element_lt(t[i], t[j]));
            }
        }
        assert forall|g: ElementView| #[trigger] s2.contains(g) <==> t2.contains(g) by {
            if s2.contains(g) {
                let k = choose|k: int| 0 <= k < s2.len() && s2[k] == g;
                assert(s[k] == g);
                assert(element_lt(s[k], s[s.len() - 1]));
                assert(g != b);
                assert(s2.push(a).contains(g));
                assert(t2.push(b).contains(g));
            }
            if t2.contains(g) {
                let k = choose|k: int| 0 <= k < t2.len() && t2[k] == g;
                assert(t[k] == g);
                assert(element_lt(t[k], t[t.len() - 1]));
                assert(g != a);
                assert(t2.push(b).contains(g));
                assert(s2.push(a).contains(g));
            }
        }
        lemma_sorted_unique(s2, t2);
    }
}

/// What `normalize` gives is in the form in which constraints are kept,
/// and it holds the pairs that one of the items holds.
pub proof fn lemma_normalize(items: Seq<ElementView>)
    requires
        all_wf(items),
    ensures
        dnf_wf(normalize(items)),
        forall|v: Pos, b: Pos| #[trigger]
            dnf_covers(normalize(items), v, b) == dnf_covers(items, v, b),
        !items.contains(ElementView::any()) ==> forall|g: ElementView| #[trigger]
            normalize(items).contains(g) <==> items.contains(g) && g != ElementView::none(),
{
    lemma_element_none_any();
    let r = normalize(items);
    if items.contains(ElementView::any()) {
        let k = choose|k: int| 0 <= k < items.len() && items[k] == ElementView::any();
        assert(r[0] == ElementView::any());
        assert forall|v: Pos, b: Pos| #[trigger] dnf_covers(r, v, b) == dnf_covers(items, v, b) by {
            assert(r[0].covers(v, b));
            assert(items[k].covers(v, b));
        }
    } else {
        lemma_gather(empty(), items);
        assert forall|i: int| 0 <= i < r.len() implies (#[trigger] r[i]).wf() by {
            assert(r.contains(r[i]));
            let k = choose|k: int| 0 <= k < items.len() && items[k] == r[i];
            assert(items[k].wf());
        }
        assert forall|v: Pos, b: Pos| #[trigger] dnf_covers(r, v, b) == dnf_covers(items, v, b) by {
            if dnf_covers(r, v, b) {
                let i = choose|i: int| 0 <= i < r.len() && (#[trigger] r[i]).covers(v, b);
                assert(r.contains(r[i]));
                let k = choose|k: int| 0 <= k < items.len() && items[k] == r[i];
                assert(items[k].covers(v, b));
            }
            if dnf_covers(items, v, b) {
                let k = choose|k: int| 0 <= k < items.len() && (#[trigger] items[k]).covers(v, b);
                assert(items.contains(items[k]));
                assert(items[k] != ElementView::none());
                assert(r.contains(items[k]));
                let i = choose|i: int| 0 <= i < r.len() && r[i] == items[k];
                assert(r[i].covers(v, b));
            }
        }
    }
}

/// The intersections of one group with each group of a list.
pub open spec fn row(element: ElementView, groups: Seq<ElementView>) -> Seq<ElementView> {
    Seq::new(groups.len(), |j: int| element.meet(groups[j]))
}

/// The intersections of each group of `x` with each group of `y`.
pub open spec fn pairs(x: Seq<ElementView>, y: Seq<ElementView>) -> Seq<ElementView>
    decreases x.len(),
{
    if x.len() == 0 {
        Seq::empty()
    } else {
        pairs(x.drop_last(), y) + row(x.last(), y)
    }
}

/// `g` is the intersection of a group of `x` with a group of `y`.
pub open spec fn is_meet_of(g: ElementView, x: Seq<ElementView>, y: Seq<ElementView>) -> bool {
    exists|i: int, j: int| 0 <= i < x.len() && 0 <= j < y.len() && g == #[trigger] x[i].meet(y[j])
}

/// The intersection of two constraints: AND distributed over OR.
pub open spec fn intersection_of(x: Seq<ElementView>, y: Seq<ElementView>) -> Seq<ElementView> {
    normalize(pairs(x, y))
}

/// What is left when a group is taken away: the packages whose version
/// the group does not take, and those whose build number it does not take.
/// A side that would hold nothing is left out.
pub open spec fn alternatives(g: ElementView) -> Seq<ElementView> {
    let by_version = if g.version.negation() == RangeView::none() {
        Seq::empty()
    } else {
        seq![ElementView { version: g.version.negation(), build_number: RangeView::any() }]
    };
    let by_build_number = if g.build_number.negation() == RangeView::none() {
        Seq::empty()
    } else {
        seq![ElementView { version: RangeView::any(), build_number: g.build_number.negation() }]
    };
    by_version + by_build_number
}

/// The alternatives of each group of a constraint.
pub open spec fn all_alternatives(x: Seq<ElementView>) -> Seq<Seq<ElementView>> {
    Seq::new(x.len(), |i: int| alternatives(x[i]))
}

/// For every way of picking one group from each list of `lists`, the
/// intersection of `acc` with the groups picked.
pub open spec fn expand(acc: ElementView, lists: Seq<Seq<ElementView>>) -> Seq<ElementView>
    decreases lists.len(), 0nat, 0nat,
{
    if lists.len() == 0 {
        seq![acc]
    } else {
        expand_choices(acc, lists[0], lists.drop_first())
    }
}

/// The same, where the first group is picked from `choices` and the others
/// from the lists of `rest`.
pub open spec fn expand_choices(
    acc: ElementView,
    choices: Seq<ElementView>,
    rest: Seq<Seq<ElementView>>,
) -> Seq<ElementView>
    decreases rest.len(), 1nat, choices.len(),
{
    if choices.len() == 0 {
        Seq::empty()
    } else {
        expand_choices(acc, choices.drop_last(), rest) + expand(acc.meet(choices.last()), rest)
    }
}

/// The complement of a constraint, by De Morgan: the conjunction, over the
/// groups, of what is left when the group is taken away.
pub open spec fn complement_of(x: Seq<ElementView>) -> Seq<ElementView> {
    normalize(expand(ElementView::any(), all_alternatives(x)))
}

/// The union of two constraints: the complement of the intersection of
/// their complements.
pub open spec fn union_of(x: Seq<ElementView>, y: Seq<ElementView>) -> Seq<ElementView> {
    complement_of(intersection_of(complement_of(x), complement_of(y)))
}

/// Every list of `lists` has a group that holds the pair.
pub open spec fn all_cover(lists: Seq<Seq<ElementView>>, v: Pos, b: Pos) -> bool {
    forall|d: int| 0 <= d < lists.len() ==> dnf_covers(#[trigger] lists[d], v, b)
}

/// Every group of every list is well formed.
pub open spec fn lists_wf(lists: Seq<Seq<ElementView>>) -> bool {
    forall|d: int| 0 <= d < lists.len() ==> all_wf(#[trigger] lists[d])
}

pub proof fn lemma_covers_concat(s: Seq<ElementView>, t: Seq<ElementView>)
    ensures
        forall|v: Pos, b: Pos| #[trigger]
            dnf_covers(s + t, v, b) == (dnf_covers(s, v, b) || dnf_covers(t, v, b)),
        all_wf(s) && all_wf(t) ==> all_wf(s + t),
{
    assert forall|v: Pos, b: Pos| #[trigger]
        dnf_covers(s + t, v, b) == (dnf_covers(s, v, b) || dnf_covers(t, v, b)) by {
        if dnf_covers(s, v, b) {
            let i = choose|i: int| 0 <= i < s.len() && (#[trigger] s[i]).covers(v, b);
            assert((s + t)[i].covers(v, b));
        }
        if dnf_covers(t, v, b) {
            let i = choose|i: int| 0 <= i < t.len() && (#[trigger] t[i]).covers(v, b);
            assert((s + t)[s.len() + i].covers(v, b));
        }
        if dnf_covers(s + t, v, b) {
            let i = choose|i: int| 0 <= i < (s + t).len() && (#[trigger] (s + t)[i]).covers(v, b);
            if i < s.len() {
                assert(s[i].covers(v, b));
            } else {
                assert(t[i - s.len()].covers(v, b));
            }
        }
    }
    if all_wf(s) && all_wf(t) {
        assert forall|i: int| 0 <= i < (s + t).len() implies (#[trigger] (s + t)[i]).wf() by {
            if i < s.len() {
                assert(s[i].wf());
            } else {
                assert(t[i - s.len()].wf());
            }
        }
    }
}

/// The list `pairs(x, y)` has the intersections of a group of `x` with a
/// group of `y`, and nothing else.
pub proof fn lemma_pairs(x: Seq<ElementView>, y: Seq<ElementView>)
    ensures
        forall|g: ElementView| #[trigger] pairs(x, y).contains(g) <==> is_meet_of(g, x, y),
        all_wf(x) && all_wf(y) ==> all_wf(pairs(x, y)),
    decreases x.len(),
{
    if x.len() > 0 {
        let rest = x.drop_last();
        let last = x.last();
        lemma_pairs(rest, y);
        lemma_contains_concat(pairs(rest, y), row(last, y));
        assert forall|g: ElementView| #[trigger] pairs(x, y).contains(g) <==> is_meet_of(g, x, y) by {
            if pairs(rest, y).contains(g) {
                let (i, j) = choose|i: int, j: int|
                    0 <= i < rest.len() && 0 <= j < y.len() && g == #[trigger] rest[i].meet(y[j]);
                assert(g == x[i].meet(y[j]));
            }
            if row(last, y).contains(g) {
                let j = choose|j: int| 0 <= j < row(last, y).len() && row(last, y)[j] == g;
                assert(g == x[x.len() - 1].meet(y[j]));
            }
            if is_meet_of(g, x, y) {
                let (i, j) = choose|i: int, j: int|
                    0 <= i < x.len() && 0 <= j < y.len() && g == #[trigger] x[i].meet(y[j]);
                if i == x.len() - 1 {
                    assert(row(last, y)[j] == g);
                } else {
                    assert(g == rest[i].meet(y[j]));
                }
            }
        }
        if all_wf(x) && all_wf(y) {
            assert(all_wf(rest)) by {
                assert forall|i: int| 0 <= i < rest.len() implies (#[trigger] rest[i]).wf() by {
                    assert(x[i].wf());
                }
            }
            assert(all_wf(row(last, y))) by {
                assert forall|j: int| 0 <= j < y.len() implies (#[trigger] row(last, y)[j]).wf() by {
                    assert(x[x.len() - 1].wf());
                    assert(y[j].wf());
                    lemma_element_meet(last, y[j]);
                }
            }
            lemma_covers_concat(pairs(rest, y), row(last, y));
        }
    }
}

/// The intersection of two constraints is in the form in which
/// constraints are kept, and holds a pair exactly when both hold it.
pub proof fn lemma_intersection(x: Seq<ElementView>, y: Seq<ElementView>)
    requires
        all_wf(x),
        all_wf(y),
    ensures
        dnf_wf(intersection_of(x, y)),
        forall|v: Pos, b: Pos| #[trigger]
            dnf_covers(intersection_of(x, y), v, b) == (dnf_covers(x, v, b) && dnf_covers(y, v, b)),
{
    let items = pairs(x, y);
    lemma_pairs(x, y);
    lemma_normalize(items);
    assert forall|v: Pos, b: Pos| #[trigger]
        dnf_covers(intersection_of(x, y), v, b) == (dnf_covers(x, v, b) && dnf_covers(y, v, b)) by {
        assert(dnf_covers(normalize(items), v, b) == dnf_covers(items, v, b));
        if dnf_covers(items, v, b) {
            let k = choose|k: int| 0 <= k < items.len() && (#[trigger] items[k]).covers(v, b);
            assert(items.contains(items[k]));
            let (i, j) = choose|i: int, j: int|
                0 <= i < x.len() && 0 <= j < y.len() && items[k] == #[trigger] x[i].meet(y[j]);
            assert(x[i].wf() && y[j].wf());
            lemma_element_meet(x[i], y[j]);
            assert(x[i].meet(y[j]).covers(v, b));
            assert(x[i].covers(v, b) && y[j].covers(v, b));
        }
        if dnf_covers(x, v, b) && dnf_covers(y, v, b) {
            let i = choose|i: int| 0 <= i < x.len() && (#[trigger] x[i]).covers(v, b);
            let j = choose|j: int| 0 <= j < y.len() && (#[trigger] y[j]).covers(v, b);
            lemma_element_meet(x[i], y[j]);
            let g = x[i].meet(y[j]);
            assert(g.covers(v, b));
            assert(is_meet_of(g, x, y));
            assert(items.contains(g));
            let k = choose|k: int| 0 <= k < items.len() && items[k] == g;
            assert(items[k].covers(v, b));
        }
    }
}

/// The alternatives of a group are well formed, none of them is `none`,
/// and together they hold the pairs that the group does not hold.
pub proof fn lemma_alternatives(g: ElementView)
    requires
        g.wf(),
    ensures
        all_wf(alternatives(g)),
        !alternatives(g).contains(ElementView::none()),
        alternatives(g).len() <= 2,
        forall|v: Pos, b: Pos| #[trigger] dnf_covers(alternatives(g), v, b) == !g.covers(v, b),
{
    crate::range_model::lemma_none_any();
    crate::range_model::lemma_negation(g.version);
    crate::range_model::lemma_negation(g.build_number);
    let alts = alternatives(g);
    let nv = g.version.negation();
    let nb = g.build_number.negation();
    assert forall|v: Pos, b: Pos| #[trigger] dnf_covers(alts, v, b) == !g.covers(v, b) by {
        assert(nv.covers(v) == !g.version.covers(v));
        assert(nb.covers(b) == !g.build_number.covers(b));
        assert(RangeView::any().covers(v) && RangeView::any().covers(b));
        if dnf_covers(alts, v, b) {
            let i = choose|i: int| 0 <= i < alts.len() && (#[trigger] alts[i]).covers(v, b);
            assert(!g.covers(v, b));
        }
        if !g.version.covers(v) {
            assert(nv != RangeView::none());
            assert(alts[0].covers(v, b));
        } else if !g.build_number.covers(b) {
            assert(nb != RangeView::none());
            assert(alts[alts.len() - 1].covers(v, b));
        }
    }
}

/// The expansion holds a pair exactly when `acc` holds it and every list
/// has a group that holds it.
pub proof fn lemma_expand(acc: ElementView, lists: Seq<Seq<ElementView>>)
    requires
        acc.wf(),
        lists_wf(lists),
    ensures
        all_wf(expand(acc, lists)),
        forall|v: Pos, b: Pos| #[trigger]
            dnf_covers(expand(acc, lists), v, b) == (acc.covers(v, b) && all_cover(lists, v, b)),
    decreases lists.len(), 0nat, 0nat,
{
    if lists.len() == 0 {
        assert forall|v: Pos, b: Pos| #[trigger]
            dnf_covers(expand(acc, lists), v, b) == (acc.covers(v, b) && all_cover(lists, v, b)) by {
            if acc.covers(v, b) {
                assert(expand(acc, lists)[0].covers(v, b));
            }
        }
    } else {
        let rest = lists.drop_first();
        assert(lists_wf(rest)) by {
            assert forall|d: int| 0 <= d < rest.len() implies all_wf(#[trigger] rest[d]) by {
                assert(rest[d] == lists[d + 1]);
            }
        }
        assert(all_wf(lists[0]));
        lemma_expand_choices(acc, lists[0], rest);
        assert forall|v: Pos, b: Pos| #[trigger]
            dnf_covers(expand(acc, lists), v, b) == (acc.covers(v, b) && all_cover(lists, v, b)) by {
            assert(dnf_covers(expand_choices(acc, lists[0], rest), v, b) == (acc.covers(v, b)
                && dnf_covers(lists[0], v, b) && all_cover(rest, v, b)));
            if all_cover(lists, v, b) {
                assert(dnf_covers(lists[0], v, b));
                assert forall|d: int| 0 <= d < rest.len() implies dnf_covers(#[trigger] rest[d], v, b) by {
                    assert(rest[d] == lists[d + 1]);
                }
            }
            if dnf_covers(lists[0], v, b) && all_cover(rest, v, b) {
                assert forall|d: int| 0 <= d < lists.len() implies dnf_covers(
                    #[trigger] lists[d],
                    v,
                    b,
                ) by {
                    if d > 0 {
                        assert(rest[d - 1] == lists[d]);
                    }
                }
            }
        }
    }
}

/// The same, where the first group is picked from `choices`.
pub proof fn lemma_expand_choices(
    acc: ElementView,
    choices: Seq<ElementView>,
    rest: Seq<Seq<ElementView>>,
)
    requires
        acc.wf(),
        all_wf(choices),
        lists_wf(rest),
    ensures
        all_wf(expand_choices(acc, choices, rest)),
        forall|v: Pos, b: Pos| #[trigger]
            dnf_covers(expand_choices(acc, choices, rest), v, b) == (acc.covers(v, b) && dnf_covers(
                choices,
                v,
                b,
            ) && all_cover(rest, v, b)),
    decreases rest.len(), 1nat, choices.len(),
{
    if choices.len() > 0 {
        let before = choices.drop_last();
        let last = choices.last();
        assert(all_wf(before)) by {
            assert forall|i: int| 0 <= i < before.len() implies (#[trigger] before[i]).wf() by {
                assert(choices[i].wf());
            }
        }
        assert(choices[choices.len() - 1].wf());
        lemma_element_meet(acc, last);
        lemma_expand_choices(acc, before, rest);
        lemma_expand(acc.meet(last), rest);
        lemma_covers_concat(expand_choices(acc, before, rest), expand(acc.meet(last), rest));
        assert(choices =~= before + seq![last]);
        lemma_covers_concat(before, seq![last]);
        assert forall|v: Pos, b: Pos| #[trigger]
            dnf_covers(expand_choices(acc, choices, rest), v, b) == (acc.covers(v, b) && dnf_covers(
                choices,
                v,
                b,
            ) && all_cover(rest, v, b)) by {
            assert(dnf_covers(choices, v, b) == (dnf_covers(before, v, b) || dnf_covers(
                seq![last],
                v,
                b,
            )));
            if dnf_covers(seq![last], v, b) {
                let i = choose|i: int| 0 <= i < 1 && (#[trigger] seq![last][i]).covers(v, b);
                assert(last.covers(v, b));
            }
            if last.covers(v, b) {
                assert(seq![last][0].covers(v, b));
            }
            assert(acc.meet(last).covers(v, b) == (acc.covers(v, b) && last.covers(v, b)));
            assert(dnf_covers(expand_choices(acc, before, rest), v, b) == (acc.covers(v, b)
                && dnf_covers(before, v, b) && all_cover(rest, v, b)));
            assert(dnf_covers(expand(acc.meet(last), rest), v, b) == (acc.meet(last).covers(v, b)
                && all_cover(rest, v, b)));
        }
    }
}

/// The complement of a constraint is in the form in which constraints are
/// kept, and holds a pair exactly when the constraint does not.
pub proof fn lemma_complement(x: Seq<ElementView>)
    requires
        all_wf(x),
    ensures
        dnf_wf(complement_of(x)),
        forall|v: Pos, b: Pos| #[trigger] dnf_covers(complement_of(x), v, b) == !dnf_covers(x, v, b),
{
    lemma_element_none_any();
    let lists = all_alternatives(x);
    assert(lists_wf(lists)) by {
        assert forall|d: int| 0 <= d < lists.len() implies all_wf(#[trigger] lists[d]) by {
            assert(x[d].wf());
            lemma_alternatives(x[d]);
        }
    }
    lemma_expand(ElementView::any(), lists);
    lemma_normalize(expand(ElementView::any(), lists));
    assert forall|v: Pos, b: Pos| #[trigger] dnf_covers(complement_of(x), v, b) == !dnf_covers(
        x,
        v,
        b,
    ) by {
        assert(dnf_covers(complement_of(x), v, b) == dnf_covers(
            expand(ElementView::any(), lists),
            v,
            b,
        ));
        assert(dnf_covers(expand(ElementView::any(), lists), v, b) == (ElementView::any().covers(v, b)
            && all_cover(lists, v, b)));
        assert(ElementView::any().covers(v, b));
        if all_cover(lists, v, b) && dnf_covers(x, v, b) {
            let d = choose|d: int| 0 <= d < x.len() && (#[trigger] x[d]).covers(v, b);
            assert(x[d].wf());
            lemma_alternatives(x[d]);
            assert(dnf_covers(lists[d], v, b));
        }
        if !dnf_covers(x, v, b) {
            assert forall|d: int| 0 <= d < lists.len() implies dnf_covers(#[trigger] lists[d], v, b) by {
                assert(x[d].wf());
                lemma_alternatives(x[d]);
                assert(!x[d].covers(v, b));
            }
        }
    }
}

/// The union of two constraints is in the form in which constraints are
/// kept, and holds a pair exactly when one of the two holds it.
pub proof fn lemma_union(x: Seq<ElementView>, y: Seq<ElementView>)
    requires
        all_wf(x),
        all_wf(y),
    ensures
        dnf_wf(union_of(x, y)),
        forall|v: Pos, b: Pos| #[trigger]
            dnf_covers(union_of(x, y), v, b) == (dnf_covers(x, v, b) || dnf_covers(y, v, b)),
{
    lemma_complement(x);
    lemma_complement(y);
    lemma_intersection(complement_of(x), complement_of(y));
    lemma_complement(intersection_of(complement_of(x), complement_of(y)));
    assert forall|v: Pos, b: Pos| #[trigger]
        dnf_covers(union_of(x, y), v, b) == (dnf_covers(x, v, b) || dnf_covers(y, v, b)) by {
        let m = intersection_of(complement_of(x), complement_of(y));
        assert(dnf_covers(complement_of(m), v, b) == !dnf_covers(m, v, b));
        assert(dnf_covers(m, v, b) == (dnf_covers(complement_of(x), v, b) && dnf_covers(
            complement_of(y),
            v,
            b,
        )));
        assert(dnf_covers(complement_of(x), v, b) == !dnf_covers(x, v, b));
        assert(dnf_covers(complement_of(y), v, b) == !dnf_covers(y, v, b));
    }
}

/// Where the groups below place `k` are below `element` and the group at
/// place `k`, if there is one, is above it, `element` goes to place `k`.
pub proof fn lemma_insert_at(groups: Seq<ElementView>, element: ElementView, k: int)
    requires
        sorted(groups),
        0 <= k <= groups.len(),
        forall|i: int| 0 <= i < k ==> element_lt(#[trigger] groups[i], element),
        k < groups.len() ==> element_lt(element, groups[k]),
    ensures
        insert(groups, element) == groups.insert(k, element),
    decreases groups.len(),
{
    lemma_element_total_order();
    if groups.len() == 0 {
        assert(seq![element] =~= groups.insert(k, element));
    } else if k == groups.len() {
        assert(element_lt(groups[groups.len() - 1], element));
        assert(groups.push(element) =~= groups.insert(k, element));
    } else {
        let rest = groups.drop_last();
        let last = groups.last();
        if k < groups.len() - 1 {
            assert(element_lt(groups[k], groups[groups.len() - 1]));
        }
        assert(element_lt(element, last));
        assert(sorted(rest)) by {
            assert forall|i: int, j: int| 0 <= i < j < rest.len() implies element_lt(
                #[trigger] rest[i],
                #[trigger] rest[j],
            ) by {
                assert(element_lt(groups[i], groups[j]));
            }
        }
        assert forall|i: int| 0 <= i < k implies element_lt(#[trigger] rest[i], element) by {
            assert(rest[i] == groups[i]);
        }
        lemma_insert_at(rest, element, k);
        assert(rest.insert(k, element).push(last) =~= groups.insert(k, element));
    }
}

/// Putting in a group that the sorted list has leaves the list as it is.
pub proof fn lemma_insert_present(groups: Seq<ElementView>, element: ElementView)
    requires
        sorted(groups),
        groups.contains(element),
    ensures
        insert(groups, element) == groups,
{
    lemma_insert(groups, element);
    lemma_sorted_unique(insert(groups, element), groups);
}

/// What is expanded from the first `n` choices is among what is expanded
/// from all of them.
pub proof fn lemma_expand_choices_prefix(
    acc: ElementView,
    choices: Seq<ElementView>,
    n: int,
    rest: Seq<Seq<ElementView>>,
)
    requires
        0 <= n <= choices.len(),
    ensures
        forall|g: ElementView| #[trigger]
            expand_choices(acc, choices.take(n), rest).contains(g) ==> expand_choices(
                acc,
                choices,
                rest,
            ).contains(g),
    decreases choices.len(),
{
    if n == choices.len() {
        assert(choices.take(n) =~= choices);
    } else {
        let before = choices.drop_last();
        assert(choices.take(n) =~= before.take(n));
        lemma_expand_choices_prefix(acc, before, n, rest);
        lemma_contains_concat(expand_choices(acc, before, rest), expand(acc.meet(choices.last()), rest));
    }
}

/// The complement of the constraint that holds nothing holds everything.
pub proof fn lemma_complement_empty()
    ensures
        complement_of(empty()) == full(),
{
    let lists = all_alternatives(empty());
    assert(expand(ElementView::any(), lists)[0] == ElementView::any());
}

/// What `normalize` gives depends only on which groups other than `none`
/// the items are, not on their order or number.
pub proof fn lemma_normalize_same(a: Seq<ElementView>, b: Seq<ElementView>)
    requires
        forall|g: ElementView| g != ElementView::none() ==> (#[trigger] a.contains(g) <==> b.contains(g)),
    ensures
        normalize(a) == normalize(b),
{
    lemma_element_none_any();
    assert(a.contains(ElementView::any()) <==> b.contains(ElementView::any()));
    if !a.contains(ElementView::any()) {
        lemma_gather(empty(), a);
        lemma_gather(empty(), b);
        assert forall|g: ElementView| #[trigger]
            gather(empty(), a).contains(g) <==> gather(empty(), b).contains(g) by {
            if g != ElementView::none() {
                assert(a.contains(g) <==> b.contains(g));
            }
        }
        lemma_sorted_unique(gather(empty(), a), gather(empty(), b));
    }
}

/// The groups of the intersection of two constraints are the intersections
/// of a group of the one with a group of the other, but for `none`.
pub proof fn lemma_intersection_groups(x: Seq<ElementView>, y: Seq<ElementView>)
    requires
        dnf_wf(x),
        dnf_wf(y),
    ensures
        forall|g: ElementView| #[trigger]
            intersection_of(x, y).contains(g) <==> is_meet_of(g, x, y) && g != ElementView::none(),
{
    lemma_element_none_any();
    let items = pairs(x, y);
    let any = ElementView::any();
    lemma_pairs(x, y);
    lemma_normalize(items);
    if items.contains(any) {
        let (i, j) = choose|i: int, j: int|
            0 <= i < x.len() && 0 <= j < y.len() && any == #[trigger] x[i].meet(y[j]);
        assert(x[i].wf() && y[j].wf());
        lemma_element_meet_algebra(x[i], y[j], any);
        assert(x.contains(x[i]) && y.contains(y[j]));
        assert forall|g: ElementView| #[trigger]
            intersection_of(x, y).contains(g) <==> is_meet_of(g, x, y) && g != ElementView::none() by {
            if intersection_of(x, y).contains(g) {
                let k = choose|k: int| 0 <= k < full().len() && full()[k] == g;
                assert(g == any);
            }
            if is_meet_of(g, x, y) {
                let (i2, j2) = choose|i2: int, j2: int|
                    0 <= i2 < x.len() && 0 <= j2 < y.len() && g == #[trigger] x[i2].meet(y[j2]);
                assert(g == any);
                assert(full()[0] == g);
            }
        }
    }
}

} // verus!
