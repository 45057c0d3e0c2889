//! Constraints on packages, kept in disjunctive normal form.
use crate::choices::{choice_at, count_choices, held, new_choices, push_choice, Choices};
use crate::dnf_model::{
    all_alternatives, alternatives, complement_of, dnf_covers, dnf_holds, dnf_wf, empty, expand,
    expand_choices, full, gather, insert, intersection_of, lemma_complement,
    lemma_complement_empty, lemma_contains_concat, lemma_contains_push,
    lemma_expand_choices_prefix, lemma_gather, lemma_gather_concat, lemma_insert,
    lemma_insert_at, lemma_insert_present, lemma_intersection, lemma_pairs, lemma_union,
    normalize, pairs, row, sorted, union_of,
};
use crate::element::MatchSpecElement;
use crate::element_model::{
    element_lt, lemma_element_none_any, lemma_element_total_order, ElementView,
};
use crate::order::{Scalar, Sign};
use crate::position::Pos;
use crate::range::Range;
use crate::range_model::{lemma_equal, lemma_none_any, RangeView};
use crate::text::{dnf_text, groups_text};
use crate::version::{PackageRecord, Version};
use vstd::prelude::*;
use vstd::string::StringExecFns;
use vstd::std_specs::cmp::PartialEqSpecImpl;
use vstd::std_specs::convert::FromSpecImpl;

verus! {

/// What a requirement asks of a package: a range for its version and a
/// build number, each of which may be left open.
pub struct MatchSpec {
    pub version: Option<Range<Version>>,
    pub build_number: Option<usize>,
}

/// Several constraints as a DNF: the packages that match one of the groups.
#[derive(Debug, Hash)]
pub struct MatchSpecConstraints {
    groups: Vec<MatchSpecElement>,
}

/// The models of a list of groups.
spec fn element_views(groups: Seq<MatchSpecElement>) -> Seq<ElementView> {
    Seq::new(groups.len(), |i: int| groups[i]@)
}

/// What each list of a list of lists of alternatives holds.
spec fn choice_views(lists: Seq<Choices>) -> Seq<Seq<ElementView>> {
    Seq::new(lists.len(), |d: int| held(lists[d]))
}

impl View for MatchSpecConstraints {
    type V = Seq<ElementView>;

    closed spec fn view(&self) -> Seq<ElementView> {
        element_views(self.groups@)
    }
}

/// Puts a group into a sorted list of groups, unless it is there.
fn insert_group(groups: &mut Vec<MatchSpecElement>, element: MatchSpecElement)
    requires
        sorted(element_views(old(groups)@)),
    ensures
        element_views(final(groups)@) == insert(element_views(old(groups)@), element@),
        sorted(element_views(final(groups)@)),
{
    let ghost before = element_views(groups@);
    proof {
        lemma_element_total_order();
        lemma_insert(before, element@);
    }
    let mut k: usize = 0;
    while k < groups.len()
        invariant
            k <= groups.len(),
            element_views(groups@) == before,
            before == element_views(old(groups)@),
            sorted(before),
            forall|i: int| 0 <= i < k ==> element_lt(#[trigger] before[i], element@),
        decreases groups.len() - k,
    {
        match groups[k].compare(&element) {
            Sign::Less => {
                assert(before[k as int] == groups@[k as int]@);
                k += 1;
            },
            Sign::Equal => {
                proof {
                    assert(before[k as int] == groups@[k as int]@);
                    assert(before.contains(element@));
                    lemma_insert_present(before, element@);
                }
                return ;
            },
            Sign::Greater => {
                proof {
                    lemma_element_total_order();
                    lemma_insert(before, element@);
                    assert(before[k as int] == groups@[k as int]@);
                    lemma_insert_at(before, element@, k as int);
                }
                groups.insert(k, element);
                assert(element_views(groups@) =~= before.insert(k as int, element@));
                return ;
            },
        }
    }
    proof {
        lemma_insert_at(before, element@, k as int);
    }
    groups.push(element);
    assert(element_views(groups@) =~= before.insert(k as int, element@));
}

/// Goes through every way of picking one group from each list of `lists`
/// from place `depth` on, and gathers into `groups` the intersection of
/// `acc` with the groups picked. Stops, and says so, when an intersection
/// is `any`.
fn expand_into(
    lists: &Vec<Choices>,
    depth: usize,
    acc: &MatchSpecElement,
    groups: &mut Vec<MatchSpecElement>,
) -> (found_any: bool)
    requires
        depth <= lists.len(),
        sorted(element_views(old(groups)@)),
    ensures
        found_any == expand(acc@, choice_views(lists@).skip(depth as int)).contains(
            ElementView::any(),
        ),
        sorted(element_views(final(groups)@)),
        !found_any ==> element_views(final(groups)@) == gather(
            element_views(old(groups)@),
            expand(acc@, choice_views(lists@).skip(depth as int)),
        ),
    decreases lists.len() - depth,
{
    let ghost before = element_views(groups@);
    let ghost all = choice_views(lists@);
    if depth == lists.len() {
        proof {
            reveal_with_fuel(gather, 2);
            assert(expand(acc@, all.skip(depth as int)) =~= seq![acc@]);
            assert(seq![acc@][0] == acc@);
            assert(seq![acc@].drop_last() =~= Seq::<ElementView>::empty());
        }
        if acc.is_any() {
            return true;
        }
        if !acc.is_none() {
            insert_group(groups, acc.duplicate());
        }
        return false;
    }
    let choices = &lists[depth];
    let ghost row = held(*choices);
    let ghost rest = all.skip(depth + 1);
    let count = count_choices(choices);
    proof {
        assert(all.skip(depth as int)[0] == row);
        assert(all.skip(depth as int).drop_first() =~= rest);
        assert(row.take(0) =~= Seq::<ElementView>::empty());
    }
    let mut j: usize = 0;
    while j < count
        invariant
            j <= count,
            count == row.len(),
            depth < lists.len(),
            row == held(lists@[depth as int]),
            all == choice_views(lists@),
            rest == all.skip(depth + 1),
            expand(acc@, all.skip(depth as int)) == expand_choices(acc@, row, rest),
            sorted(before),
            sorted(element_views(groups@)),
            element_views(groups@) == gather(before, expand_choices(acc@, row.take(j as int), rest)),
            !expand_choices(acc@, row.take(j as int), rest).contains(ElementView::any()),
        decreases count - j,
    {
        let choice = choice_at(&lists[depth], j);
        let next = acc.intersection(choice);
        let ghost done = expand_choices(acc@, row.take(j as int), rest);
        let ghost more = expand(next@, rest);
        proof {
            assert(row.take(j + 1).drop_last() =~= row.take(j as int));
            assert(row.take(j + 1).last() == row[j as int]);
            assert(expand_choices(acc@, row.take(j + 1), rest) == done + more);
            lemma_contains_concat(done, more);
            lemma_gather_concat(before, done, more);
        }
        if expand_into(lists, depth + 1, &next, groups) {
            proof {
                lemma_expand_choices_prefix(acc@, row, j + 1, rest);
                assert(expand_choices(acc@, row.take(j + 1), rest).contains(ElementView::any()));
            }
            return true;
        }
        j += 1;
    }
    assert(row.take(j as int) =~= row);
    false
}

impl MatchSpecConstraints {
    /// The groups are well formed, none is `none`, they stand in strictly
    /// rising order, and `any` stands alone. This holds of every constraint.
    #[verifier::type_invariant]
    pub open spec fn wf(&self) -> bool {
        dnf_wf(self@)
    }

    /// The constraint that no package matches.
    pub fn empty() -> (result: Self)
        ensures
            result.wf(),
            result@ == empty(),
            forall|version: Seq<int>, build_number: Seq<int>| !#[trigger] dnf_holds(
                result@,
                version,
                build_number,
            ),
    {
        let groups: Vec<MatchSpecElement> = Vec::new();
        assert(element_views(groups@) =~= empty());
        MatchSpecConstraints { groups }
    }

    /// The constraint that every package matches.
    pub fn full() -> (result: Self)
        ensures
            result.wf(),
            result@ == full(),
            forall|version: Seq<int>, build_number: Seq<int>| #[trigger] dnf_holds(
                result@,
                version,
                build_number,
            ),
    {
        let mut groups: Vec<MatchSpecElement> = Vec::new();
        groups.push(MatchSpecElement::any());
        proof {
            lemma_element_none_any();
            let views = element_views(groups@);
            assert(views =~= full());
            assert forall|version: Seq<int>, build_number: Seq<int>| #[trigger] dnf_holds(
                views,
                version,
                build_number,
            ) by {
                assert(views[0].holds(version, build_number));
            }
        }
        MatchSpecConstraints { groups }
    }

    /// The constraint that `record` matches and no other package.
    pub fn singleton(record: PackageRecord) -> (result: Self)
        ensures
            result.wf(),
            result@ == seq![
                ElementView {
                    version: RangeView::equal(record.version.key()),
                    build_number: RangeView::equal(record.build_number.key()),
                },
            ],
            forall|version: Seq<int>, build_number: Seq<int>| #[trigger]
                dnf_holds(result@, version, build_number) <==> version == record.version.key()
                    && build_number == record.build_number.key(),
    {
        let ghost version_key = record.version.key();
        let ghost build_key = record.build_number.key();
        let element = MatchSpecElement::new(
            Range::equal(record.version),
            Range::equal(record.build_number),
        );
        let mut groups: Vec<MatchSpecElement> = Vec::new();
        groups.push(element);
        proof {
            lemma_equal(version_key);
            lemma_equal(build_key);
            lemma_none_any();
            let views = element_views(groups@);
            let group = ElementView {
                version: RangeView::equal(version_key),
                build_number: RangeView::equal(build_key),
            };
            assert(views =~= seq![group]);
            assert(views[0] == group);
            assert forall|version: Seq<int>, build_number: Seq<int>| #[trigger]
                dnf_holds(views, version, build_number) <==> version == version_key && build_number
                    == build_key by {
                assert(group.version.contains_key(version) <==> version == version_key);
                assert(group.build_number.contains_key(build_number) <==> build_number == build_key);
                if version == version_key && build_number == build_key {
                    assert(views[0].holds(version, build_number));
                }
            }
        }
        MatchSpecConstraints { groups }
    }

    /// The constraint made of one group. The group `none` gives the
    /// constraint that nothing matches.
    pub fn from_element(element: MatchSpecElement) -> (result: Self)
        ensures
            result.wf(),
            result@ == normalize(seq![element@]),
            forall|v: Pos, b: Pos| #[trigger] dnf_covers(result@, v, b) == element@.covers(v, b),
    {
        let ghost items = seq![element@];
        proof {
            use_type_invariant(&element);
            lemma_element_none_any();
            reveal_with_fuel(gather, 2);
            assert(items[0] == element@);
            assert(items.drop_last() =~= Seq::<ElementView>::empty());
            crate::dnf_model::lemma_normalize(items);
            assert forall|v: Pos, b: Pos| #[trigger] dnf_covers(items, v, b) == element@.covers(v, b) by {
                if element@.covers(v, b) {
                    assert(items[0].covers(v, b));
                }
            }
        }
        if element.is_none() {
            Self::empty()
        } else {
            let mut groups: Vec<MatchSpecElement> = Vec::new();
            groups.push(element);
            proof {
                assert(element_views(groups@) =~= items);
                if element@ == ElementView::any() {
                    assert(items =~= full());
                } else {
                    assert(!items.contains(ElementView::any()));
                }
            }
            MatchSpecConstraints { groups }
        }
    }

    /// The constraint of a requirement: a side that the requirement leaves
    /// open takes everything.
    pub fn from_match_spec(spec: MatchSpec) -> (result: Self)
        ensures
            result.wf(),
            result@ == normalize(
                seq![
                    ElementView::of(
                        match spec.version {
                            Some(range) => range@,
                            None => RangeView::any(),
                        },
                        match spec.build_number {
                            Some(number) => RangeView::equal(number.key()),
                            None => RangeView::any(),
                        },
                    ),
                ],
            ),
            spec.version is None && spec.build_number is None ==> result@ == full(),
            forall|version: Seq<int>, build_number: Seq<int>| #[trigger]
                dnf_holds(result@, version, build_number) <==> (match spec.version {
                    Some(range) => range@.contains_key(version),
                    None => true,
                }) && (match spec.build_number {
                    Some(number) => build_number == number.key(),
                    None => true,
                }),
    {
        proof {
            lemma_none_any();
            lemma_element_none_any();
            if let Some(number) = spec.build_number {
                lemma_equal(number.key());
            }
            assert(seq![ElementView::any()][0] == ElementView::any());
        }
        let version = match spec.version {
            Some(range) => range,
            None => Range::any(),
        };
        let build_number = match spec.build_number {
            Some(number) => Range::equal(number),
            None => Range::any(),
        };
        Self::from_element(MatchSpecElement::new(version, build_number))
    }

    /// The constraint that matches exactly the packages that `self` does
    /// not match.
    pub fn complement(&self) -> (result: Self)
        ensures
            result.wf(),
            result@ == complement_of(self@),
            forall|v: Pos, b: Pos| #[trigger] dnf_covers(result@, v, b) == !dnf_covers(self@, v, b),
            forall|version: Seq<int>, build_number: Seq<int>| #[trigger]
                dnf_holds(result@, version, build_number) == !dnf_holds(self@, version, build_number),
    {
        let ghost x = self@;
        proof {
            use_type_invariant(self);
            lemma_complement(x);
        }
        if self.groups.len() == 0 {
            proof {
                assert(x =~= empty());
                lemma_complement_empty();
            }
            return Self::full();
        }
        let mut permutations: Vec<Choices> = Vec::with_capacity(self.groups.len());
        let mut i: usize = 0;
        while i < self.groups.len()
            invariant
                i <= self.groups.len(),
                x == self@,
                choice_views(permutations@) == all_alternatives(x).take(i as int),
            decreases self.groups.len() - i,
        {
            let spec = &self.groups[i];
            let ghost model = spec@;
            let mut group_entries = new_choices();
            let version_complement = spec.version().negate();
            if !version_complement.is_none() {
                push_choice(&mut group_entries, MatchSpecElement::new(version_complement, Range::any()));
            }
            let build_complement = spec.build_number().negate();
            if !build_complement.is_none() {
                push_choice(&mut group_entries, MatchSpecElement::new(Range::any(), build_complement));
            }
            proof {
                lemma_none_any();
                assert(model == x[i as int]);
                assert(held(group_entries) =~= alternatives(model));
            }
            let ghost lists = choice_views(permutations@);
            permutations.push(group_entries);
            proof {
                assert(choice_views(permutations@) =~= lists.push(alternatives(model)));
                assert(all_alternatives(x).take(i + 1) =~= lists.push(alternatives(model)));
            }
            i += 1;
        }
        let mut groups: Vec<MatchSpecElement> = Vec::new();
        let start = MatchSpecElement::any();
        proof {
            assert(all_alternatives(x).take(i as int) =~= all_alternatives(x));
            assert(choice_views(permutations@).skip(0) =~= all_alternatives(x));
            assert(element_views(groups@) =~= empty());
        }
        if expand_into(&permutations, 0, &start, &mut groups) {
            Self::full()
        } else {
            MatchSpecConstraints { groups }
        }
    }

    /// The constraint that matches exactly the packages that both `self`
    /// and `other` match.
    pub fn intersection(&self, other: &Self) -> (result: Self)
        ensures
            result.wf(),
            result@ == intersection_of(self@, other@),
            forall|v: Pos, b: Pos| #[trigger]
                dnf_covers(result@, v, b) == (dnf_covers(self@, v, b) && dnf_covers(other@, v, b)),
            forall|version: Seq<int>, build_number: Seq<int>| #[trigger]
                dnf_holds(result@, version, build_number) == (dnf_holds(self@, version, build_number)
                    && dnf_holds(other@, version, build_number)),
    {
        let ghost x = self@;
        let ghost y = other@;
        proof {
            use_type_invariant(self);
            use_type_invariant(other);
            lemma_intersection(x, y);
            lemma_pairs(x, y);
        }
        let mut groups: Vec<MatchSpecElement> = Vec::new();
        let ghost mut items: Seq<ElementView> = Seq::empty();
        proof {
            assert(element_views(groups@) =~= empty());
            assert(x.take(0) =~= Seq::<ElementView>::empty());
        }
        let mut i: usize = 0;
        while i < self.groups.len()
            invariant
                i <= self.groups.len(),
                x == self@,
                y == other@,
                items == pairs(x.take(i as int), y),
                element_views(groups@) == gather(empty(), items),
                !items.contains(ElementView::any()),
            decreases self.groups.len() - i,
        {
            let ghost done = items;
            let ghost this_row = row(x[i as int], y);
            proof {
                assert(this_row.take(0) =~= Seq::<ElementView>::empty());
                assert(done + this_row.take(0) =~= done);
            }
            let mut j: usize = 0;
            while j < other.groups.len()
                invariant
                    i < self.groups.len(),
                    j <= other.groups.len(),
                    x == self@,
                    y == other@,
                    this_row == row(x[i as int], y),
                    items == done + this_row.take(j as int),
                    element_views(groups@) == gather(empty(), items),
                    !items.contains(ElementView::any()),
                decreases other.groups.len() - j,
            {
                let group = self.groups[i].intersection(&other.groups[j]);
                proof {
                    assert(x[i as int] == self.groups@[i as int]@);
                    assert(y[j as int] == other.groups@[j as int]@);
                    assert(group@ == x[i as int].meet(y[j as int]));
                }
                if group.is_any() {
                    proof {
                        use_type_invariant(self);
                        use_type_invariant(other);
                        lemma_intersection(x, y);
                        lemma_pairs(x, y);
                        assert(crate::dnf_model::is_meet_of(ElementView::any(), x, y));
                        assert(pairs(x, y).contains(ElementView::any()));
                    }
                    return Self::full();
                }
                proof {
                    lemma_gather(empty(), items);
                    lemma_contains_push(items, group@);
                    assert(items.push(group@).drop_last() =~= items);
                    assert(this_row.take(j + 1) =~= this_row.take(j as int).push(group@));
                    assert(done + this_row.take(j + 1) =~= items.push(group@));
                    items = items.push(group@);
                }
                if !group.is_none() {
                    insert_group(&mut groups, group);
                }
                j += 1;
            }
            proof {
                assert(this_row.take(j as int) =~= this_row);
                assert(x.take(i + 1).drop_last() =~= x.take(i as int));
                assert(x.take(i + 1).last() == x[i as int]);
            }
            i += 1;
        }
        proof {
            assert(x.take(i as int) =~= x);
        }
        MatchSpecConstraints { groups }
    }

    /// The constraint that matches the packages that `self` or `other`
    /// matches: the complement of the intersection of the complements.
    pub fn union(&self, other: &Self) -> (result: Self)
        ensures
            result.wf(),
            result@ == union_of(self@, other@),
            forall|v: Pos, b: Pos| #[trigger]
                dnf_covers(result@, v, b) == (dnf_covers(self@, v, b) || dnf_covers(other@, v, b)),
            forall|version: Seq<int>, build_number: Seq<int>| #[trigger]
                dnf_holds(result@, version, build_number) == (dnf_holds(self@, version, build_number)
                    || dnf_holds(other@, version, build_number)),
    {
        proof {
            use_type_invariant(self);
            use_type_invariant(other);
            lemma_union(self@, other@);
        }
        self.complement().intersection(&other.complement()).complement()
    }

    /// Whether the package matches one of the groups.
    pub fn contains(&self, record: &PackageRecord) -> (held: bool)
        ensures
            held == dnf_holds(self@, record.version.key(), record.build_number.key()),
    {
        let ghost version = record.version.key();
        let ghost build_number = record.build_number.key();
        let mut i: usize = 0;
        while i < self.groups.len()
            invariant
                i <= self.groups.len(),
                version == record.version.key(),
                build_number == record.build_number.key(),
                forall|k: int| 0 <= k < i ==> !(#[trigger] self@[k]).holds(version, build_number),
            decreases self.groups.len() - i,
        {
            if self.groups[i].contains(record) {
                assert(self@[i as int].holds(version, build_number));
                return true;
            }
            i += 1;
        }
        false
    }

    /// The constraint in a form for people to read: `nothing`, or the
    /// groups with ` | ` between them.
    pub fn to_display_text(&self) -> (text: String)
        ensures
            text@ == dnf_text(self@),
    {
        let mut text = String::new();
        if self.groups.len() == 0 {
            text.append("nothing");
            assert(text@ =~= dnf_text(self@));
            return text;
        }
        let mut i: usize = 0;
        proof {
            assert(self@.take(0) =~= Seq::<ElementView>::empty());
        }
        while i < self.groups.len()
            invariant
                i <= self.groups.len(),
                text@ == groups_text(self@.take(i as int)),
            decreases self.groups.len() - i,
        {
            if i > 0 {
                text.append(" | ");
            }
            self.groups[i].write_to(&mut text);
            proof {
                let now = self@.take(i + 1);
                assert(now.drop_last() =~= self@.take(i as int));
                assert(now.last() == self.groups@[i as int]@);
                assert(text@ =~= groups_text(now));
            }
            i += 1;
        }
        assert(self@.take(i as int) =~= self@);
        text
    }

    /// Whether two constraints have the same groups.
    pub fn equals(&self, other: &Self) -> (same: bool)
        ensures
            same == (self@ == other@),
    {
        if self.groups.len() != other.groups.len() {
            assert(self@.len() != other@.len());
            return false;
        }
        let mut i: usize = 0;
        while i < self.groups.len()
            invariant
                i <= self.groups.len(),
                self.groups.len() == other.groups.len(),
                forall|k: int| 0 <= k < i ==> self@[k] == other@[k],
            decreases self.groups.len() - i,
        {
            if !self.groups[i].equals(&other.groups[i]) {
                assert(self@[i as int] != other@[i as int]);
                return false;
            }
            i += 1;
        }
        assert(self@ =~= other@);
        true
    }

    /// A second copy of the constraint.
    pub fn duplicate(&self) -> (copy: Self)
        ensures
            copy@ == self@,
    {
        let mut groups: Vec<MatchSpecElement> = Vec::new();
        let mut i: usize = 0;
        while i < self.groups.len()
            invariant
                i <= self.groups.len(),
                element_views(groups@) == self@.take(i as int),
            decreases self.groups.len() - i,
        {
            let group = self.groups[i].duplicate();
            let ghost before = element_views(groups@);
            groups.push(group);
            i += 1;
            assert(element_views(groups@) =~= before.push(group@));
            assert(self@.take(i as int) =~= before.push(group@));
        }
        proof {
            use_type_invariant(self);
            assert(self@.take(i as int) =~= self@);
        }
        MatchSpecConstraints { groups }
    }
}

impl PartialEq for MatchSpecConstraints {
    fn eq(&self, other: &Self) -> (same: bool) {
        self.equals(other)
    }
}

impl PartialEqSpecImpl for MatchSpecConstraints {
    open spec fn obeys_eq_spec() -> bool {
        true
    }

    open spec fn eq_spec(&self, other: &Self) -> bool {
        self@ == other@
    }
}

impl Eq for MatchSpecConstraints {

}

impl Clone for MatchSpecConstraints {
    fn clone(&self) -> (copy: Self)
        ensures
            copy@ == self@,
    {
        self.duplicate()
    }
}

impl From<MatchSpecElement> for MatchSpecConstraints {
    /// The constraint made of one group; see
    /// [`MatchSpecConstraints::from_element`].
    fn from(element: MatchSpecElement) -> (result: Self)
        ensures
            result.wf(),
            result@ == normalize(seq![element@]),
            forall|v: Pos, b: Pos| #[trigger] dnf_covers(result@, v, b) == element@.covers(v, b),
    {
        Self::from_element(element)
    }
}

impl FromSpecImpl<MatchSpecElement> for MatchSpecConstraints {
    open spec fn obeys_from_spec() -> bool {
        false
    }

    open spec fn from_spec(element: MatchSpecElement) -> Self {
        arbitrary()
    }
}

impl From<MatchSpec> for MatchSpecConstraints {
    /// The constraint of a requirement; see
    /// [`MatchSpecConstraints::from_match_spec`].
    fn from(spec: MatchSpec) -> (result: Self)
        ensures
            result.wf(),
            result@ == normalize(
                seq![
                    ElementView::of(
                        match spec.version {
                            Some(range) => range@,
                            None => RangeView::any(),
                        },
                        match spec.build_number {
                            Some(number) => RangeView::equal(number.key()),
                            None => RangeView::any(),
                        },
                    ),
                ],
            ),
            spec.version is None && spec.build_number is None ==> result@ == full(),
            forall|version: Seq<int>, build_number: Seq<int>| #[trigger]
                dnf_holds(result@, version, build_number) <==> (match spec.version {
                    Some(range) => range@.contains_key(version),
                    None => true,
                }) && (match spec.build_number {
                    Some(number) => build_number == number.key(),
                    None => true,
                }),
    {
        Self::from_match_spec(spec)
    }
}

impl FromSpecImpl<MatchSpec> for MatchSpecConstraints {
    open spec fn obeys_from_spec() -> bool {
        false
    }

    open spec fn from_spec(spec: MatchSpec) -> Self {
        arbitrary()
    }
}

} // verus!
