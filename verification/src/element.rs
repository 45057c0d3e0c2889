//! One conjunctive group of a constraint.
use crate::element_model::{
    element_sign, lemma_element_meet, lemma_element_none_any, lemma_element_of,
    lemma_element_order, ElementView,
};
use crate::order::{Scalar, Sign};
use crate::position::Pos;
use crate::range::Range;
use crate::range_model::lemma_range_order;
use crate::version::{PackageRecord, Version};
use crate::text::element_text;
use vstd::prelude::*;
use vstd::string::StringExecFns;
use vstd::std_specs::cmp::PartialEqSpecImpl;

verus! {

/// A single AND group of a [`crate::constraints::MatchSpecConstraints`]: it
/// holds the packages whose version lies in one range and whose build
/// number lies in another.
#[derive(Debug, Hash)]
pub struct MatchSpecElement {
    version: Range<Version>,
    build_number: Range<usize>,
}

impl View for MatchSpecElement {
    type V = ElementView;

    closed spec fn view(&self) -> ElementView {
        ElementView { version: self.version@, build_number: self.build_number@ }
    }
}

impl MatchSpecElement {
    /// Both ranges are well formed, and if the group holds nothing then
    /// both are empty. This holds of every group.
    #[verifier::type_invariant]
    pub open spec fn wf(&self) -> bool {
        self@.wf()
    }

    /// The group that matches nothing.
    pub fn none() -> (element: Self)
        ensures
            element.wf(),
            element@ == ElementView::none(),
    {
        proof {
            lemma_element_none_any();
        }
        MatchSpecElement { version: Range::none(), build_number: Range::none() }
    }

    /// The group that matches anything.
    pub fn any() -> (element: Self)
        ensures
            element.wf(),
            element@ == ElementView::any(),
    {
        proof {
            lemma_element_none_any();
        }
        MatchSpecElement { version: Range::any(), build_number: Range::any() }
    }

    /// The group of the packages whose version lies in `version` and whose
    /// build number lies in `build_number`. Where one of the two ranges is
    /// empty the group is `none`.
    pub fn new(version: Range<Version>, build_number: Range<usize>) -> (element: Self)
        ensures
            element.wf(),
            element@ == ElementView::of(version@, build_number@),
            forall|v: Pos, b: Pos| #[trigger]
                element@.covers(v, b) == (version@.covers(v) && build_number@.covers(b)),
    {
        proof {
            use_type_invariant(&version);
            use_type_invariant(&build_number);
            lemma_element_of(version@, build_number@);
        }
        if version.is_none() || build_number.is_none() {
            Self::none()
        } else {
            MatchSpecElement { version, build_number }
        }
    }

    /// The group that matches what both `self` and `other` match.
    pub fn intersection(&self, other: &Self) -> (element: Self)
        ensures
            element.wf(),
            element@ == self@.meet(other@),
            forall|v: Pos, b: Pos| #[trigger]
                element@.covers(v, b) == (self@.covers(v, b) && other@.covers(v, b)),
    {
        proof {
            use_type_invariant(self);
            use_type_invariant(other);
            lemma_element_meet(self@, other@);
        }
        let version = self.version.intersection(&other.version);
        let build_number = self.build_number.intersection(&other.build_number);
        Self::new(version, build_number)
    }

    /// The range of versions of the group.
    pub fn version(&self) -> (range: &Range<Version>)
        ensures
            range@ == self@.version,
    {
        &self.version
    }

    /// The range of build numbers of the group.
    pub fn build_number(&self) -> (range: &Range<usize>)
        ensures
            range@ == self@.build_number,
    {
        &self.build_number
    }

    /// Whether the package matches this group.
    pub fn contains(&self, package: &PackageRecord) -> (held: bool)
        ensures
            held == self@.holds(package.version.key(), package.build_number.key()),
    {
        self.version.contains(&package.version) && self.build_number.contains(
            &package.build_number,
        )
    }

    /// Whether the group is `none`.
    pub fn is_none(&self) -> (empty: bool)
        ensures
            empty == (self@ == ElementView::none()),
    {
        self.version.is_none() && self.build_number.is_none()
    }

    /// Whether the group is `any`.
    pub fn is_any(&self) -> (full: bool)
        ensures
            full == (self@ == ElementView::any()),
    {
        self.version.is_any() && self.build_number.is_any()
    }

    /// Appends the group as text.
    pub fn write_to(&self, out: &mut String)
        ensures
            final(out)@ == old(out)@ + element_text(self@),
    {
        let ghost start = out@;
        out.append("version ");
        self.version.write_to(out);
        out.append(" & build ");
        self.build_number.write_to(out);
        assert(out@ =~= start + element_text(self@));
    }

    /// Where the group stands in the order of groups.
    pub fn compare(&self, other: &Self) -> (sign: Sign)
        ensures
            sign == element_sign(self@, other@),
            sign == Sign::Equal <==> self@ == other@,
    {
        proof {
            lemma_element_order(self@, other@, self@);
            lemma_range_order(self@.version, other@.version, self@.version);
            lemma_range_order(self@.build_number, other@.build_number, self@.build_number);
        }
        match self.version.compare(&other.version) {
            Sign::Less => Sign::Less,
            Sign::Greater => Sign::Greater,
            Sign::Equal => self.build_number.compare(&other.build_number),
        }
    }

    /// Whether two groups match the same packages.
    pub fn equals(&self, other: &Self) -> (same: bool)
        ensures
            same == (self@ == other@),
    {
        matches!(self.compare(other), Sign::Equal)
    }

    /// A second copy of the group.
    pub fn duplicate(&self) -> (copy: Self)
        ensures
            copy@ == self@,
    {
        proof {
            use_type_invariant(self);
        }
        MatchSpecElement {
            version: self.version.duplicate(),
            build_number: self.build_number.duplicate(),
        }
    }
}

impl PartialEq for MatchSpecElement {
    fn eq(&self, other: &Self) -> (same: bool) {
        self.equals(other)
    }
}

impl PartialEqSpecImpl for MatchSpecElement {
    open spec fn obeys_eq_spec() -> bool {
        true
    }

    open spec fn eq_spec(&self, other: &Self) -> bool {
        self@ == other@
    }
}

impl Eq for MatchSpecElement {

}

impl Clone for MatchSpecElement {
    fn clone(&self) -> (copy: Self)
        ensures
            copy@ == self@,
    {
        self.duplicate()
    }
}

} // verus!
