//! The short lists in which the alternatives of one group are kept.
//!
//! Taking a group away leaves at most two alternatives, so they are kept in
//! a `SmallVec` with room for two, which never touches the heap. Verus does
//! not see inside a `SmallVec`: the vector is held in a struct that Verus
//! takes as opaque, what it holds is given a name, and the few operations
//! that the library uses are stated over that name. These statements are
//! taken from the source of `smallvec` and are not proved.
use crate::element::MatchSpecElement;
use crate::element_model::ElementView;
use smallvec::SmallVec;
use vstd::prelude::*;

verus! {

/// A list of at most two alternatives, held in a `SmallVec`.
#[verifier::external_body]
pub struct Choices {
    list: SmallVec<[MatchSpecElement; 2]>,
}

/// The groups that a list of alternatives holds, first pushed first.
pub uninterp spec fn held(choices: Choices) -> Seq<ElementView>;

/// `SmallVec::new`: the new list holds nothing.
#[verifier::external_body]
pub(crate) fn new_choices() -> (choices: Choices)
    ensures
        held(choices) == Seq::<ElementView>::empty(),
{
    Choices { list: SmallVec::new() }
}

/// `SmallVec::push`: the group is appended behind those that the list
/// holds. A list of fewer than two groups has room for one more without
/// growing, so the call cannot fail.
#[verifier::external_body]
pub(crate) fn push_choice(choices: &mut Choices, element: MatchSpecElement)
    requires
        held(*old(choices)).len() < 2,
    ensures
        held(*final(choices)) == held(*old(choices)).push(element@),
{
    choices.list.push(element)
}

/// `SmallVec::len`: the number of groups that the list holds.
#[verifier::external_body]
pub(crate) fn count_choices(choices: &Choices) -> (count: usize)
    ensures
        count == held(*choices).len(),
{
    choices.list.len()
}

/// Indexing a `SmallVec`: the group at place `index`, which must be below
/// the number of groups held.
#[verifier::external_body]
pub(crate) fn choice_at(choices: &Choices, index: usize) -> (element: &MatchSpecElement)
    requires
        index < held(*choices).len(),
    ensures
        element@ == held(*choices)[index as int],
{
    &choices.list[index]
}

} // verus!
