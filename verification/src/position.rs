//! The places at which a range of scalars can begin or end.
//!
//! Lay the scalars out on a line. Every scalar `v` gives two places: the one
//! just before `v` and the one just after it. A range is cut at such places,
//! so that a bound may take `v` in or leave it out. One more place lies
//! below all the others.
use crate::order::{key_lt, lemma_key_order, Sign};
use vstd::prelude::*;
use vstd::relations::strict_total_ordering;

verus! {

/// A place where a range changes between holding and not holding: just
/// before the scalar with the given key, or just after it.
#[verifier::ext_equal]
pub struct CutView {
    pub key: Seq<int>,
    pub after: bool,
}

/// A place of the line: the lowest one, or the place of a cut.
#[verifier::ext_equal]
pub enum Pos {
    Lowest,
    At(CutView),
}

/// The place just before the scalar with the key `key`.
pub open spec fn before(key: Seq<int>) -> CutView {
    CutView { key, after: false }
}

/// The place just after the scalar with the key `key`.
pub open spec fn after(key: Seq<int>) -> CutView {
    CutView { key, after: true }
}

/// The place where the scalar with the key `key` itself lies.
pub open spec fn value_pos(key: Seq<int>) -> Pos {
    Pos::At(before(key))
}

/// The order of cuts: by key, and at one key the place before it is below
/// the place after it.
pub open spec fn cut_lt(c: CutView, d: CutView) -> bool {
    key_lt(c.key, d.key) || (c.key == d.key && !c.after && d.after)
}

/// `c` is `d` or below it.
pub open spec fn cut_le(c: CutView, d: CutView) -> bool {
    !cut_lt(d, c)
}

/// How the cut `c` stands to the cut `d`.
pub open spec fn cut_sign(c: CutView, d: CutView) -> Sign {
    if cut_lt(c, d) {
        Sign::Less
    } else if cut_lt(d, c) {
        Sign::Greater
    } else {
        Sign::Equal
    }
}

/// The order of cuts as a relation.
pub open spec fn cut_order() -> spec_fn(CutView, CutView) -> bool {
    |c: CutView, d: CutView| cut_lt(c, d)
}

/// The cut `c` lies at the place `p` or below it.
pub open spec fn at_or_below(c: CutView, p: Pos) -> bool {
    match p {
        Pos::Lowest => false,
        Pos::At(q) => cut_le(c, q),
    }
}

/// Cuts are strictly and totally ordered.
pub proof fn lemma_cut_order(c: CutView, d: CutView, e: CutView)
    ensures
        !cut_lt(c, c),
        cut_lt(c, d) && cut_lt(d, e) ==> cut_lt(c, e),
        cut_lt(c, d) ==> !cut_lt(d, c),
        c == d || cut_lt(c, d) || cut_lt(d, c),
{
    lemma_key_order(c.key, d.key, e.key);
    lemma_key_order(d.key, c.key, e.key);
    lemma_key_order(c.key, c.key, d.key);
    lemma_key_order(d.key, e.key, c.key);
    lemma_key_order(c.key, e.key, d.key);
}

/// The same, for all cuts at once.
pub proof fn lemma_cut_total_order()
    ensures
        forall|c: CutView| !#[trigger] cut_lt(c, c),
        forall|c: CutView, d: CutView, e: CutView|
            #[trigger] cut_lt(c, d) && #[trigger] cut_lt(d, e) ==> cut_lt(c, e),
        forall|c: CutView, d: CutView| #[trigger] cut_lt(c, d) ==> !cut_lt(d, c),
        forall|c: CutView, d: CutView| c == d || #[trigger] cut_lt(c, d) || cut_lt(d, c),
        strict_total_ordering(cut_order()),
{
    assert forall|c: CutView, d: CutView, e: CutView|
        {
            &&& !cut_lt(c, c)
            &&& (#[trigger] cut_lt(c, d) && #[trigger] cut_lt(d, e) ==> cut_lt(c, e))
            &&& (cut_lt(c, d) ==> !cut_lt(d, c))
            &&& (c == d || cut_lt(c, d) || cut_lt(d, c))
        } by {
        lemma_cut_order(c, d, e);
    }
    assert forall|c: CutView| !#[trigger] cut_lt(c, c) by {
        lemma_cut_order(c, c, c);
    }
    assert forall|c: CutView, d: CutView| #[trigger] cut_lt(c, d) implies !cut_lt(d, c) by {
        lemma_cut_order(c, d, c);
    }
    assert forall|c: CutView, d: CutView| c == d || #[trigger] cut_lt(c, d) || cut_lt(d, c) by {
        lemma_cut_order(c, d, c);
    }
    let r = cut_order();
    assert forall|c: CutView, d: CutView| c != d implies #[trigger] r(c, d) || #[trigger] r(d, c) by {
        lemma_cut_order(c, d, c);
    }
}

/// A scalar's place is at or above the place before a key exactly when the
/// key is the scalar's or below it, and at or above the place after a key
/// exactly when the key is below the scalar's.
pub proof fn lemma_value_pos(cut: CutView, key: Seq<int>)
    ensures
        at_or_below(cut, value_pos(key)) == (if cut.after {
            key_lt(cut.key, key)
        } else {
            !key_lt(key, cut.key)
        }),
{
    lemma_key_order(cut.key, key, key);
    lemma_key_order(key, cut.key, key);
}

} // verus!
