//! Three-way comparison, lexicographic order on sequences, and the trait of
//! the scalars that ranges are made of.
use crate::text::{key_text, write_decimal};
use vstd::prelude::*;
use vstd::relations::{irreflexive, strict_total_ordering};

verus! {

/// The outcome of comparing two values.
#[derive(Clone, Copy, Debug, PartialEq, Eq, Structural)]
pub enum Sign {
    Less,
    Equal,
    Greater,
}

/// Lexicographic order on sequences: the first place where two sequences
/// differ decides, and a proper prefix is below what it is a prefix of.
pub open spec fn lex_lt<A>(lt: spec_fn(A, A) -> bool, a: Seq<A>, b: Seq<A>) -> bool
    decreases a.len(),
{
    if b.len() == 0 {
        false
    } else if a.len() == 0 {
        true
    } else if lt(a[0], b[0]) {
        true
    } else if lt(b[0], a[0]) {
        false
    } else {
        lex_lt(lt, a.drop_first(), b.drop_first())
    }
}

pub proof fn lemma_lex_irreflexive<A>(lt: spec_fn(A, A) -> bool, a: Seq<A>)
    requires
        irreflexive(lt),
    ensures
        !lex_lt(lt, a, a),
    decreases a.len(),
{
    if a.len() > 0 {
        assert(!lt(a[0], a[0]));
        lemma_lex_irreflexive(lt, a.drop_first());
    }
}

pub proof fn lemma_lex_transitive<A>(lt: spec_fn(A, A) -> bool, a: Seq<A>, b: Seq<A>, c: Seq<A>)
    requires
        strict_total_ordering(lt),
        lex_lt(lt, a, b),
        lex_lt(lt, b, c),
    ensures
        lex_lt(lt, a, c),
    decreases a.len(),
{
    if a.len() > 0 {
        let (x, y, z) = (a[0], b[0], c[0]);
        assert(!lt(x, x) && !lt(y, y) && !lt(z, z));
        if lt(x, y) && lt(y, z) {
            assert(lt(x, z));
        } else if lt(x, y) {
            assert(!lt(z, y));
            assert(y == z);
        } else if lt(y, z) {
            assert(!lt(y, x));
            assert(x == y);
        } else {
            assert(!lt(y, x) && !lt(z, y));
            assert(x == y && y == z);
            lemma_lex_transitive(lt, a.drop_first(), b.drop_first(), c.drop_first());
        }
    }
}

pub proof fn lemma_lex_connected<A>(lt: spec_fn(A, A) -> bool, a: Seq<A>, b: Seq<A>)
    requires
        strict_total_ordering(lt),
    ensures
        a == b || lex_lt(lt, a, b) || lex_lt(lt, b, a),
    decreases a.len(),
{
    if a.len() == 0 || b.len() == 0 {
        assert(a.len() == 0 && b.len() == 0 ==> a =~= b);
    } else if !lt(a[0], b[0]) && !lt(b[0], a[0]) {
        assert(a[0] == b[0]);
        lemma_lex_connected(lt, a.drop_first(), b.drop_first());
        if a.drop_first() == b.drop_first() {
            assert(a =~= seq![a[0]] + a.drop_first());
            assert(b =~= seq![b[0]] + b.drop_first());
        }
    }
}

/// Two sequences that agree at place `i` compare from `i` on as they do from
/// `i + 1` on.
pub proof fn lemma_lex_skip<A>(lt: spec_fn(A, A) -> bool, a: Seq<A>, b: Seq<A>, i: int)
    requires
        irreflexive(lt),
        0 <= i < a.len(),
        i < b.len(),
        a[i] == b[i],
    ensures
        lex_lt(lt, a.skip(i), b.skip(i)) == lex_lt(lt, a.skip(i + 1), b.skip(i + 1)),
{
    assert(a.skip(i).drop_first() =~= a.skip(i + 1));
    assert(b.skip(i).drop_first() =~= b.skip(i + 1));
    assert(!lt(a[i], a[i]));
}

/// The order of the integers, as a relation.
pub open spec fn int_lt() -> spec_fn(int, int) -> bool {
    |x: int, y: int| x < y
}

pub proof fn lemma_int_lt_strict_total()
    ensures
        strict_total_ordering(int_lt()),
{
}

/// The order of keys: sequences of integers, compared lexicographically.
pub open spec fn key_lt(a: Seq<int>, b: Seq<int>) -> bool {
    lex_lt(int_lt(), a, b)
}

/// How the key `a` stands to the key `b`.
pub open spec fn key_sign(a: Seq<int>, b: Seq<int>) -> Sign {
    if key_lt(a, b) {
        Sign::Less
    } else if key_lt(b, a) {
        Sign::Greater
    } else {
        Sign::Equal
    }
}

/// Keys are strictly and totally ordered.
pub proof fn lemma_key_order(a: Seq<int>, b: Seq<int>, c: Seq<int>)
    ensures
        !key_lt(a, a),
        key_lt(a, b) && key_lt(b, c) ==> key_lt(a, c),
        key_lt(a, b) ==> !key_lt(b, a),
        a == b || key_lt(a, b) || key_lt(b, a),
        key_sign(a, b) == Sign::Equal <==> a == b,
{
    lemma_int_lt_strict_total();
    lemma_lex_irreflexive(int_lt(), a);
    lemma_lex_irreflexive(int_lt(), b);
    lemma_lex_connected(int_lt(), a, b);
    if key_lt(a, b) && key_lt(b, c) {
        lemma_lex_transitive(int_lt(), a, b, c);
    }
    if key_lt(a, b) && key_lt(b, a) {
        lemma_lex_transitive(int_lt(), a, b, a);
    }
}

/// A value of a totally ordered domain that ranges can be made of.
///
/// Every scalar has a key, and scalars are ordered as their keys are. Two
/// scalars with the same key are the same point of the domain.
pub trait Scalar: Sized {
    /// The place of the value in the order.
    spec fn key(&self) -> Seq<int>;

    /// Compares two scalars by their keys.
    fn compare(&self, other: &Self) -> (sign: Sign)
        ensures
            sign == key_sign(self.key(), other.key()),
    ;

    /// A second copy of the scalar.
    fn duplicate(&self) -> (copy: Self)
        ensures
            copy.key() == self.key(),
    ;

    /// Appends the scalar as text.
    fn write_to(&self, out: &mut String)
        ensures
            final(out)@ == old(out)@ + key_text(self.key()),
    ;
}

impl Scalar for usize {
    open spec fn key(&self) -> Seq<int> {
        seq![*self as int]
    }

    fn compare(&self, other: &Self) -> (sign: Sign) {
        proof {
            reveal_with_fuel(lex_lt, 2);
        }
        if *self < *other {
            Sign::Less
        } else if *self > *other {
            Sign::Greater
        } else {
            Sign::Equal
        }
    }

    fn duplicate(&self) -> (copy: Self) {
        *self
    }

    fn write_to(&self, out: &mut String) {
        write_decimal(*self as u64, out);
    }
}

} // verus!
