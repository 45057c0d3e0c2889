//! Ranges of scalars.
use crate::order::{lemma_key_order, lemma_lex_skip, lex_lt, Scalar, Sign};
use crate::position::{
    at_or_below, cut_lt, cut_order, cut_sign, lemma_cut_order, lemma_cut_total_order,
    lemma_value_pos, value_pos, CutView, Pos,
};
use crate::range_model::{
    inside, lemma_between, lemma_equal, lemma_meet, lemma_negation,
    lemma_meet_step, lemma_range_order, meet_cuts, range_sign, top, RangeView,
};
use crate::text::{cuts_text, key_text, range_text};
use vstd::prelude::*;
use vstd::string::StringExecFns;
use vstd::std_specs::cmp::PartialEqSpecImpl;

verus! {

/// A place at which a range changes: just before or just after a scalar.
#[derive(Debug, Hash)]
struct Cut<T: Scalar> {
    at: T,
    after: bool,
}

impl<T: Scalar> View for Cut<T> {
    type V = CutView;

    closed spec fn view(&self) -> CutView {
        CutView { key: self.at.key(), after: self.after }
    }
}

impl<T: Scalar> Cut<T> {
    fn compare(&self, other: &Self) -> (sign: Sign)
        ensures
            sign == cut_sign(self@, other@),
    {
        proof {
            lemma_key_order(self.at.key(), other.at.key(), self.at.key());
        }
        match self.at.compare(&other.at) {
            Sign::Less => Sign::Less,
            Sign::Greater => Sign::Greater,
            Sign::Equal => {
                if self.after == other.after {
                    Sign::Equal
                } else if other.after {
                    Sign::Less
                } else {
                    Sign::Greater
                }
            },
        }
    }

    fn duplicate(&self) -> (copy: Self)
        ensures
            copy@ == self@,
    {
        Cut { at: self.at.duplicate(), after: self.after }
    }
}

/// The models of a list of cuts.
spec fn cut_views<T: Scalar>(cuts: Seq<Cut<T>>) -> Seq<CutView> {
    Seq::new(cuts.len(), |i: int| cuts[i]@)
}

/// A set of scalars of one domain, made of intervals.
///
/// The range is kept as the list of places, in rising order, at which it
/// changes between holding and not holding, together with what it does
/// below the first of them. Two ranges that hold the same places are equal.
#[derive(Debug, Hash)]
pub struct Range<T: Scalar> {
    inverted: bool,
    cuts: Vec<Cut<T>>,
}

impl<T: Scalar> View for Range<T> {
    type V = RangeView;

    closed spec fn view(&self) -> RangeView {
        RangeView { inverted: self.inverted, cuts: cut_views(self.cuts@) }
    }
}

impl<T: Scalar> Range<T> {
    /// The cuts of the range rise strictly. This holds of every range.
    #[verifier::type_invariant]
    pub open spec fn wf(&self) -> bool {
        self@.wf()
    }

    /// The range that holds nothing.
    pub fn none() -> (range: Self)
        ensures
            range.wf(),
            range@ == RangeView::none(),
    {
        let cuts: Vec<Cut<T>> = Vec::new();
        assert(cut_views(cuts@) =~= RangeView::none().cuts);
        Range { inverted: false, cuts }
    }

    /// The range that holds everything.
    pub fn any() -> (range: Self)
        ensures
            range.wf(),
            range@ == RangeView::any(),
    {
        let cuts: Vec<Cut<T>> = Vec::new();
        assert(cut_views(cuts@) =~= RangeView::any().cuts);
        Range { inverted: true, cuts }
    }

    /// The range that holds `value` and nothing else.
    pub fn equal(value: T) -> (range: Self)
        ensures
            range.wf(),
            range@ == RangeView::equal(value.key()),
            forall|key: Seq<int>| #[trigger] range@.contains_key(key) <==> key == value.key(),
    {
        let ghost key = value.key();
        let mut cuts: Vec<Cut<T>> = Vec::new();
        cuts.push(Cut { at: value.duplicate(), after: false });
        cuts.push(Cut { at: value, after: true });
        proof {
            lemma_equal(key);
            assert(cut_views(cuts@) =~= RangeView::equal(key).cuts);
        }
        Range { inverted: false, cuts }
    }

    /// The range from `low`, taken in, up to `high`, left out. It holds
    /// nothing unless `low` is below `high`.
    pub fn between(low: T, high: T) -> (range: Self)
        ensures
            range.wf(),
            range@ == RangeView::between(low.key(), high.key()),
            forall|key: Seq<int>| #[trigger]
                range@.contains_key(key) <==> !crate::order::key_lt(key, low.key())
                    && crate::order::key_lt(key, high.key()),
    {
        proof {
            lemma_between(low.key(), high.key());
        }
        match low.compare(&high) {
            Sign::Less => {
                let ghost model = RangeView::between(low.key(), high.key());
                let mut cuts: Vec<Cut<T>> = Vec::new();
                cuts.push(Cut { at: low, after: false });
                cuts.push(Cut { at: high, after: false });
                assert(cut_views(cuts@) =~= model.cuts);
                Range { inverted: false, cuts }
            },
            _ => Self::none(),
        }
    }

    /// Whether the range holds nothing.
    pub fn is_none(&self) -> (empty: bool)
        ensures
            empty == (self@ == RangeView::none()),
    {
        let empty = !self.inverted && self.cuts.len() == 0;
        proof {
            if empty {
                assert(self@ =~= RangeView::none());
            } else {
                assert(self@.inverted || self@.cuts.len() > 0);
            }
        }
        empty
    }

    /// Whether the range holds everything.
    pub fn is_any(&self) -> (full: bool)
        ensures
            full == (self@ == RangeView::any()),
    {
        let full = self.inverted && self.cuts.len() == 0;
        proof {
            if full {
                assert(self@ =~= RangeView::any());
            } else {
                assert(!self@.inverted || self@.cuts.len() > 0);
            }
        }
        full
    }

    /// A second copy of the range.
    pub fn duplicate(&self) -> (copy: Self)
        ensures
            copy@ == self@,
    {
        let mut cuts: Vec<Cut<T>> = Vec::new();
        let mut i: usize = 0;
        while i < self.cuts.len()
            invariant
                i <= self.cuts.len(),
                cut_views(cuts@) == cut_views(self.cuts@).take(i as int),
            decreases self.cuts.len() - i,
        {
            let cut = self.cuts[i].duplicate();
            let ghost before = cut_views(cuts@);
            cuts.push(cut);
            i += 1;
            assert(cut_views(cuts@) =~= before.push(cut@));
            assert(cut_views(self.cuts@).take(i as int) =~= before.push(cut@));
        }
        proof {
            use_type_invariant(self);
            assert(cut_views(cuts@) =~= cut_views(self.cuts@));
        }
        Range { inverted: self.inverted, cuts }
    }

    /// The range that holds exactly what `self` does not.
    pub fn negate(&self) -> (range: Self)
        ensures
            range.wf(),
            range@ == self@.negation(),
            forall|p: Pos| #[trigger] range@.covers(p) == !self@.covers(p),
            forall|key: Seq<int>| #[trigger] range@.contains_key(key) == !self@.contains_key(key),
    {
        let copy = self.duplicate();
        proof {
            use_type_invariant(self);
            lemma_negation(self@);
        }
        Range { inverted: !copy.inverted, cuts: copy.cuts }
    }

    /// The range that holds exactly what both `self` and `other` hold.
    pub fn intersection(&self, other: &Self) -> (range: Self)
        ensures
            range.wf(),
            range@ == self@.meet(other@),
            forall|p: Pos| #[trigger] range@.covers(p) == (self@.covers(p) && other@.covers(p)),
            forall|key: Seq<int>| #[trigger]
                range@.contains_key(key) == (self@.contains_key(key) && other@.contains_key(key)),
    {
        let ghost ia = self.inverted;
        let ghost ib = other.inverted;
        let ghost a = cut_views(self.cuts@);
        let ghost b = cut_views(other.cuts@);
        let mut cuts: Vec<Cut<T>> = Vec::new();
        let mut in_a = self.inverted;
        let mut in_b = other.inverted;
        let mut i: usize = 0;
        let mut j: usize = 0;
        proof {
            use_type_invariant(self);
            use_type_invariant(other);
            assert(a.take(0) =~= Seq::<CutView>::empty());
            assert(b.take(0) =~= Seq::<CutView>::empty());
        }
        while i < self.cuts.len() || j < other.cuts.len()
            invariant
                a == cut_views(self.cuts@),
                b == cut_views(other.cuts@),
                ia == self.inverted,
                ib == other.inverted,
                self.wf(),
                other.wf(),
                i <= self.cuts.len(),
                j <= other.cuts.len(),
                in_a == top(ia, a.take(i as int)),
                in_b == top(ib, b.take(j as int)),
                cut_views(cuts@) == meet_cuts(ia, a.take(i as int), ib, b.take(j as int)),
                i > 0 && j < b.len() ==> cut_lt(a[i - 1], b[j as int]),
                j > 0 && i < a.len() ==> cut_lt(b[j - 1], a[i as int]),
            decreases (self.cuts.len() - i) + (other.cuts.len() - j),
        {
            let mut take_a = true;
            let mut take_b = true;
            if j >= other.cuts.len() {
                take_b = false;
            } else if i >= self.cuts.len() {
                take_a = false;
            } else {
                match self.cuts[i].compare(&other.cuts[j]) {
                    Sign::Less => {
                        take_b = false;
                    },
                    Sign::Greater => {
                        take_a = false;
                    },
                    Sign::Equal => {},
                }
            }
            let next_a = in_a != take_a;
            let next_b = in_b != take_b;
            proof {
                if i < a.len() {
                    assert(a[i as int] == self.cuts@[i as int]@);
                }
                if j < b.len() {
                    assert(b[j as int] == other.cuts@[j as int]@);
                }
                if take_a && take_b {
                    lemma_cut_order(a[i as int], b[j as int], a[i as int]);
                }
                lemma_meet_step(ia, a, ib, b, i as int, j as int, take_a, take_b);
            }
            if (next_a && next_b) != (in_a && in_b) {
                let cut = if take_a {
                    self.cuts[i].duplicate()
                } else {
                    other.cuts[j].duplicate()
                };
                let ghost before = cut_views(cuts@);
                cuts.push(cut);
                assert(cut_views(cuts@) =~= before.push(cut@));
            }
            if take_a {
                i += 1;
            }
            if take_b {
                j += 1;
            }
            in_a = next_a;
            in_b = next_b;
        }
        proof {
            assert(a.take(i as int) =~= a);
            assert(b.take(j as int) =~= b);
            lemma_meet(self@, other@);
        }
        Range { inverted: self.inverted && other.inverted, cuts }
    }

    /// Whether the range holds `value`.
    pub fn contains(&self, value: &T) -> (held: bool)
        ensures
            held == self@.contains_key(value.key()),
    {
        let ghost p = value_pos(value.key());
        let ghost a = cut_views(self.cuts@);
        let mut held = self.inverted;
        let mut i: usize = 0;
        while i < self.cuts.len()
            invariant
                i <= self.cuts.len(),
                a == cut_views(self.cuts@),
                p == value_pos(value.key()),
                held == inside(self.inverted, a.take(i as int), p),
            decreases self.cuts.len() - i,
        {
            let cut = &self.cuts[i];
            let sign = cut.at.compare(value);
            let below = if cut.after {
                matches!(sign, Sign::Less)
            } else {
                !matches!(sign, Sign::Greater)
            };
            proof {
                lemma_value_pos(cut@, value.key());
                lemma_key_order(cut.at.key(), value.key(), cut.at.key());
                assert(a[i as int] == cut@);
                assert(a.take(i + 1).drop_last() =~= a.take(i as int));
                assert(a.take(i + 1).last() == cut@);
                assert(below == at_or_below(cut@, p));
            }
            if below {
                held = !held;
            }
            i += 1;
        }
        assert(a.take(i as int) =~= a);
        held
    }

    /// Appends the range as text.
    pub fn write_to(&self, out: &mut String)
        ensures
            final(out)@ == old(out)@ + range_text(self@),
    {
        let ghost start = out@;
        let ghost a = cut_views(self.cuts@);
        if self.is_none() {
            out.append("none");
            return ;
        }
        if self.is_any() {
            out.append("any");
            return ;
        }
        let mut inside_now = self.inverted;
        if self.inverted {
            out.append("(..");
        }
        let mut i: usize = 0;
        proof {
            assert(a.take(0) =~= Seq::<CutView>::empty());
            assert(out@ =~= start + cuts_text(self.inverted, a.take(0)));
        }
        while i < self.cuts.len()
            invariant
                i <= self.cuts.len(),
                a == cut_views(self.cuts@),
                inside_now == top(self.inverted, a.take(i as int)),
                out@ == start + cuts_text(self.inverted, a.take(i as int)),
            decreases self.cuts.len() - i,
        {
            let cut = &self.cuts[i];
            proof {
                assert(a.take(i + 1).drop_last() =~= a.take(i as int));
                assert(a.take(i + 1).last() == cut@);
            }
            let ghost before = cuts_text(self.inverted, a.take(i as int));
            if inside_now {
                out.append(", ");
                cut.at.write_to(out);
                if cut.after {
                    out.append("]");
                } else {
                    out.append(")");
                }
                assert(out@ =~= start + (before + ", "@ + key_text(cut@.key) + (if cut.after {
                    "]"@
                } else {
                    ")"@
                })));
            } else {
                if i > 0 {
                    out.append(" or ");
                }
                if cut.after {
                    out.append("(");
                } else {
                    out.append("[");
                }
                cut.at.write_to(out);
                assert(out@ =~= start + (before + (if i == 0 {
                    Seq::<char>::empty()
                } else {
                    " or "@
                }) + (if cut.after {
                    "("@
                } else {
                    "["@
                }) + key_text(cut@.key)));
            }
            inside_now = !inside_now;
            i += 1;
        }
        proof {
            assert(a.take(i as int) =~= a);
        }
        if inside_now {
            out.append(", ..)");
        }
        assert(out@ =~= start + range_text(self@));
    }

    /// Where the range stands in the order of ranges.
    pub fn compare(&self, other: &Self) -> (sign: Sign)
        ensures
            sign == range_sign(self@, other@),
            sign == Sign::Equal <==> self@ == other@,
    {
        let ghost a = cut_views(self.cuts@);
        let ghost b = cut_views(other.cuts@);
        let ghost lt = cut_order();
        proof {
            lemma_range_order(self@, other@, self@);
            lemma_cut_total_order();
        }
        if self.inverted != other.inverted {
            return if other.inverted {
                Sign::Less
            } else {
                Sign::Greater
            };
        }
        let mut i: usize = 0;
        assert(a.skip(0) =~= a && b.skip(0) =~= b);
        while i < self.cuts.len() && i < other.cuts.len()
            invariant
                i <= self.cuts.len(),
                i <= other.cuts.len(),
                a == cut_views(self.cuts@),
                b == cut_views(other.cuts@),
                lt == cut_order(),
                self.inverted == other.inverted,
                lex_lt(lt, a, b) == lex_lt(lt, a.skip(i as int), b.skip(i as int)),
                lex_lt(lt, b, a) == lex_lt(lt, b.skip(i as int), a.skip(i as int)),
            decreases self.cuts.len() - i,
        {
            let sign = self.cuts[i].compare(&other.cuts[i]);
            proof {
                lemma_cut_total_order();
                assert(a.skip(i as int)[0] == self.cuts@[i as int]@);
                assert(b.skip(i as int)[0] == other.cuts@[i as int]@);
            }
            match sign {
                Sign::Less => {
                    return Sign::Less;
                },
                Sign::Greater => {
                    return Sign::Greater;
                },
                Sign::Equal => {
                    proof {
                        lemma_lex_skip(lt, a, b, i as int);
                        lemma_lex_skip(lt, b, a, i as int);
                    }
                    i += 1;
                },
            }
        }
        if i < other.cuts.len() {
            Sign::Less
        } else if i < self.cuts.len() {
            Sign::Greater
        } else {
            Sign::Equal
        }
    }

    /// Whether two ranges hold the same scalars.
    pub fn equals(&self, other: &Self) -> (same: bool)
        ensures
            same == (self@ == other@),
    {
        matches!(self.compare(other), Sign::Equal)
    }
}

impl<T: Scalar> PartialEq for Range<T> {
    fn eq(&self, other: &Self) -> (same: bool) {
        self.equals(other)
    }
}

impl<T: Scalar> PartialEqSpecImpl for Range<T> {
    open spec fn obeys_eq_spec() -> bool {
        true
    }

    open spec fn eq_spec(&self, other: &Self) -> bool {
        self@ == other@
    }
}

impl<T: Scalar> Eq for Range<T> {

}

impl<T: Scalar> Clone for Range<T> {
    fn clone(&self) -> (copy: Self)
        ensures
            copy@ == self@,
    {
        self.duplicate()
    }
}

} // verus!
