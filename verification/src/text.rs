//! How constraints are written out for people to read.
//!
//! A range is written as its intervals, in rising order, with ` or `
//! between them. Square brackets take an end in and round brackets leave
//! it out; `..` stands for an end that is not there. A group is written as
//! its two ranges, and a constraint as its groups with ` | ` between them.
use crate::element_model::ElementView;
use crate::position::CutView;
use crate::range_model::{top, RangeView};
use vstd::prelude::*;
use vstd::string::StringExecFns;

verus! {

/// One decimal digit.
pub open spec fn digit_text(digit: int) -> Seq<char> {
    if digit == 0 {
        "0"@
    } else if digit == 1 {
        "1"@
    } else if digit == 2 {
        "2"@
    } else if digit == 3 {
        "3"@
    } else if digit == 4 {
        "4"@
    } else if digit == 5 {
        "5"@
    } else if digit == 6 {
        "6"@
    } else if digit == 7 {
        "7"@
    } else if digit == 8 {
        "8"@
    } else {
        "9"@
    }
}

/// A number in decimal digits.
pub open spec fn decimal_text(number: int) -> Seq<char>
    decreases number,
{
    if number < 10 {
        digit_text(number)
    } else {
        decimal_text(number / 10) + digit_text(number % 10)
    }
}

/// A key: its numbers with a dot between one and the next.
pub open spec fn key_text(key: Seq<int>) -> Seq<char>
    decreases key.len(),
{
    if key.len() == 0 {
        Seq::empty()
    } else if key.len() == 1 {
        decimal_text(key[0])
    } else {
        key_text(key.drop_last()) + "."@ + decimal_text(key.last())
    }
}

/// The intervals that the cuts make, as far as the cuts go: an interval
/// that the last cut opens is left open.
pub open spec fn cuts_text(inverted: bool, cuts: Seq<CutView>) -> Seq<char>
    decreases cuts.len(),
{
    if cuts.len() == 0 {
        if inverted {
            "(.."@
        } else {
            Seq::empty()
        }
    } else {
        let before = cuts_text(inverted, cuts.drop_last());
        let cut = cuts.last();
        if top(inverted, cuts.drop_last()) {
            before + ", "@ + key_text(cut.key) + (if cut.after {
                "]"@
            } else {
                ")"@
            })
        } else {
            before + (if cuts.len() == 1 {
                Seq::empty()
            } else {
                " or "@
            }) + (if cut.after {
                "("@
            } else {
                "["@
            }) + key_text(cut.key)
        }
    }
}

/// A range: `none`, `any`, or its intervals.
pub open spec fn range_text(range: RangeView) -> Seq<char> {
    if range == RangeView::none() {
        "none"@
    } else if range == RangeView::any() {
        "any"@
    } else {
        cuts_text(range.inverted, range.cuts) + (if top(range.inverted, range.cuts) {
            ", ..)"@
        } else {
            Seq::empty()
        })
    }
}

/// A group: its range of versions and its range of build numbers.
pub open spec fn element_text(element: ElementView) -> Seq<char> {
    "version "@ + range_text(element.version) + " & build "@ + range_text(element.build_number)
}

/// The groups of a constraint, with ` | ` between them.
pub open spec fn groups_text(groups: Seq<ElementView>) -> Seq<char>
    decreases groups.len(),
{
    if groups.len() == 0 {
        Seq::empty()
    } else if groups.len() == 1 {
        element_text(groups[0])
    } else {
        groups_text(groups.drop_last()) + " | "@ + element_text(groups.last())
    }
}

/// A constraint: `nothing` if it has no group, its groups otherwise.
pub open spec fn dnf_text(groups: Seq<ElementView>) -> Seq<char> {
    if groups.len() == 0 {
        "nothing"@
    } else {
        groups_text(groups)
    }
}

fn digit_literal(digit: u64) -> (text: &'static str)
    requires
        digit < 10,
    ensures
        text@ == digit_text(digit as int),
{
    if digit == 0 {
        "0"
    } else if digit == 1 {
        "1"
    } else if digit == 2 {
        "2"
    } else if digit == 3 {
        "3"
    } else if digit == 4 {
        "4"
    } else if digit == 5 {
        "5"
    } else if digit == 6 {
        "6"
    } else if digit == 7 {
        "7"
    } else if digit == 8 {
        "8"
    } else {
        "9"
    }
}

/// Appends a number in decimal digits.
pub fn write_decimal(number: u64, out: &mut String)
    ensures
        final(out)@ == old(out)@ + decimal_text(number as int),
    decreases number,
{
    let ghost start = out@;
    if number >= 10 {
        write_decimal(number / 10, out);
    }
    out.append(digit_literal(number % 10));
    assert(out@ =~= start + decimal_text(number as int));
}

/// Appends a key whose numbers are given.
pub fn write_key(numbers: &Vec<u64>, out: &mut String)
    ensures
        final(out)@ == old(out)@ + key_text(numbers@.map_values(|n: u64| n as int)),
{
    let ghost start = out@;
    let ghost key = numbers@.map_values(|n: u64| n as int);
    let mut i: usize = 0;
    proof {
        assert(key.take(0) =~= Seq::<int>::empty());
        assert(out@ =~= start + key_text(key.take(0)));
    }
    while i < numbers.len()
        invariant
            i <= numbers.len(),
            key == numbers@.map_values(|n: u64| n as int),
            out@ == start + key_text(key.take(i as int)),
        decreases numbers.len() - i,
    {
        if i > 0 {
            out.append(".");
        }
        write_decimal(numbers[i], out);
        proof {
            let now = key.take(i + 1);
            assert(now.drop_last() =~= key.take(i as int));
            assert(now.last() == numbers@[i as int] as int);
            assert(out@ =~= start + key_text(now));
        }
        i += 1;
    }
    assert(key.take(i as int) =~= key);
}

} // verus!
