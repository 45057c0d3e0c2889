//! Versions and the package candidates that carry them.
use crate::order::{int_lt, lemma_int_lt_strict_total, lemma_lex_skip, lex_lt, Scalar, Sign};
use crate::text::write_key;
use vstd::prelude::*;
use vstd::string::StringSliceAdditionalSpecFns;
use vstd::std_specs::cmp::PartialEqSpecImpl;

verus! {

/// A version: a list of numbers, such as 1.2.3.
///
/// Versions are ordered number by number; where one version is the
/// beginning of another, the shorter one comes first.
#[derive(Debug, Hash)]
pub struct Version {
    segments: Vec<u64>,
}

impl View for Version {
    type V = Seq<u64>;

    closed spec fn view(&self) -> Seq<u64> {
        self.segments@
    }
}

impl Version {
    /// The version with the given numbers.
    pub fn new(segments: Vec<u64>) -> (version: Self)
        ensures
            version@ == segments@,
    {
        Version { segments }
    }

    /// The numbers of the version.
    pub fn segments(&self) -> (segments: &Vec<u64>)
        ensures
            segments@ == self@,
    {
        &self.segments
    }
}

/// The byte is a decimal digit.
pub open spec fn is_digit(byte: u8) -> bool {
    48 <= byte <= 57
}

/// How far a text has been read as a version: the numbers that are
/// complete, and the number whose digits are being read, if any.
pub struct Reading {
    pub complete: Seq<u64>,
    pub current: Option<u64>,
}

/// Reading one more byte. A digit goes to the end of the current number,
/// which must still fit; a dot ends the current number, which must have
/// begun; nothing else can be read.
pub open spec fn read_byte(before: Option<Reading>, byte: u8) -> Option<Reading> {
    match before {
        None => None,
        Some(reading) => {
            if is_digit(byte) {
                let number = (match reading.current {
                    Some(n) => n * 10,
                    None => 0,
                }) + (byte - 48);
                if number <= u64::MAX {
                    Some(Reading { complete: reading.complete, current: Some(number as u64) })
                } else {
                    None
                }
            } else if byte == 46 && reading.current is Some {
                Some(
                    Reading {
                        complete: reading.complete.push(reading.current.unwrap()),
                        current: None,
                    },
                )
            } else {
                None
            }
        },
    }
}

/// Reading a text from its beginning.
pub open spec fn read_bytes(text: Seq<u8>) -> Option<Reading>
    decreases text.len(),
{
    if text.len() == 0 {
        Some(Reading { complete: Seq::empty(), current: None })
    } else {
        read_byte(read_bytes(text.drop_last()), text.last())
    }
}

/// The numbers that a text spells: decimal numbers, each of which fits in
/// 64 bits, with a dot between one and the next. A text of another form
/// spells nothing.
pub open spec fn spelled(text: Seq<u8>) -> Option<Seq<u64>> {
    match read_bytes(text) {
        Some(reading) => match reading.current {
            Some(last) => Some(reading.complete.push(last)),
            None => None,
        },
        None => None,
    }
}

impl Version {
    /// Reads a version such as `1.2.3`. The text must be made of decimal
    /// numbers with a dot between one and the next.
    pub fn parse(text: &str) -> (version: Option<Version>)
        ensures
            match version {
                Some(v) => spelled(text.spec_bytes()) == Some(v@),
                None => spelled(text.spec_bytes()) is None,
            },
    {
        let bytes = text.as_bytes();
        let ghost all = bytes@;
        let mut segments: Vec<u64> = Vec::new();
        let mut current: Option<u64> = None;
        let mut i: usize = 0;
        proof {
            assert(all.take(0) =~= Seq::<u8>::empty());
        }
        while i < bytes.len()
            invariant
                i <= bytes.len(),
                all == bytes@,
                all == text.spec_bytes(),
                read_bytes(all.take(i as int)) == Some(
                    Reading { complete: segments@, current: current },
                ),
            decreases bytes.len() - i,
        {
            let byte: u8 = bytes[i];
            proof {
                assert(all.take(i + 1).drop_last() =~= all.take(i as int));
                assert(all.take(i + 1).last() == byte);
            }
            let mut failed = false;
            if 48 <= byte && byte <= 57 {
                let digit: u64 = (byte - 48) as u64;
                match current {
                    Some(n) => {
                        if n > (u64::MAX - digit) / 10 {
                            failed = true;
                        } else {
                            current = Some(n * 10 + digit);
                        }
                    },
                    None => {
                        current = Some(digit);
                    },
                }
            } else if byte == 46 {
                match current {
                    Some(n) => {
                        segments.push(n);
                        current = None;
                    },
                    None => {
                        failed = true;
                    },
                }
            } else {
                failed = true;
            }
            if failed {
                proof {
                    lemma_read_failure(all, i + 1);
                }
                return None;
            }
            i += 1;
        }
        proof {
            assert(all.take(i as int) =~= all);
        }
        match current {
            Some(last) => {
                segments.push(last);
                Some(Version { segments })
            },
            None => None,
        }
    }
}

/// A text of which a beginning cannot be read cannot be read.
proof fn lemma_read_failure(text: Seq<u8>, n: int)
    requires
        0 <= n <= text.len(),
        read_bytes(text.take(n)) is None,
    ensures
        read_bytes(text) is None,
    decreases text.len(),
{
    if n == text.len() {
        assert(text.take(n) =~= text);
    } else {
        assert(text.drop_last().take(n) =~= text.take(n));
        lemma_read_failure(text.drop_last(), n);
    }
}

/// What is wrong with a text that is no version: it is not made of decimal
/// numbers with a dot between one and the next, or one of the numbers is
/// too large.
#[derive(Debug, Clone, Copy, PartialEq, Eq)]
pub struct ParseVersionError;

impl core::str::FromStr for Version {
    type Err = ParseVersionError;

    fn from_str(text: &str) -> (result: Result<Self, Self::Err>)
        ensures
            match result {
                Ok(v) => spelled(text.spec_bytes()) == Some(v@),
                Err(_) => spelled(text.spec_bytes()) is None,
            },
    {
        match Version::parse(text) {
            Some(version) => Ok(version),
            None => Err(ParseVersionError),
        }
    }
}

impl Scalar for Version {
    open spec fn key(&self) -> Seq<int> {
        self@.map_values(|n: u64| n as int)
    }

    fn compare(&self, other: &Self) -> (sign: Sign) {
        let ghost a = self.key();
        let ghost b = other.key();
        let ghost lt = int_lt();
        let mut i: usize = 0;
        proof {
            lemma_int_lt_strict_total();
            assert(a.skip(0) =~= a && b.skip(0) =~= b);
        }
        while i < self.segments.len() && i < other.segments.len()
            invariant
                i <= self.segments.len(),
                i <= other.segments.len(),
                a == self.key(),
                b == other.key(),
                lt == int_lt(),
                lex_lt(lt, a, b) == lex_lt(lt, a.skip(i as int), b.skip(i as int)),
                lex_lt(lt, b, a) == lex_lt(lt, b.skip(i as int), a.skip(i as int)),
            decreases self.segments.len() - i,
        {
            let x: u64 = self.segments[i];
            let y: u64 = other.segments[i];
            proof {
                assert(a.skip(i as int)[0] == x as int);
                assert(b.skip(i as int)[0] == y as int);
            }
            if x < y {
                return Sign::Less;
            } else if x > y {
                return Sign::Greater;
            }
            proof {
                lemma_int_lt_strict_total();
                lemma_lex_skip(lt, a, b, i as int);
                lemma_lex_skip(lt, b, a, i as int);
            }
            i += 1;
        }
        if i < other.segments.len() {
            Sign::Less
        } else if i < self.segments.len() {
            Sign::Greater
        } else {
            Sign::Equal
        }
    }

    fn duplicate(&self) -> (copy: Self) {
        let segments = self.segments.clone();
        assert(segments@ =~= self.segments@);
        Version { segments }
    }

    fn write_to(&self, out: &mut String) {
        write_key(&self.segments, out);
    }
}

/// A package candidate, as far as constraints look at it: the version of
/// the package and the number of its build.
#[derive(Debug, Hash)]
pub struct PackageRecord {
    pub version: Version,
    pub build_number: usize,
}

impl PackageRecord {
    /// A second copy of the record.
    pub fn duplicate(&self) -> (copy: Self)
        ensures
            copy.version.key() == self.version.key(),
            copy.build_number == self.build_number,
    {
        PackageRecord { version: self.version.duplicate(), build_number: self.build_number }
    }
}

impl Version {
    /// Whether two versions have the same numbers.
    pub fn equals(&self, other: &Self) -> (same: bool)
        ensures
            same == (self@ == other@),
            same == (self.key() == other.key()),
    {
        proof {
            crate::order::lemma_key_order(self.key(), other.key(), self.key());
            if self.key() == other.key() {
                assert forall|i: int| 0 <= i < self@.len() implies self@[i] == other@[i] by {
                    assert(self.key()[i] == other.key()[i]);
                }
                assert(self@ =~= other@);
            }
        }
        matches!(self.compare(other), Sign::Equal)
    }
}

impl PartialEq for Version {
    fn eq(&self, other: &Self) -> (same: bool) {
        self.equals(other)
    }
}

impl PartialEqSpecImpl for Version {
    open spec fn obeys_eq_spec() -> bool {
        true
    }

    open spec fn eq_spec(&self, other: &Self) -> bool {
        self@ == other@
    }
}

impl Eq for Version {

}

impl Clone for Version {
    fn clone(&self) -> (copy: Self)
        ensures
            copy@ == self@,
    {
        let segments = self.segments.clone();
        assert(segments@ =~= self.segments@);
        Version { segments }
    }
}

impl PartialEq for PackageRecord {
    fn eq(&self, other: &Self) -> (same: bool) {
        self.version.equals(&other.version) && self.build_number == other.build_number
    }
}

impl PartialEqSpecImpl for PackageRecord {
    open spec fn obeys_eq_spec() -> bool {
        true
    }

    open spec fn eq_spec(&self, other: &Self) -> bool {
        self.version@ == other.version@ && self.build_number == other.build_number
    }
}

impl Eq for PackageRecord {

}

impl Clone for PackageRecord {
    fn clone(&self) -> (copy: Self)
        ensures
            copy.version@ == self.version@,
            copy.build_number == self.build_number,
    {
        PackageRecord { version: self.version.clone(), build_number: self.build_number }
    }
}

} // verus!
