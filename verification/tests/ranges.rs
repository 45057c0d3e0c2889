use rattler_constraints::version::ParseVersionError;
use rattler_constraints::{Range, Scalar, Sign, Version};
use std::str::FromStr;

fn version(segments: &[u64]) -> Version {
    Version::new(segments.to_vec())
}

#[test]
fn versions_are_ordered_number_by_number() {
    assert_eq!(version(&[1, 2, 3]).compare(&version(&[1, 2, 3])), Sign::Equal);
    assert_eq!(version(&[1, 2, 3]).compare(&version(&[1, 3])), Sign::Less);
    assert_eq!(version(&[1, 10]).compare(&version(&[1, 9])), Sign::Greater);
    assert_eq!(version(&[1]).compare(&version(&[1, 0])), Sign::Less);
    assert_eq!(version(&[1, 0]).compare(&version(&[1])), Sign::Greater);
    assert_eq!(version(&[]).compare(&version(&[0])), Sign::Less);
    assert_eq!(version(&[2]).compare(&version(&[1, 9, 9])), Sign::Greater);
    assert_eq!(version(&[1, 2, 3]), version(&[1, 2, 3]));
    assert_ne!(version(&[1, 2, 3]), version(&[1, 2]));
    assert_eq!(version(&[1, 2, 3]).segments(), &vec![1, 2, 3]);
}

#[test]
fn build_numbers_are_ordered_as_numbers() {
    assert_eq!(3usize.compare(&4usize), Sign::Less);
    assert_eq!(4usize.compare(&4usize), Sign::Equal);
    assert_eq!(usize::MAX.compare(&0usize), Sign::Greater);
    assert_eq!(7usize.duplicate(), 7usize);
}

#[test]
fn none_any_and_equal() {
    let none: Range<usize> = Range::none();
    let any: Range<usize> = Range::any();
    let five = Range::equal(5usize);
    for n in [0usize, 4, 5, 6, usize::MAX] {
        assert!(!none.contains(&n));
        assert!(any.contains(&n));
        assert_eq!(five.contains(&n), n == 5);
    }
    assert!(none.is_none());
    assert!(!none.is_any());
    assert!(any.is_any());
    assert!(!any.is_none());
    assert!(!five.is_none());
    assert!(!five.is_any());
}

#[test]
fn between_takes_the_low_end_and_leaves_the_high_end() {
    let range = Range::between(3usize, 6usize);
    assert!(!range.contains(&2));
    assert!(range.contains(&3));
    assert!(range.contains(&5));
    assert!(!range.contains(&6));
    assert_eq!(Range::between(6usize, 3usize), Range::none());
    assert_eq!(Range::between(3usize, 3usize), Range::none());
}

#[test]
fn negation_of_a_range() {
    let range = Range::between(3usize, 6usize);
    let outside = range.negate();
    for n in 0usize..10 {
        assert_eq!(outside.contains(&n), !range.contains(&n));
    }
    assert_eq!(outside.negate(), range);
    assert_ne!(outside, range);
    assert_eq!(Range::<usize>::none().negate(), Range::any());
    assert_eq!(Range::<usize>::any().negate(), Range::none());
}

#[test]
fn intersection_of_ranges() {
    let a = Range::between(1usize, 6usize);
    let b = Range::between(4usize, 9usize);
    let both = a.intersection(&b);
    assert_eq!(both, Range::between(4usize, 6usize));
    assert_eq!(b.intersection(&a), both);
    for n in 0usize..12 {
        assert_eq!(both.contains(&n), a.contains(&n) && b.contains(&n));
    }
    assert_eq!(a.intersection(&a), a);
    assert_eq!(a.intersection(&Range::any()), a);
    assert_eq!(a.intersection(&Range::none()), Range::none());
    assert_eq!(a.intersection(&a.negate()), Range::none());
    assert_eq!(a.intersection(&Range::between(6usize, 9usize)), Range::none());
    assert_eq!(a.intersection(&Range::equal(5usize)), Range::equal(5usize));
    assert_eq!(a.intersection(&Range::equal(6usize)), Range::none());
}

#[test]
fn ranges_with_holes() {
    // everything but 2 and 5
    let holes = Range::equal(2usize).negate().intersection(&Range::equal(5usize).negate());
    for n in 0usize..8 {
        assert_eq!(holes.contains(&n), n != 2 && n != 5);
    }
    let some = holes.intersection(&Range::between(2usize, 6usize));
    for n in 0usize..8 {
        assert_eq!(some.contains(&n), n == 3 || n == 4);
    }
    assert_eq!(holes.negate().negate(), holes);
    // taking the two holes away one after the other, in either order
    let again = Range::equal(5usize).negate().intersection(&Range::equal(2usize).negate());
    assert_eq!(again, holes);
}

#[test]
fn ranges_are_equal_when_they_hold_the_same() {
    let a = Range::between(version(&[1, 0]), version(&[3, 0]));
    let b = Range::between(version(&[2, 0]), version(&[4, 0]));
    let c = Range::between(version(&[0]), version(&[3, 0]));
    assert_eq!(a.intersection(&b), c.intersection(&b));
    assert_eq!(a.intersection(&b), Range::between(version(&[2, 0]), version(&[3, 0])));
    assert_eq!(a.clone(), a);
    assert_ne!(a, b);
}

#[test]
fn ranges_are_totally_ordered() {
    let all = [
        Range::none(),
        Range::equal(1usize),
        Range::between(1usize, 3usize),
        Range::between(2usize, 3usize),
        Range::equal(1usize).negate(),
        Range::any(),
    ];
    for (i, a) in all.iter().enumerate() {
        for (j, b) in all.iter().enumerate() {
            let sign = a.compare(b);
            assert_eq!(sign == Sign::Equal, i == j);
            let back = b.compare(a);
            match sign {
                Sign::Less => assert_eq!(back, Sign::Greater),
                Sign::Equal => assert_eq!(back, Sign::Equal),
                Sign::Greater => assert_eq!(back, Sign::Less),
            }
        }
    }
    assert_eq!(Range::<usize>::none().compare(&Range::any()), Sign::Less);
    assert_eq!(Range::equal(1usize).compare(&Range::equal(2usize)), Sign::Less);
}

#[test]
fn versions_are_read_from_text() {
    assert_eq!(Version::parse("1.2.3"), Some(version(&[1, 2, 3])));
    assert_eq!(Version::parse("0"), Some(version(&[0])));
    assert_eq!(Version::parse("007.10"), Some(version(&[7, 10])));
    assert_eq!(
        Version::parse("18446744073709551615.1"),
        Some(version(&[u64::MAX, 1]))
    );
    assert_eq!(Version::from_str("2022.11"), Ok(version(&[2022, 11])));
    assert_eq!(Version::from_str("1.2.3").unwrap().segments(), &vec![1, 2, 3]);
}

#[test]
fn texts_that_are_no_versions() {
    for text in [
        "",
        ".",
        "1.",
        ".1",
        "1..2",
        "1.a",
        "a",
        "1 .2",
        " 1",
        "-1",
        "1.2.3rc1",
        "18446744073709551616",
        "1.18446744073709551616",
        "99999999999999999999999",
        "1\u{661}",
    ] {
        assert_eq!(Version::parse(text), None, "{:?}", text);
        assert_eq!(Version::from_str(text), Err(ParseVersionError), "{:?}", text);
    }
}

#[test]
fn ranges_as_text() {
    fn text<T: Scalar>(range: &Range<T>) -> String {
        let mut out = String::from("> ");
        range.write_to(&mut out);
        out
    }
    assert_eq!(text(&Range::<usize>::none()), "> none");
    assert_eq!(text(&Range::<usize>::any()), "> any");
    assert_eq!(text(&Range::equal(0usize)), "> [0, 0]");
    assert_eq!(text(&Range::equal(1234567890usize)), "> [1234567890, 1234567890]");
    assert_eq!(text(&Range::between(9usize, 10usize)), "> [9, 10)");
    assert_eq!(text(&Range::between(9usize, 10usize).negate()), "> (.., 9) or [10, ..)");
    assert_eq!(text(&Range::equal(5usize).negate()), "> (.., 5) or (5, ..)");
    assert_eq!(
        text(&Range::equal(5usize).negate().intersection(&Range::between(1usize, 8usize))),
        "> [1, 5) or (5, 8)"
    );
    assert_eq!(text(&Range::equal(version(&[]))), "> [, ]");
    assert_eq!(
        text(&Range::between(version(&[1, 0, 20]), version(&[u64::MAX]))),
        "> [1.0.20, 18446744073709551615)"
    );
}

#[test]
fn versions_are_read_back_from_their_text() {
    for segments in [
        vec![0],
        vec![1, 2, 3],
        vec![10, 0, 0, 7],
        vec![u64::MAX, 0, u64::MAX],
        vec![2022, 11, 5],
    ] {
        let version = Version::new(segments);
        let mut text = String::new();
        version.write_to(&mut text);
        assert_eq!(Version::parse(&text), Some(version.clone()));
        assert_eq!(version.duplicate(), version);
    }
    let mut text = String::new();
    version(&[1, 20, 300]).write_to(&mut text);
    assert_eq!(text, "1.20.300");
    let mut number = String::from("build ");
    1234567890usize.write_to(&mut number);
    assert_eq!(number, "build 1234567890");
}
