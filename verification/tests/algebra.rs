use rattler_constraints::{
    MatchSpec, MatchSpecConstraints, MatchSpecElement, PackageRecord, Range, Version,
};
use std::collections::hash_map::DefaultHasher;
use std::hash::{Hash, Hasher};
use std::str::FromStr;

fn version(segments: &[u64]) -> Version {
    Version::new(segments.to_vec())
}

fn record(segments: &[u64], build_number: usize) -> PackageRecord {
    PackageRecord {
        version: version(segments),
        build_number,
    }
}

fn hash_of<T: Hash>(value: &T) -> u64 {
    let mut hasher = DefaultHasher::new();
    value.hash(&mut hasher);
    hasher.finish()
}

fn versions_between(low: &[u64], high: &[u64]) -> MatchSpecConstraints {
    MatchSpecConstraints::from(MatchSpec {
        version: Some(Range::between(version(low), version(high))),
        build_number: None,
    })
}

fn samples() -> Vec<PackageRecord> {
    let mut all = Vec::new();
    for v in [
        vec![],
        vec![0],
        vec![1],
        vec![1, 0],
        vec![1, 2],
        vec![1, 2, 3],
        vec![1, 2, 3, 0],
        vec![1, 5],
        vec![1, 7],
        vec![2],
        vec![2, 0],
        vec![3],
        vec![u64::MAX],
    ] {
        for b in [0usize, 1, 2, 7, usize::MAX] {
            all.push(PackageRecord {
                version: Version::new(v.clone()),
                build_number: b,
            });
        }
    }
    all
}

#[test]
fn complement() {
    let record = PackageRecord {
        version: Version::from_str("1.2.3").unwrap(),
        build_number: 1,
    };

    let constraint = MatchSpecConstraints::singleton(record.clone());

    assert!(constraint.contains(&record));
    assert!(!constraint.complement().contains(&record));

    assert_eq!(constraint.intersection(&constraint), constraint);
    assert_eq!(
        constraint.intersection(&constraint.complement()),
        MatchSpecConstraints::empty()
    );

    assert_eq!(
        constraint
            .complement()
            .complement()
            .complement()
            .complement(),
        constraint
    );
    assert_eq!(
        constraint.complement().complement().complement(),
        constraint.complement()
    );

    assert_eq!(
        MatchSpecConstraints::empty(),
        constraint.complement().intersection(&constraint)
    );
    assert_eq!(
        MatchSpecConstraints::full(),
        constraint.complement().union(&constraint)
    );
}

#[test]
fn singleton_scenario() {
    let p = record(&[1, 2, 3], 1);
    let s = MatchSpecConstraints::singleton(p.clone());
    assert!(s.contains(&p));
    assert!(!s.complement().contains(&p));
    assert_eq!(s.intersection(&s), s);
    assert_eq!(s.intersection(&s.complement()), MatchSpecConstraints::empty());
    assert_eq!(s.complement().complement(), s);
    assert_eq!(s.complement().complement().complement(), s.complement());
    assert_eq!(s.union(&s.complement()), MatchSpecConstraints::full());
}

#[test]
fn double_complement_of_one_group() {
    let x = versions_between(&[1, 0], &[2, 0]);
    assert_eq!(x.complement().complement(), x);
    let empty = MatchSpecConstraints::empty();
    assert_eq!(empty.complement().complement(), empty);
    let full = MatchSpecConstraints::full();
    assert_eq!(full.complement().complement(), full);
}

#[test]
fn double_complement_holds_the_same_packages() {
    let a = MatchSpecConstraints::singleton(record(&[1], 1));
    let b = MatchSpecConstraints::singleton(record(&[2], 1));
    let x = a.union(&b).union(&versions_between(&[1, 2], &[1, 7]));
    let twice = x.complement().complement();
    for candidate in samples() {
        assert_eq!(twice.contains(&candidate), x.contains(&candidate));
    }
}

#[test]
fn excluded_middle() {
    let a = MatchSpecConstraints::singleton(record(&[1], 1));
    let b = versions_between(&[1, 5], &[3]);
    for x in [a.clone(), b.clone(), a.union(&b), a.complement().intersection(&b)] {
        assert_eq!(x.intersection(&x.complement()), MatchSpecConstraints::empty());
        assert_eq!(x.complement().intersection(&x), MatchSpecConstraints::empty());
    }
}

#[test]
fn totality() {
    let a = MatchSpecConstraints::singleton(record(&[1], 1));
    let b = versions_between(&[1, 5], &[3]);
    for x in [a.clone(), b.clone(), a.union(&b), a.complement().intersection(&b)] {
        assert_eq!(x.union(&x.complement()), MatchSpecConstraints::full());
        assert_eq!(x.complement().union(&x), MatchSpecConstraints::full());
    }
}

#[test]
fn idempotence() {
    let one = versions_between(&[1], &[2]);
    assert_eq!(one.intersection(&one), one);
    // the two groups of this complement overlap, and what they have in
    // common is a third group of the intersection
    let two = MatchSpecConstraints::singleton(record(&[1], 1)).complement();
    let squared = two.intersection(&two);
    assert_ne!(squared, two);
    for candidate in samples() {
        assert_eq!(squared.contains(&candidate), two.contains(&candidate));
    }
    assert_eq!(squared.intersection(&squared), squared);
}

#[test]
fn identity_and_absorbing() {
    let full = MatchSpecConstraints::full();
    let empty = MatchSpecConstraints::empty();
    let a = MatchSpecConstraints::singleton(record(&[1], 1));
    let b = versions_between(&[1, 5], &[3]);
    for x in [a.clone(), b.clone(), a.complement(), a.union(&b), full.clone(), empty.clone()] {
        assert_eq!(x.intersection(&full), x);
        assert_eq!(full.intersection(&x), x);
        assert_eq!(x.intersection(&empty), empty);
        assert_eq!(empty.intersection(&x), empty);
    }
}

#[test]
fn singleton_exactness() {
    let c = record(&[1, 2, 3], 1);
    let s = MatchSpecConstraints::singleton(c.clone());
    assert!(s.contains(&c));
    assert!(!s.contains(&record(&[1, 2, 3], 2)));
    assert!(!s.contains(&record(&[1, 2, 3], 0)));
    assert!(!s.contains(&record(&[1, 2, 4], 1)));
    assert!(!s.contains(&record(&[1, 2], 1)));
    assert!(!s.contains(&record(&[1, 2, 3, 0], 1)));
    assert!(!s.contains(&record(&[], 1)));
    for candidate in samples() {
        assert_eq!(s.contains(&candidate), candidate == c);
    }
}

#[test]
fn containment_under_intersection() {
    let x = versions_between(&[1, 0], &[2, 0]).union(&MatchSpecConstraints::singleton(record(&[3], 7)));
    let y = MatchSpecConstraints::singleton(record(&[1, 2, 3], 1)).complement();
    let both = x.intersection(&y);
    for candidate in samples() {
        assert_eq!(
            both.contains(&candidate),
            x.contains(&candidate) && y.contains(&candidate)
        );
    }
}

#[test]
fn containment_under_complement() {
    let x = versions_between(&[1, 0], &[2, 0]).union(&MatchSpecConstraints::singleton(record(&[3], 7)));
    let not_x = x.complement();
    for candidate in samples() {
        assert_eq!(not_x.contains(&candidate), !x.contains(&candidate));
    }
}

#[test]
fn containment_under_union() {
    let x = versions_between(&[1, 0], &[2, 0]);
    let y = MatchSpecConstraints::singleton(record(&[3], 7));
    let either = x.union(&y);
    for candidate in samples() {
        assert_eq!(
            either.contains(&candidate),
            x.contains(&candidate) || y.contains(&candidate)
        );
    }
    assert!(either.contains(&record(&[3], 7)));
    assert!(either.contains(&record(&[1, 5], 0)));
    assert!(!either.contains(&record(&[3], 0)));
}

#[test]
fn equality_is_order_independent() {
    let a = MatchSpecConstraints::singleton(record(&[1, 2, 3], 1)).complement();
    let b = versions_between(&[1, 0], &[2, 0]);
    let c = MatchSpecConstraints::singleton(record(&[1, 5], 2)).complement();
    let left = a.intersection(&b.intersection(&c));
    let right = a.intersection(&b).intersection(&c);
    assert_eq!(left, right);
    assert_eq!(hash_of(&left), hash_of(&right));
    let other = c.intersection(&a).intersection(&b);
    assert_eq!(left, other);
    assert_eq!(hash_of(&left), hash_of(&other));
}

#[test]
fn intersection_commutes_and_associates() {
    let a = MatchSpecConstraints::singleton(record(&[1, 2, 3], 1)).complement();
    let b = versions_between(&[1, 0], &[2, 0]);
    let c = MatchSpecConstraints::singleton(record(&[1, 5], 2)).complement();
    let d = MatchSpecConstraints::singleton(record(&[1, 7], 2));
    let all = [a, b, c, d, MatchSpecConstraints::full(), MatchSpecConstraints::empty()];
    for x in all.iter() {
        for y in all.iter() {
            assert_eq!(x.intersection(y), y.intersection(x));
            for z in all.iter() {
                assert_eq!(
                    x.intersection(y).intersection(z),
                    x.intersection(&y.intersection(z))
                );
            }
        }
    }
}

#[test]
fn overlapping_version_ranges() {
    let first = versions_between(&[1, 0], &[2, 0]);
    let second = versions_between(&[1, 5], &[3, 0]);
    let both = first.intersection(&second);
    assert_eq!(both, versions_between(&[1, 5], &[2, 0]));
    assert!(both.contains(&record(&[1, 7], 0)));
    assert!(!both.contains(&record(&[1, 2], 0)));
    assert!(both.contains(&record(&[1, 5], 3)));
    assert!(!both.contains(&record(&[2, 0], 3)));
}

#[test]
fn unconstrained_requirement_is_full() {
    let spec = MatchSpec {
        version: None,
        build_number: None,
    };
    assert_eq!(MatchSpecConstraints::from(spec), MatchSpecConstraints::full());
}

#[test]
fn requirement_with_a_build_number() {
    let spec = MatchSpec {
        version: Some(Range::between(version(&[1]), version(&[2]))),
        build_number: Some(4),
    };
    let x = MatchSpecConstraints::from(spec);
    assert!(x.contains(&record(&[1, 3], 4)));
    assert!(!x.contains(&record(&[1, 3], 5)));
    assert!(!x.contains(&record(&[2], 4)));
    let only_build = MatchSpecConstraints::from(MatchSpec {
        version: None,
        build_number: Some(4),
    });
    assert!(only_build.contains(&record(&[9, 9], 4)));
    assert!(!only_build.contains(&record(&[9, 9], 3)));
}

#[test]
fn requirement_that_nothing_meets_is_empty() {
    let spec = MatchSpec {
        version: Some(Range::between(version(&[2]), version(&[1]))),
        build_number: Some(4),
    };
    assert_eq!(MatchSpecConstraints::from(spec), MatchSpecConstraints::empty());
    assert_eq!(
        MatchSpecConstraints::from(MatchSpecElement::none()),
        MatchSpecConstraints::empty()
    );
    assert_eq!(
        MatchSpecConstraints::from(MatchSpecElement::any()),
        MatchSpecConstraints::full()
    );
}

#[test]
fn complement_of_empty_and_full() {
    assert_eq!(MatchSpecConstraints::empty().complement(), MatchSpecConstraints::full());
    assert_eq!(MatchSpecConstraints::full().complement(), MatchSpecConstraints::empty());
    assert_ne!(MatchSpecConstraints::full(), MatchSpecConstraints::empty());
}

#[test]
fn empty_and_full_contain_nothing_and_everything() {
    for candidate in samples() {
        assert!(!MatchSpecConstraints::empty().contains(&candidate));
        assert!(MatchSpecConstraints::full().contains(&candidate));
    }
}

#[test]
fn complement_of_a_singleton_has_two_groups() {
    // one group for the other versions, one for the other build numbers
    let p = record(&[1, 2, 3], 1);
    let not_p = MatchSpecConstraints::singleton(p.clone()).complement();
    let other_versions = MatchSpecConstraints::from(MatchSpecElement::new(
        Range::equal(version(&[1, 2, 3])).negate(),
        Range::any(),
    ));
    let other_builds = MatchSpecConstraints::from(MatchSpecElement::new(
        Range::any(),
        Range::equal(1usize).negate(),
    ));
    assert_eq!(not_p, other_versions.union(&other_builds));
    for candidate in samples() {
        assert_eq!(
            not_p.contains(&candidate),
            other_versions.contains(&candidate) || other_builds.contains(&candidate)
        );
    }
    assert!(not_p.contains(&record(&[1, 2, 3], 2)));
    assert!(not_p.contains(&record(&[1, 2, 4], 1)));
}

#[test]
fn de_morgan() {
    let x = versions_between(&[1, 0], &[2, 0]);
    let y = MatchSpecConstraints::singleton(record(&[1, 5], 2));
    assert_eq!(
        x.union(&y),
        x.complement().intersection(&y.complement()).complement()
    );
    let not_both = x.intersection(&y).complement();
    let either_not = x.complement().union(&y.complement());
    for candidate in samples() {
        assert_eq!(not_both.contains(&candidate), either_not.contains(&candidate));
    }
}

#[test]
fn elements_intersect_field_by_field() {
    let a = MatchSpecElement::new(Range::between(version(&[1]), version(&[3])), Range::any());
    let b = MatchSpecElement::new(Range::between(version(&[2]), version(&[4])), Range::equal(5usize));
    let both = a.intersection(&b);
    assert_eq!(
        both,
        MatchSpecElement::new(Range::between(version(&[2]), version(&[3])), Range::equal(5usize))
    );
    assert!(both.contains(&record(&[2, 1], 5)));
    assert!(!both.contains(&record(&[2, 1], 4)));
    assert!(!both.contains(&record(&[1, 1], 5)));
    assert_eq!(a.intersection(&b), b.intersection(&a));
}

#[test]
fn element_that_matches_nothing_is_none() {
    // whichever side is empty, the group is the one group `none`
    let low = MatchSpecElement::new(Range::between(version(&[1]), version(&[2])), Range::equal(1usize));
    let high = MatchSpecElement::new(Range::between(version(&[2]), version(&[3])), Range::equal(1usize));
    let other_build = MatchSpecElement::new(Range::between(version(&[1]), version(&[2])), Range::equal(2usize));
    assert_eq!(low.intersection(&high), MatchSpecElement::none());
    assert_eq!(low.intersection(&other_build), MatchSpecElement::none());
    assert_eq!(low.intersection(&high), low.intersection(&other_build));
    assert_eq!(hash_of(&low.intersection(&high)), hash_of(&MatchSpecElement::none()));
    assert_eq!(MatchSpecElement::new(Range::none(), Range::any()), MatchSpecElement::none());
    assert_eq!(MatchSpecElement::new(Range::any(), Range::none()), MatchSpecElement::none());
    assert!(!MatchSpecElement::none().contains(&record(&[1], 1)));
    assert!(MatchSpecElement::any().contains(&record(&[1], 1)));
    assert_eq!(low.intersection(&MatchSpecElement::any()), low);
    assert_eq!(low.intersection(&MatchSpecElement::none()), MatchSpecElement::none());
}

#[test]
fn constraints_as_text() {
    let p = record(&[1, 2, 3], 1);
    let s = MatchSpecConstraints::singleton(p);
    assert_eq!(s.to_display_text(), "version [1.2.3, 1.2.3] & build [1, 1]");
    assert_eq!(
        s.complement().to_display_text(),
        "version any & build (.., 1) or (1, ..) | version (.., 1.2.3) or (1.2.3, ..) & build any"
    );
    assert_eq!(MatchSpecConstraints::empty().to_display_text(), "nothing");
    assert_eq!(MatchSpecConstraints::full().to_display_text(), "version any & build any");
    assert_eq!(
        versions_between(&[1, 0], &[2, 10]).to_display_text(),
        "version [1.0, 2.10) & build any"
    );
    let from_18 = MatchSpecConstraints::from(MatchSpecElement::new(
        Range::between(version(&[0]), version(&[18, 446])).negate(),
        Range::equal(usize::MAX).negate().intersection(&Range::between(3, 10)),
    ));
    assert_eq!(
        from_18.to_display_text(),
        "version (.., 0) or [18.446, ..) & build [3, 10)"
    );
}

#[test]
fn double_complement_may_regroup() {
    // three groups, the third being what the first two have in common
    let y = MatchSpecConstraints::singleton(record(&[1], 1)).complement();
    let z = y.intersection(&y);
    assert_eq!(
        z.to_display_text(),
        "version any & build (.., 1) or (1, ..) | version (.., 1) or (1, ..) & build any | version (.., 1) or (1, ..) & build (.., 1) or (1, ..)"
    );
    let twice = z.complement().complement();
    // the same packages, in two groups
    assert_eq!(twice, y);
    assert_ne!(twice, z);
    for candidate in samples() {
        assert_eq!(twice.contains(&candidate), z.contains(&candidate));
    }
    // from there on the complement of the complement changes nothing
    assert_eq!(twice.complement().complement(), twice);
}

#[test]
fn union_of_two_singletons() {
    let x = MatchSpecConstraints::singleton(record(&[1], 1))
        .union(&MatchSpecConstraints::singleton(record(&[2], 1)));
    assert_eq!(
        x.to_display_text(),
        "version [1, 1] & build [1, 1] | version [1, 1] or [2, 2] & build [1, 1] | version [2, 2] & build [1, 1]"
    );
    assert!(x.contains(&record(&[1], 1)));
    assert!(x.contains(&record(&[2], 1)));
    assert!(!x.contains(&record(&[2], 2)));
    assert!(!x.contains(&record(&[3], 1)));
    assert_eq!(x.complement().complement(), x);
}

#[test]
fn the_two_ranges_of_an_element() {
    let element = MatchSpecElement::new(
        Range::between(version(&[1]), version(&[2])),
        Range::equal(3usize),
    );
    assert_eq!(element.version(), &Range::between(version(&[1]), version(&[2])));
    assert_eq!(element.build_number(), &Range::equal(3usize));
    assert!(!element.is_none());
    assert!(!element.is_any());
    assert!(MatchSpecElement::none().is_none());
    assert!(MatchSpecElement::any().is_any());
    assert_eq!(MatchSpecElement::none().version(), &Range::none());
    assert_eq!(MatchSpecElement::none().build_number(), &Range::none());
    assert_eq!(MatchSpecElement::any().version(), &Range::any());
    assert_eq!(element.clone(), element);
    assert_eq!(hash_of(&element.clone()), hash_of(&element));
}
