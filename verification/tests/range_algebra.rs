use depsolve::range::Range;
use depsolve::version::{Ident, Version};

fn rc(name: &str) -> Vec<Ident> {
    vec![Ident::Alpha(name.as_bytes().to_vec())]
}

#[test]
fn exact_contains_only_its_version() {
    let a = Version::new(1, 2, 3);
    let b = Version::new(1, 2, 4);
    let r = Range::exact(&a);
    assert!(r.contains(&a));
    assert!(!r.contains(&b));
    assert!(!r.contains(&a.bump()));
    assert!(!r.contains(&Version::new(1, 2, 2)));
}

#[test]
fn exact_at_prerelease_does_not_leak() {
    // an exact range at a pre-release admits neither the following
    // pre-release nor the release itself
    let rc2 = Version::new_pre(1, 0, 0, rc("rc2"));
    let rc3 = Version::new_pre(1, 0, 0, rc("rc3"));
    let rel = Version::new(1, 0, 0);
    let r = Range::exact(&rc2);
    assert!(r.contains(&rc2));
    assert!(!r.contains(&rc3));
    assert!(!r.contains(&rel));
}

#[test]
fn bounds_guard_release_prereleases() {
    // ">= 1.0.0 and < 2.0.0" keeps out the pre-releases of 2.0.0
    let r = Range::from_bounds(&Version::new(1, 0, 0), &Version::new(2, 0, 0));
    assert!(r.contains(&Version::new(1, 0, 0)));
    assert!(r.contains(&Version::new(1, 9, 9)));
    assert!(!r.contains(&Version::new(2, 0, 0)));
    assert!(!r.contains(&Version::new_pre(2, 0, 0, rc("rc1"))));
    // a pre-release upper bound is kept as written
    let r2 = Range::from_bounds(
        &Version::new_pre(1, 0, 0, rc("rc2")),
        &Version::new_pre(1, 0, 0, rc("rc3")),
    );
    assert!(r2.contains(&Version::new_pre(1, 0, 0, rc("rc2"))));
    assert!(!r2.contains(&Version::new_pre(1, 0, 0, rc("rc3"))));
}

#[test]
fn union_with_complement_covers_everything() {
    let r = Range::from_bounds(&Version::new(1, 0, 0), &Version::new(2, 0, 0));
    let c = r.complement();
    let u = r.union(&c);
    let samples = [
        Version::new(0, 0, 0),
        Version::new(1, 0, 0),
        Version::new(1, 5, 0),
        Version::new(2, 0, 0),
        Version::new(9, 9, 9),
        Version::new_pre(2, 0, 0, rc("rc1")),
    ];
    for v in samples.iter() {
        assert!(u.contains(v));
        assert!(r.contains(v) != c.contains(v));
    }
}

#[test]
fn intersect_with_complement_is_empty() {
    let r = Range::from_bounds(&Version::new(1, 0, 0), &Version::new(2, 0, 0));
    let c = r.complement();
    let x = r.intersect(&c);
    assert!(x.is_empty());
    let samples = [
        Version::new(0, 5, 0),
        Version::new(1, 0, 0),
        Version::new(1, 9, 9),
        Version::new(3, 0, 0),
    ];
    for v in samples.iter() {
        assert!(!x.contains(v));
    }
}

#[test]
fn union_and_intersection_pointwise() {
    let a = Range::from_bounds(&Version::new(1, 0, 0), &Version::new(1, 5, 0));
    let b = Range::from_bounds(&Version::new(1, 3, 0), &Version::new(2, 0, 0));
    let u = a.union(&b);
    let x = a.intersect(&b);
    let samples = [
        Version::new(0, 9, 0),
        Version::new(1, 0, 0),
        Version::new(1, 3, 0),
        Version::new(1, 4, 9),
        Version::new(1, 5, 0),
        Version::new(1, 9, 0),
        Version::new(2, 0, 0),
    ];
    for v in samples.iter() {
        assert_eq!(u.contains(v), a.contains(v) || b.contains(v));
        assert_eq!(x.contains(v), a.contains(v) && b.contains(v));
    }
}

#[test]
fn empty_and_any() {
    let none = Range::none();
    let any = Range::any();
    assert!(none.is_empty());
    assert!(!any.is_empty());
    assert!(any.contains(&Version::new(0, 0, 0)));
    assert!(any.contains(&Version::new_pre(0, 0, 0, rc("alpha"))));
    assert!(!none.contains(&Version::new(1, 0, 0)));
    assert!(any.is_full());
    assert!(!none.is_full());
}

#[test]
fn half_bounded_ranges() {
    let up = Range::higher_than(&Version::new(2, 0, 0));
    assert!(up.contains(&Version::new(2, 0, 0)));
    assert!(up.contains(&Version::new(9, 0, 0)));
    assert!(!up.contains(&Version::new(1, 9, 9)));
    let down = Range::strictly_lower_than(&Version::new(2, 0, 0));
    assert!(down.contains(&Version::new(1, 9, 9)));
    assert!(!down.contains(&Version::new(2, 0, 0)));
    assert!(!down.contains(&Version::new(3, 0, 0)));
}
