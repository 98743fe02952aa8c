use depsolve::version::{Cmp, Ident, Version};

fn rc(name: &str) -> Vec<Ident> {
    vec![Ident::Alpha(name.as_bytes().to_vec())]
}

#[test]
fn core_order() {
    let a = Version::new(1, 2, 3);
    let b = Version::new(1, 2, 4);
    let c = Version::new(2, 0, 0);
    assert!(a.lt(&b));
    assert!(b.lt(&c));
    assert!(a.lt(&c));
    assert!(!b.lt(&a));
    assert!(a.same(&Version::new(1, 2, 3)));
    assert!(!a.same(&b));
}

#[test]
fn prerelease_below_release() {
    let rc2 = Version::new_pre(1, 0, 0, rc("rc2"));
    let rc3 = Version::new_pre(1, 0, 0, rc("rc3"));
    let rel = Version::new(1, 0, 0);
    assert!(rc2.lt(&rc3));
    assert!(rc3.lt(&rel));
    assert!(rc2.lt(&rel));
    assert!(!rel.lt(&rc2));
}

#[test]
fn numeric_identifiers_before_alphanumeric() {
    let n1 = Version::new_pre(1, 0, 0, vec![Ident::Num(1)]);
    let n10 = Version::new_pre(1, 0, 0, vec![Ident::Num(10)]);
    let alpha = Version::new_pre(1, 0, 0, rc("alpha"));
    assert!(n1.lt(&n10));
    assert!(n10.lt(&alpha));
}

#[test]
fn shorter_prerelease_series_first() {
    let short = Version::new_pre(1, 0, 0, vec![Ident::Alpha(b"rc".to_vec())]);
    let long = Version::new_pre(
        1,
        0,
        0,
        vec![Ident::Alpha(b"rc".to_vec()), Ident::Num(0)],
    );
    assert!(short.lt(&long));
}

#[test]
fn bump_is_strictly_above() {
    let rel = Version::new(1, 2, 3);
    let brel = rel.bump();
    assert!(rel.lt(&brel));
    let rc2 = Version::new_pre(1, 0, 0, rc("rc2"));
    let brc = rc2.bump();
    assert!(rc2.lt(&brc));
    // the bump of a pre-release stays below the next pre-release and the release
    let rc3 = Version::new_pre(1, 0, 0, rc("rc3"));
    assert!(brc.lt(&rc3));
    assert!(brc.lt(&Version::new(1, 0, 0)));
}

#[test]
fn cmp_with_three_way() {
    let a = Version::new(0, 1, 0);
    let b = Version::new(0, 2, 0);
    assert!(matches!(a.cmp_with(&b), Cmp::Lt));
    assert!(matches!(b.cmp_with(&a), Cmp::Gt));
    assert!(matches!(a.cmp_with(&Version::new(0, 1, 0)), Cmp::Eq));
}
