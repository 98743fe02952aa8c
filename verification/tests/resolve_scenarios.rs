use depsolve::provider::{Dep, Provider};
use depsolve::range::Range;
use depsolve::solver::{check_solution, resolve, ResolutionError};
use depsolve::version::{Ident, Version};

fn rc(name: &str) -> Vec<Ident> {
    vec![Ident::Alpha(name.as_bytes().to_vec())]
}

fn dep_exact(pkg: usize, v: &Version) -> Dep {
    Dep { pkg, range: Range::exact(v) }
}

fn dep_between(pkg: usize, lo: &Version, hi: &Version) -> Dep {
    Dep { pkg, range: Range::from_bounds(lo, hi) }
}

fn dep_any(pkg: usize) -> Dep {
    Dep { pkg, range: Range::any() }
}

fn assigned<'a>(sol: &'a [Option<Version>], pkg: usize) -> &'a Version {
    match &sol[pkg] {
        Some(v) => v,
        None => panic!("package left unassigned"),
    }
}

fn same_solution(a: &[Option<Version>], b: &[Option<Version>]) -> bool {
    if a.len() != b.len() {
        return false;
    }
    for i in 0..a.len() {
        let ok = match (&a[i], &b[i]) {
            (None, None) => true,
            (Some(x), Some(y)) => x.same(y),
            _ => false,
        };
        if !ok {
            return false;
        }
    }
    true
}

#[test]
fn diamond_dependency_picks_newest_shared() {
    // root requires a and b; a requires c >=1.0.0 <2.0.0;
    // b requires c >=1.5.0 <2.0.0; c has 1.0.0, 1.5.0, 1.9.0
    let mut p = Provider::new();
    let root = p.add_package();
    let a = p.add_package();
    let b = p.add_package();
    let c = p.add_package();
    let rv = Version::new(1, 0, 0);
    p.add_release(
        root,
        rv.clone(),
        Some(vec![
            dep_between(a, &Version::new(1, 0, 0), &Version::new(2, 0, 0)),
            dep_between(b, &Version::new(1, 0, 0), &Version::new(2, 0, 0)),
        ]),
    );
    p.add_release(
        a,
        Version::new(1, 0, 0),
        Some(vec![dep_between(c, &Version::new(1, 0, 0), &Version::new(2, 0, 0))]),
    );
    p.add_release(
        b,
        Version::new(1, 0, 0),
        Some(vec![dep_between(c, &Version::new(1, 5, 0), &Version::new(2, 0, 0))]),
    );
    p.add_release(c, Version::new(1, 0, 0), Some(vec![]));
    p.add_release(c, Version::new(1, 5, 0), Some(vec![]));
    p.add_release(c, Version::new(1, 9, 0), Some(vec![]));
    let result = resolve(&p, root, &rv);
    let sol = result.unwrap_or_else(|_| panic!("diamond should resolve"));
    assert!(assigned(&sol, c).same(&Version::new(1, 9, 0)));
    assert!(assigned(&sol, root).same(&rv));
    assert!(check_solution(&p, root, &rv, &sol));
}

#[test]
fn unsatisfiable_conflicting_requirements() {
    // root requires x >=1.0.0 <2.0.0 and y; y requires x >=2.0.0;
    // only x 1.0.0 exists
    let mut p = Provider::new();
    let root = p.add_package();
    let x = p.add_package();
    let y = p.add_package();
    let rv = Version::new(1, 0, 0);
    p.add_release(
        root,
        rv.clone(),
        Some(vec![
            dep_between(x, &Version::new(1, 0, 0), &Version::new(2, 0, 0)),
            dep_any(y),
        ]),
    );
    p.add_release(x, Version::new(1, 0, 0), Some(vec![]));
    p.add_release(
        y,
        Version::new(1, 0, 0),
        Some(vec![Dep { pkg: x, range: Range::higher_than(&Version::new(2, 0, 0)) }]),
    );
    let result = resolve(&p, root, &rv);
    assert!(matches!(result, Err(ResolutionError::Unsatisfiable)));
}

#[test]
fn provider_gap_surfaces_unavailable_metadata() {
    // a package appears as a dependency, but its only listed version has no
    // dependency metadata: the run stops with ProviderUnavailable
    let mut p = Provider::new();
    let root = p.add_package();
    let q = p.add_package();
    let rv = Version::new(0, 1, 0);
    p.add_release(root, rv.clone(), Some(vec![dep_any(q)]));
    p.add_release(q, Version::new(1, 0, 0), None);
    let result = resolve(&p, root, &rv);
    match result {
        Err(ResolutionError::ProviderUnavailable { pkg, version }) => {
            assert_eq!(pkg, q);
            assert!(version.same(&Version::new(1, 0, 0)));
        }
        _ => panic!("expected the provider gap to surface"),
    }
}

#[test]
fn prerelease_boundary_selects_rc2() {
    // provider versions {1.0.0-rc2, 1.0.0-rc3}; a requirement
    // >= 1.0.0-rc2 and < 1.0.0-rc3 must select 1.0.0-rc2
    let mut p = Provider::new();
    let root = p.add_package();
    let g = p.add_package();
    let rv = Version::new(0, 0, 1);
    let rc2 = Version::new_pre(1, 0, 0, rc("rc2"));
    let rc3 = Version::new_pre(1, 0, 0, rc("rc3"));
    p.add_release(root, rv.clone(), Some(vec![dep_between(g, &rc2, &rc3)]));
    p.add_release(g, rc2.clone(), Some(vec![]));
    p.add_release(g, rc3.clone(), Some(vec![]));
    let result = resolve(&p, root, &rv);
    let sol = result.unwrap_or_else(|_| panic!("the rc2 pin should resolve"));
    assert!(assigned(&sol, g).same(&rc2));
}

#[test]
fn prerelease_boundary_rejects_rc3_pin() {
    // requiring both [rc2, rc3) and exactly rc3 cannot be satisfied
    let mut p = Provider::new();
    let root = p.add_package();
    let g = p.add_package();
    let h = p.add_package();
    let rv = Version::new(0, 0, 1);
    let rc2 = Version::new_pre(1, 0, 0, rc("rc2"));
    let rc3 = Version::new_pre(1, 0, 0, rc("rc3"));
    p.add_release(
        root,
        rv.clone(),
        Some(vec![dep_between(g, &rc2, &rc3), dep_any(h)]),
    );
    p.add_release(g, rc2.clone(), Some(vec![]));
    p.add_release(g, rc3.clone(), Some(vec![]));
    p.add_release(h, Version::new(1, 0, 0), Some(vec![dep_exact(g, &rc3)]));
    let result = resolve(&p, root, &rv);
    assert!(matches!(result, Err(ResolutionError::Unsatisfiable)));
}

#[test]
fn resolution_is_repeatable() {
    // an unchanged provider yields the same assignment on every run
    let mut p = Provider::new();
    let root = p.add_package();
    let a = p.add_package();
    let b = p.add_package();
    let rv = Version::new(1, 0, 0);
    p.add_release(
        root,
        rv.clone(),
        Some(vec![
            dep_between(a, &Version::new(0, 1, 0), &Version::new(1, 0, 0)),
            dep_any(b),
        ]),
    );
    p.add_release(a, Version::new(0, 1, 0), Some(vec![]));
    p.add_release(a, Version::new(0, 2, 0), Some(vec![]));
    p.add_release(b, Version::new(3, 0, 0), Some(vec![]));
    p.add_release(b, Version::new(4, 0, 0), Some(vec![]));
    let first = resolve(&p, root, &rv).unwrap_or_else(|_| panic!("should resolve"));
    let second = resolve(&p, root, &rv).unwrap_or_else(|_| panic!("should resolve"));
    assert!(same_solution(&first, &second));
    // prefer-newest policy on both undecided packages
    assert!(assigned(&first, a).same(&Version::new(0, 2, 0)));
    assert!(assigned(&first, b).same(&Version::new(4, 0, 0)));
}

#[test]
fn widening_a_requirement_keeps_the_problem_solvable() {
    // the same problem with a strictly wider range still resolves
    let build = |wide: bool| {
        let mut p = Provider::new();
        let root = p.add_package();
        let a = p.add_package();
        let rv = Version::new(1, 0, 0);
        let lo = if wide { Version::new(1, 0, 0) } else { Version::new(1, 4, 0) };
        p.add_release(
            root,
            rv.clone(),
            Some(vec![dep_between(a, &lo, &Version::new(2, 0, 0))]),
        );
        p.add_release(a, Version::new(1, 4, 0), Some(vec![]));
        p.add_release(a, Version::new(1, 6, 0), Some(vec![]));
        (p, root, rv)
    };
    let (p1, root1, rv1) = build(false);
    let narrow = resolve(&p1, root1, &rv1);
    assert!(narrow.is_ok());
    let (p2, root2, rv2) = build(true);
    let wide = resolve(&p2, root2, &rv2);
    assert!(wide.is_ok());
}

#[test]
fn no_version_in_range_is_unsatisfiable() {
    let mut p = Provider::new();
    let root = p.add_package();
    let a = p.add_package();
    let rv = Version::new(1, 0, 0);
    p.add_release(
        root,
        rv.clone(),
        Some(vec![dep_between(a, &Version::new(2, 0, 0), &Version::new(3, 0, 0))]),
    );
    p.add_release(a, Version::new(1, 0, 0), Some(vec![]));
    let result = resolve(&p, root, &rv);
    assert!(matches!(result, Err(ResolutionError::Unsatisfiable)));
}

#[test]
fn backtracks_to_an_older_version() {
    // the newest b conflicts with a's requirement; resolution must back off
    // to the older b
    let mut p = Provider::new();
    let root = p.add_package();
    let a = p.add_package();
    let b = p.add_package();
    let c = p.add_package();
    let rv = Version::new(1, 0, 0);
    p.add_release(
        root,
        rv.clone(),
        Some(vec![dep_any(a), dep_any(b)]),
    );
    p.add_release(
        a,
        Version::new(1, 0, 0),
        Some(vec![dep_between(c, &Version::new(1, 0, 0), &Version::new(2, 0, 0))]),
    );
    // newest b needs c >= 2.0.0, which clashes with a
    p.add_release(
        b,
        Version::new(1, 0, 0),
        Some(vec![dep_between(c, &Version::new(1, 0, 0), &Version::new(2, 0, 0))]),
    );
    p.add_release(
        b,
        Version::new(2, 0, 0),
        Some(vec![Dep { pkg: c, range: Range::higher_than(&Version::new(2, 0, 0)) }]),
    );
    p.add_release(c, Version::new(1, 5, 0), Some(vec![]));
    let result = resolve(&p, root, &rv);
    let sol = result.unwrap_or_else(|_| panic!("should resolve by backtracking"));
    assert!(assigned(&sol, b).same(&Version::new(1, 0, 0)));
    assert!(assigned(&sol, c).same(&Version::new(1, 5, 0)));
    assert!(check_solution(&p, root, &rv, &sol));
}
