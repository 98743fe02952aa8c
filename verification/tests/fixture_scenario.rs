use depsolve::provider::{Dep, Provider};
use depsolve::range::Range;
use depsolve::solver::{check_solution, resolve, ResolutionError};
use depsolve::version::{Ident, Version};

fn rc(name: &str) -> Vec<Ident> {
    vec![Ident::Alpha(name.as_bytes().to_vec())]
}

fn dep_exact(pkg: usize, v: &Version) -> Dep {
    Dep { pkg, range: Range::exact(v) }
}

fn dep_between(pkg: usize, lo: &Version, hi: &Version) -> Dep {
    Dep { pkg, range: Range::from_bounds(lo, hi) }
}

fn dep_any(pkg: usize) -> Dep {
    Dep { pkg, range: Range::any() }
}

struct Fixture {
    provider: Provider,
    root: usize,
    root_version: Version,
    glint: usize,
    wisp: usize,
    gleam_json: usize,
}

/// A workspace of packages whose resolution exercises a pre-release pin:
/// the root and one of its dependencies both constrain the same pre-release.
/// With `metadata_gaps`, two packages are listed without dependency
/// metadata, as a registry that failed to serve them would leave things.
fn build_fixture(metadata_gaps: bool) -> Fixture {
    let mut p = Provider::new();
    let root = p.add_package();
    let argv = p.add_package();
    let birl = p.add_package();
    let gleam_javascript = p.add_package();
    let gleam_community_colour = p.add_package();
    let gleam_community_ansi = p.add_package();
    let gleam_erlang = p.add_package();
    let tom = p.add_package();
    let thoas = p.add_package();
    let glint = p.add_package();
    let wisp = p.add_package();
    let snag = p.add_package();
    let gleam_otp = p.add_package();
    let exception = p.add_package();
    let ranger = p.add_package();
    let simplifile = p.add_package();
    let filepath = p.add_package();
    let startest = p.add_package();
    let gleam_json = p.add_package();
    let bigben = p.add_package();
    let gleam_stdlib = p.add_package();

    let root_version = Version::new(0, 0, 0);
    let glint_rc2 = Version::new_pre(1, 0, 0, rc("rc2"));
    let glint_rc3 = Version::new_pre(1, 0, 0, rc("rc3"));

    p.add_release(
        root,
        root_version.clone(),
        Some(vec![
            dep_exact(bigben, &Version::new(1, 0, 0)),
            dep_exact(gleam_stdlib, &Version::new(0, 38, 0)),
            dep_exact(gleam_javascript, &Version::new(0, 8, 0)),
            dep_exact(gleam_community_colour, &Version::new(1, 4, 0)),
            dep_exact(gleam_community_ansi, &Version::new(1, 4, 0)),
            dep_exact(gleam_erlang, &Version::new(0, 25, 0)),
            dep_exact(tom, &Version::new(0, 3, 0)),
            dep_exact(thoas, &Version::new(1, 2, 1)),
            dep_exact(glint, &glint_rc2),
            dep_any(wisp),
            dep_exact(snag, &Version::new(0, 3, 0)),
            dep_exact(gleam_otp, &Version::new(0, 10, 0)),
            dep_exact(simplifile, &Version::new(1, 7, 0)),
            dep_exact(ranger, &Version::new(1, 2, 0)),
            dep_exact(exception, &Version::new(2, 0, 0)),
            dep_exact(filepath, &Version::new(1, 0, 0)),
            dep_exact(gleam_json, &Version::new(1, 0, 1)),
            dep_exact(startest, &Version::new(0, 2, 4)),
            dep_exact(argv, &Version::new(1, 0, 2)),
            dep_exact(birl, &Version::new(1, 7, 0)),
        ]),
    );
    p.add_release(gleam_stdlib, Version::new(0, 38, 0), Some(vec![]));
    p.add_release(argv, Version::new(1, 0, 2), Some(vec![]));
    p.add_release(
        birl,
        Version::new(1, 7, 0),
        Some(vec![
            dep_between(gleam_stdlib, &Version::new(0, 37, 0), &Version::new(2, 0, 0)),
            dep_between(ranger, &Version::new(1, 2, 0), &Version::new(2, 0, 0)),
        ]),
    );
    p.add_release(
        bigben,
        Version::new(1, 0, 0),
        Some(vec![
            dep_between(gleam_otp, &Version::new(0, 10, 0), &Version::new(1, 0, 0)),
            dep_between(gleam_stdlib, &Version::new(0, 34, 0), &Version::new(2, 0, 0)),
            dep_between(gleam_erlang, &Version::new(0, 25, 0), &Version::new(1, 0, 0)),
            dep_between(birl, &Version::new(1, 6, 0), &Version::new(2, 0, 0)),
        ]),
    );
    p.add_release(
        gleam_javascript,
        Version::new(0, 8, 0),
        Some(vec![dep_between(gleam_stdlib, &Version::new(0, 19, 0), &Version::new(2, 0, 0))]),
    );
    p.add_release(
        gleam_community_colour,
        Version::new(1, 4, 0),
        Some(vec![
            dep_between(gleam_stdlib, &Version::new(0, 34, 0), &Version::new(1, 0, 0)),
            dep_between(gleam_json, &Version::new(0, 7, 0), &Version::new(2, 0, 0)),
        ]),
    );
    p.add_release(
        gleam_community_ansi,
        Version::new(1, 4, 0),
        Some(vec![
            dep_between(gleam_community_colour, &Version::new(1, 3, 0), &Version::new(2, 0, 0)),
            dep_between(gleam_stdlib, &Version::new(0, 34, 0), &Version::new(1, 0, 0)),
        ]),
    );
    p.add_release(
        gleam_erlang,
        Version::new(0, 25, 0),
        Some(vec![dep_between(gleam_stdlib, &Version::new(0, 33, 0), &Version::new(2, 0, 0))]),
    );
    p.add_release(
        tom,
        Version::new(0, 3, 0),
        Some(vec![dep_between(gleam_stdlib, &Version::new(0, 33, 0), &Version::new(1, 0, 0))]),
    );
    p.add_release(thoas, Version::new(1, 2, 1), Some(vec![]));
    p.add_release(
        glint,
        glint_rc2.clone(),
        Some(vec![
            dep_between(gleam_community_colour, &Version::new(1, 0, 0), &Version::new(2, 0, 0)),
            dep_between(gleam_community_ansi, &Version::new(1, 0, 0), &Version::new(2, 0, 0)),
            dep_between(snag, &Version::new(0, 3, 0), &Version::new(1, 0, 0)),
            dep_between(gleam_stdlib, &Version::new(0, 36, 0), &Version::new(2, 0, 0)),
        ]),
    );
    let mut wisp_minor: u64 = 1;
    while wisp_minor <= 14 {
        let wisp_deps = if metadata_gaps { None } else { Some(vec![]) };
        p.add_release(wisp, Version::new(0, wisp_minor, 0), wisp_deps);
        wisp_minor += 1;
    }
    p.add_release(
        snag,
        Version::new(0, 3, 0),
        Some(vec![dep_between(gleam_stdlib, &Version::new(0, 34, 0), &Version::new(1, 0, 0))]),
    );
    p.add_release(
        gleam_otp,
        Version::new(0, 10, 0),
        Some(vec![
            dep_between(gleam_erlang, &Version::new(0, 22, 0), &Version::new(1, 0, 0)),
            dep_between(gleam_stdlib, &Version::new(0, 32, 0), &Version::new(1, 0, 0)),
        ]),
    );
    p.add_release(
        exception,
        Version::new(2, 0, 0),
        Some(vec![dep_between(gleam_stdlib, &Version::new(0, 30, 0), &Version::new(2, 0, 0))]),
    );
    p.add_release(
        ranger,
        Version::new(1, 2, 0),
        Some(vec![dep_between(gleam_stdlib, &Version::new(0, 36, 0), &Version::new(2, 0, 0))]),
    );
    p.add_release(
        simplifile,
        Version::new(1, 7, 0),
        Some(vec![
            dep_between(filepath, &Version::new(1, 0, 0), &Version::new(2, 0, 0)),
            dep_between(gleam_stdlib, &Version::new(0, 34, 0), &Version::new(2, 0, 0)),
        ]),
    );
    p.add_release(
        filepath,
        Version::new(1, 0, 0),
        Some(vec![dep_between(gleam_stdlib, &Version::new(0, 32, 0), &Version::new(1, 0, 0))]),
    );
    p.add_release(
        startest,
        Version::new(0, 2, 4),
        Some(vec![
            dep_between(argv, &Version::new(1, 0, 2), &Version::new(2, 0, 0)),
            dep_between(gleam_stdlib, &Version::new(0, 36, 0), &Version::new(2, 0, 0)),
            dep_between(exception, &Version::new(2, 0, 0), &Version::new(3, 0, 0)),
            dep_between(simplifile, &Version::new(1, 7, 0), &Version::new(2, 0, 0)),
            dep_between(gleam_javascript, &Version::new(0, 8, 0), &Version::new(1, 0, 0)),
            dep_between(gleam_community_ansi, &Version::new(1, 4, 0), &Version::new(2, 0, 0)),
            dep_between(gleam_erlang, &Version::new(0, 25, 0), &Version::new(1, 0, 0)),
            dep_between(tom, &Version::new(0, 3, 0), &Version::new(1, 0, 0)),
            dep_between(glint, &glint_rc2, &glint_rc3),
            dep_between(bigben, &Version::new(1, 0, 0), &Version::new(2, 0, 0)),
            dep_between(birl, &Version::new(1, 6, 1), &Version::new(2, 0, 0)),
        ]),
    );
    let json_deps = if metadata_gaps { None } else { Some(vec![]) };
    p.add_release(gleam_json, Version::new(1, 0, 1), json_deps);

    Fixture { provider: p, root, root_version, glint, wisp, gleam_json }
}

#[test]
fn workspace_with_prerelease_pin_resolves() {
    let f = build_fixture(false);
    let result = resolve(&f.provider, f.root, &f.root_version);
    let sol = result.unwrap_or_else(|_| panic!("the workspace should resolve"));
    assert!(check_solution(&f.provider, f.root, &f.root_version, &sol));
    match &sol[f.glint] {
        Some(v) => assert!(v.same(&Version::new_pre(1, 0, 0, rc("rc2")))),
        None => panic!("glint must be assigned"),
    }
    match &sol[f.wisp] {
        Some(v) => assert!(v.same(&Version::new(0, 14, 0))),
        None => panic!("wisp must be assigned"),
    }
    match &sol[f.root] {
        Some(v) => assert!(v.same(&f.root_version)),
        None => panic!("the root must be assigned"),
    }
}

#[test]
fn workspace_with_metadata_gaps_stops_at_the_provider() {
    // with the two gapped packages left without dependency metadata, the run
    // must surface the gap rather than fail, backtrack around it, or succeed
    let f = build_fixture(true);
    let result = resolve(&f.provider, f.root, &f.root_version);
    match result {
        Err(ResolutionError::ProviderUnavailable { pkg, version: _ }) => {
            assert!(pkg == f.wisp || pkg == f.gleam_json);
        }
        _ => panic!("expected the metadata gap to surface"),
    }
}
