//! The dependency provider: per-package available versions and, per
//! registered version, its declared dependency ranges (or "unknown" when the
//! metadata could not be produced).
//!
//! Packages are identified by the index the provider assigned when they were
//! added. This module also defines what it means for an assignment of
//! versions to packages to be a valid solution of a provider's constraints;
//! the solver's contracts are stated against that definition.

use vstd::prelude::*;

use crate::range::{range_contains, range_wf, IntervalView, Range};
use crate::version::ver_le;
use crate::version::{ver_wf, Version, VersionView};

verus! {

/// One declared dependency: a package and the admitted range.
pub struct Dep {
    pub pkg: usize,
    pub range: Range,
}

/// Mathematical model of a dependency.
#[verifier::ext_equal]
pub struct DepView {
    pub pkg: int,
    pub range: Seq<IntervalView>,
}

impl View for Dep {
    type V = DepView;

    open spec fn view(&self) -> DepView {
        DepView { pkg: self.pkg as int, range: self.range@ }
    }
}

/// One registered version of a package, with its declared dependencies, or
/// `None` when the provider cannot produce that version's metadata.
pub struct Release {
    pub version: Version,
    pub deps: Option<Vec<Dep>>,
}

/// Mathematical model of a registered version.
#[verifier::ext_equal]
pub struct ReleaseView {
    pub version: VersionView,
    pub deps: Option<Seq<DepView>>,
}

pub open spec fn deps_view(ds: Seq<Dep>) -> Seq<DepView> {
    Seq::new(ds.len(), |i: int| ds[i]@)
}

impl View for Release {
    type V = ReleaseView;

    open spec fn view(&self) -> ReleaseView {
        ReleaseView {
            version: self.version@,
            deps: match self.deps {
                Some(ds) => Some(deps_view(ds@)),
                None => None,
            },
        }
    }
}

/// The registered versions of one package.
pub struct PackageData {
    pub releases: Vec<Release>,
}

pub open spec fn releases_view(rs: Seq<Release>) -> Seq<ReleaseView> {
    Seq::new(rs.len(), |i: int| rs[i]@)
}

/// The in-memory dependency provider.
pub struct Provider {
    pub pkgs: Vec<PackageData>,
}

impl View for Provider {
    type V = Seq<Seq<ReleaseView>>;

    open spec fn view(&self) -> Seq<Seq<ReleaseView>> {
        Seq::new(self.pkgs@.len(), |k: int| releases_view(self.pkgs@[k].releases@))
    }
}

/// How many of the first `m` registered versions lie in the range.
pub open spec fn count_matching_prefix(
    rs: Seq<ReleaseView>,
    range: Seq<IntervalView>,
    m: int,
) -> nat
    decreases m,
{
    if m <= 0 {
        0
    } else {
        count_matching_prefix(rs, range, m - 1) + (if range_contains(range, rs[m - 1].version) {
            1nat
        } else {
            0nat
        })
    }
}

/// How many of a package's registered versions lie in the range.
pub open spec fn count_matching(rs: Seq<ReleaseView>, range: Seq<IntervalView>) -> nat {
    count_matching_prefix(rs, range, rs.len() as int)
}

/// `v` is one of the provider's known versions of package `k`.
pub open spec fn listed(p: Seq<Seq<ReleaseView>>, k: int, v: VersionView) -> bool {
    exists|m: int| 0 <= m < p[k].len() && (#[trigger] p[k][m]).version == v
}

/// Well-formed provider data: every dependency names a known package with a
/// normalized range, versions are well formed, and no package registers the
/// same version twice.
pub open spec fn provider_wf(p: Seq<Seq<ReleaseView>>) -> bool {
    forall|k: int| 0 <= k < p.len() ==> pkg_data_wf(p, #[trigger] p[k])
}

pub open spec fn pkg_data_wf(p: Seq<Seq<ReleaseView>>, rs: Seq<ReleaseView>) -> bool {
    (forall|m: int| 0 <= m < rs.len() ==> release_wf(p, #[trigger] rs[m])) && (forall|m1: int, m2: int|
        0 <= m1 < m2 < rs.len() ==> (#[trigger] rs[m1]).version != (#[trigger] rs[m2]).version)
}

pub open spec fn release_wf(p: Seq<Seq<ReleaseView>>, r: ReleaseView) -> bool {
    ver_wf(r.version) && (r.version.pre.len() == 0 ==> r.version.patch < u64::MAX) && match r.deps {
        Some(ds) => forall|d: int|
            0 <= d < ds.len() ==> 0 <= (#[trigger] ds[d]).pkg < p.len() && range_wf(ds[d].range),
        None => true,
    }
}

/// One dependency is met by the assignment.
pub open spec fn dep_sat(sol: Seq<Option<VersionView>>, d: DepView) -> bool {
    0 <= d.pkg < sol.len() && sol[d.pkg] is Some && range_contains(d.range, sol[d.pkg]->Some_0)
}

/// All of a version's declared dependencies are met by the assignment.
pub open spec fn deps_sat(sol: Seq<Option<VersionView>>, ds: Seq<DepView>) -> bool {
    forall|d: int| 0 <= d < ds.len() ==> dep_sat(sol, #[trigger] ds[d])
}

/// The assigned version of package `k` is a known version whose metadata is
/// known and whose dependencies are all met.
pub open spec fn pkg_sol_ok(
    p: Seq<Seq<ReleaseView>>,
    sol: Seq<Option<VersionView>>,
    k: int,
) -> bool {
    exists|m: int|
        0 <= m < p[k].len() && (#[trigger] p[k][m]).version == sol[k]->Some_0 && p[k][m].deps
            is Some && deps_sat(sol, p[k][m].deps->Some_0)
}

/// A valid solution: one version per assigned package, the root pinned to
/// the requested version, and every assigned package a known version whose
/// known dependencies are all assigned within their ranges.
pub open spec fn valid_solution(
    p: Seq<Seq<ReleaseView>>,
    root: int,
    rv: VersionView,
    sol: Seq<Option<VersionView>>,
) -> bool {
    sol.len() == p.len() && 0 <= root < p.len() && sol[root] == Some(rv) && (forall|k: int|
        0 <= k < sol.len() && (#[trigger] sol[k]) is Some ==> pkg_sol_ok(p, sol, k))
}

impl Provider {
    /// An empty provider: no packages.
    pub fn new() -> (out: Provider)
        ensures
            out@.len() == 0,
            provider_wf(out@),
    {
        let out = Provider { pkgs: Vec::new() };
        proof {
            assert(out@ =~= Seq::<Seq<ReleaseView>>::empty());
        }
        out
    }

    /// The number of known packages.
    pub fn len(&self) -> (n: usize)
        ensures
            n == self@.len(),
    {
        self.pkgs.len()
    }

    /// Register a new package, with no versions yet; returns its identifier.
    pub fn add_package(&mut self) -> (id: usize)
        ensures
            id == old(self)@.len(),
            final(self)@ == old(self)@.push(Seq::<ReleaseView>::empty()),
            provider_wf(old(self)@) ==> provider_wf(final(self)@),
    {
        let id = self.pkgs.len();
        self.pkgs.push(PackageData { releases: Vec::new() });
        proof {
            assert(final(self)@ =~~= old(self)@.push(Seq::<ReleaseView>::empty()));
            if provider_wf(old(self)@) {
                assert forall|k: int|
                    0 <= k < final(self)@.len() implies pkg_data_wf(
                    final(self)@,
                    #[trigger] final(self)@[k],
                ) by {
                    if k < old(self)@.len() {
                        assert(pkg_data_wf(old(self)@, old(self)@[k]));
                        assert(final(self)@[k] == old(self)@[k]);
                        assert forall|m: int|
                            0 <= m < final(self)@[k].len() implies release_wf(
                            final(self)@,
                            #[trigger] final(self)@[k][m],
                        ) by {
                            assert(release_wf(old(self)@, old(self)@[k][m]));
                        }
                    } else {
                        assert(final(self)@[k].len() == 0);
                    }
                }
            }
        }
        id
    }

    /// Register a version of a package, with its declared dependencies
    /// (`None` meaning the metadata is unavailable). Each version of a
    /// package is registered at most once.
    pub fn add_release(&mut self, pkg: usize, version: Version, deps: Option<Vec<Dep>>)
        requires
            pkg < old(self)@.len(),
            !listed(old(self)@, pkg as int, version@),
            version.pre@.len() == 0 ==> version.patch < u64::MAX,
            forall|d: int|
                0 <= d < dep_list_view(deps).len() ==> 0 <= (#[trigger] dep_list_view(deps)[d]).pkg
                    < old(self)@.len() && range_wf(dep_list_view(deps)[d].range),
        ensures
            final(self)@.len() == old(self)@.len(),
            final(self)@ == old(self)@.update(
                pkg as int,
                old(self)@[pkg as int].push(
                    ReleaseView {
                        version: version@,
                        deps: match deps {
                            Some(ds) => Some(deps_view(ds@)),
                            None => None,
                        },
                    },
                ),
            ),
            provider_wf(old(self)@) ==> provider_wf(final(self)@),
    {
        let ghost oldp = self@;
        let ghost rv = ReleaseView {
            version: version@,
            deps: match &deps {
                Some(ds) => Some(deps_view(ds@)),
                None => None,
            },
        };
        proof {
            crate::version::lemma_version_view_wf(&version);
            assert(release_wf(oldp, rv)) by {
                match rv.deps {
                    Some(ds) => {
                        assert(ds == dep_list_view(deps));
                    }
                    None => {}
                }
            }
        }
        let entry = Release { version, deps };
        let data = &mut self.pkgs[pkg];
        data.releases.push(entry);
        proof {
            assert(final(self)@ =~~= oldp.update(pkg as int, oldp[pkg as int].push(rv))) by {
                assert forall|k: int|
                    0 <= k < final(self)@.len() implies final(self)@[k] =~= oldp.update(
                    pkg as int,
                    oldp[pkg as int].push(rv),
                )[k] by {
                    if k == pkg as int {
                        assert(final(self)@[k] =~= oldp[k].push(rv));
                    } else {
                        assert(final(self)@[k] =~= oldp[k]);
                    }
                }
            }
            if provider_wf(oldp) {
                lemma_update_push_wf(oldp, final(self)@, pkg as int, rv);
            }
        }
    }

    /// How many versions of a package are registered.
    pub fn release_count(&self, pkg: usize) -> (n: usize)
        requires
            pkg < self@.len(),
        ensures
            n == self@[pkg as int].len(),
    {
        self.pkgs[pkg].releases.len()
    }

    /// The registered version at one slot of a package's list.
    pub fn release_version(&self, pkg: usize, m: usize) -> (v: Version)
        requires
            pkg < self@.len(),
            m < self@[pkg as int].len(),
        ensures
            v@ == self@[pkg as int][m as int].version,
    {
        self.pkgs[pkg].releases[m].version.clone()
    }

    /// The declared dependencies at one slot of a package's list, or `None`
    /// when that version's metadata is unavailable.
    pub fn release_deps(&self, pkg: usize, m: usize) -> (r: Option<Vec<Dep>>)
        requires
            pkg < self@.len(),
            m < self@[pkg as int].len(),
        ensures
            match r {
                Some(ds) => self@[pkg as int][m as int].deps == Some(deps_view(ds@)),
                None => self@[pkg as int][m as int].deps is None,
            },
    {
        match &self.pkgs[pkg].releases[m].deps {
            None => None,
            Some(ds) => {
                let mut out: Vec<Dep> = Vec::new();
                let mut i: usize = 0;
                while i < ds.len()
                    invariant
                        0 <= i <= ds@.len(),
                        out@.len() == i,
                        forall|k: int| 0 <= k < i ==> out@[k]@ == #[trigger] ds@[k]@,
                    decreases ds@.len() - i,
                {
                    let d = &ds[i];
                    out.push(Dep { pkg: d.pkg, range: d.range.clone() });
                    i = i + 1;
                }
                proof {
                    assert(deps_view(out@) =~= deps_view(ds@));
                }
                Some(out)
            }
        }
    }

    /// The slot of the newest registered version of `pkg` inside `range`, if
    /// any version of the package lies in it.
    pub fn newest_in(&self, pkg: usize, range: &Range) -> (r: Option<usize>)
        requires
            pkg < self@.len(),
        ensures
            match r {
                Some(m) => m < self@[pkg as int].len() && range_contains(
                    range@,
                    self@[pkg as int][m as int].version,
                ) && forall|m2: int|
                    0 <= m2 < self@[pkg as int].len() && range_contains(
                        range@,
                        (#[trigger] self@[pkg as int][m2]).version,
                    ) ==> crate::version::ver_le(
                        self@[pkg as int][m2].version,
                        self@[pkg as int][m as int].version,
                    ),
                None => forall|m2: int|
                    0 <= m2 < self@[pkg as int].len() ==> !range_contains(
                        range@,
                        (#[trigger] self@[pkg as int][m2]).version,
                    ),
            },
    {
        let rs = &self.pkgs[pkg].releases;
        let mut best: Option<usize> = None;
        let mut i: usize = 0;
        while i < rs.len()
            invariant
                pkg < self@.len(),
                rs@ == self.pkgs@[pkg as int].releases@,
                self@[pkg as int].len() == rs@.len(),
                forall|k: int| 0 <= k < rs@.len() ==> #[trigger] self@[pkg as int][k] == rs@[k]@,
                0 <= i <= rs@.len(),
                match best {
                    Some(m) => m < i && range_contains(range@, self@[pkg as int][m as int].version)
                        && forall|m2: int|
                        0 <= m2 < i && range_contains(
                            range@,
                            (#[trigger] self@[pkg as int][m2]).version,
                        ) ==> crate::version::ver_le(
                            self@[pkg as int][m2].version,
                            self@[pkg as int][m as int].version,
                        ),
                    None => forall|m2: int|
                        0 <= m2 < i ==> !range_contains(
                            range@,
                            (#[trigger] self@[pkg as int][m2]).version,
                        ),
                },
            decreases rs@.len() - i,
        {
            let v = &rs[i].version;
            if range.contains(v) {
                let ghost prev = best;
                match best {
                    None => {
                        best = Some(i);
                    }
                    Some(b) => {
                        let bv = &rs[b].version;
                        if bv.lt(v) {
                            best = Some(i);
                        }
                    }
                }
                proof {
                    let m = best->Some_0 as int;
                    assert forall|m2: int|
                        0 <= m2 < i + 1 && range_contains(
                            range@,
                            (#[trigger] self@[pkg as int][m2]).version,
                        ) implies crate::version::ver_le(
                        self@[pkg as int][m2].version,
                        self@[pkg as int][m].version,
                    ) by {
                        match prev {
                            None => {
                                // nothing before i lay in the range
                            }
                            Some(b) => {
                                let bver = self@[pkg as int][b as int].version;
                                let iver = self@[pkg as int][i as int].version;
                                crate::version::lemma_ver_conn(bver, iver);
                                if m2 < i {
                                    if crate::version::ver_lt(bver, iver) {
                                        // new best: earlier candidates are at
                                        // most the previous best
                                        crate::range::lemma_le_lt_trans(
                                            self@[pkg as int][m2].version,
                                            bver,
                                            iver,
                                        );
                                    }
                                }
                            }
                        }
                    }
                }
            }
            i = i + 1;
        }
        best
    }

    /// How many registered versions of `pkg` lie in `range`: exactly the
    /// count that orders decision candidates (fewest matching versions
    /// first).
    pub fn count_in(&self, pkg: usize, range: &Range) -> (n: usize)
        requires
            pkg < self@.len(),
        ensures
            n == count_matching(self@[pkg as int], range@),
    {
        let ghost rv = self@[pkg as int];
        let rs = &self.pkgs[pkg].releases;
        let mut n: usize = 0;
        let mut i: usize = 0;
        while i < rs.len()
            invariant
                pkg < self@.len(),
                rv == self@[pkg as int],
                rs@ == self.pkgs@[pkg as int].releases@,
                rv.len() == rs@.len(),
                forall|k: int| 0 <= k < rs@.len() ==> #[trigger] rv[k] == rs@[k]@,
                0 <= i <= rs@.len(),
                n == count_matching_prefix(rv, range@, i as int),
                n <= i,
            decreases rs@.len() - i,
        {
            proof {
                assert(rv[i as int] == rs@[i as int]@);
            }
            if range.contains(&rs[i].version) {
                n = n + 1;
            }
            i = i + 1;
        }
        proof {
            assert(count_matching(rv, range@) == count_matching_prefix(rv, range@, rv.len() as int));
        }
        n
    }
}

/// Appending a well-formed release to a package of a well-formed provider
/// keeps the provider well formed, provided the version is new.
proof fn lemma_update_push_wf(
    oldp: Seq<Seq<ReleaseView>>,
    newp: Seq<Seq<ReleaseView>>,
    pkg: int,
    rv: ReleaseView,
)
    requires
        provider_wf(oldp),
        0 <= pkg < oldp.len(),
        !listed(oldp, pkg, rv.version),
        release_wf(oldp, rv),
        newp == oldp.update(pkg, oldp[pkg].push(rv)),
    ensures
        provider_wf(newp),
{
    assert(newp.len() == oldp.len());
    assert forall|k: int| 0 <= k < newp.len() implies pkg_data_wf(newp, #[trigger] newp[k]) by {
        assert(pkg_data_wf(oldp, oldp[k]));
        assert forall|m: int|
            0 <= m < newp[k].len() implies release_wf(newp, #[trigger] newp[k][m]) by {
            if k == pkg && m == newp[k].len() - 1 {
                assert(newp[k][m] == rv);
                assert(release_wf(newp, rv)) by {
                    match rv.deps {
                        Some(ds) => {
                            assert(forall|d: int|
                                0 <= d < ds.len() ==> 0 <= (#[trigger] ds[d]).pkg < oldp.len()
                                    && range_wf(ds[d].range));
                        }
                        None => {}
                    }
                }
            } else {
                assert(newp[k][m] == oldp[k][m]);
                assert(release_wf(oldp, oldp[k][m]));
                assert(release_wf(newp, oldp[k][m])) by {
                    match oldp[k][m].deps {
                        Some(ds) => {
                            assert(forall|d: int|
                                0 <= d < ds.len() ==> 0 <= (#[trigger] ds[d]).pkg < oldp.len()
                                    && range_wf(ds[d].range));
                        }
                        None => {}
                    }
                }
            }
        }
        if k == pkg {
            assert forall|m1: int, m2: int|
                0 <= m1 < m2 < newp[k].len() implies (#[trigger] newp[k][m1]).version != (
            #[trigger] newp[k][m2]).version by {
                if m2 == newp[k].len() - 1 {
                    assert(newp[k][m1] == oldp[k][m1]);
                    if oldp[k][m1].version == rv.version {
                        assert(listed(oldp, k, rv.version));
                    }
                } else {
                    assert(newp[k][m1] == oldp[k][m1]);
                    assert(newp[k][m2] == oldp[k][m2]);
                }
            }
        } else {
            assert(newp[k] == oldp[k]);
        }
    }
}

/// The models of an optional dependency list (empty when unknown).
pub open spec fn dep_list_view(deps: Option<Vec<Dep>>) -> Seq<DepView> {
    match deps {
        Some(ds) => deps_view(ds@),
        None => Seq::empty(),
    }
}

/// One registered version with an unavailable dependency list read as an
/// empty one.
pub open spec fn release_gap_as_empty(r: ReleaseView) -> ReleaseView {
    ReleaseView {
        version: r.version,
        deps: if r.deps is Some {
            r.deps
        } else {
            Some(Seq::empty())
        },
    }
}

/// The provider with every unavailable dependency list read as an empty
/// one: what the problem looks like if each metadata gap were benign.
pub open spec fn gaps_as_empty(p: Seq<Seq<ReleaseView>>) -> Seq<Seq<ReleaseView>> {
    Seq::new(p.len(), |k: int| Seq::new(p[k].len(), |m: int| release_gap_as_empty(p[k][m])))
}

/// Reading gaps as empty keeps the provider well formed: versions and
/// dependency targets are unchanged.
pub proof fn lemma_gaps_as_empty_wf(p: Seq<Seq<ReleaseView>>)
    requires
        provider_wf(p),
    ensures
        provider_wf(gaps_as_empty(p)),
        gaps_as_empty(p).len() == p.len(),
        forall|k: int| 0 <= k < p.len() ==> (#[trigger] gaps_as_empty(p)[k]).len() == p[k].len(),
{
    let q = gaps_as_empty(p);
    assert forall|k: int| 0 <= k < q.len() implies pkg_data_wf(q, #[trigger] q[k]) by {
        assert(pkg_data_wf(p, p[k]));
        assert forall|m: int| 0 <= m < q[k].len() implies release_wf(q, #[trigger] q[k][m]) by {
            assert(q[k][m] == release_gap_as_empty(p[k][m]));
            assert(release_wf(p, p[k][m]));
            match p[k][m].deps {
                Some(ds) => {
                    assert(forall|d: int|
                        0 <= d < ds.len() ==> 0 <= (#[trigger] ds[d]).pkg < p.len() && range_wf(
                            ds[d].range,
                        ));
                }
                None => {}
            }
        }
        assert forall|m1: int, m2: int|
            0 <= m1 < m2 < q[k].len() implies (#[trigger] q[k][m1]).version != (#[trigger] q[k][m2]).version by {
            assert(q[k][m1] == release_gap_as_empty(p[k][m1]));
            assert(q[k][m2] == release_gap_as_empty(p[k][m2]));
        }
    }
}

/// Every assigned version in the assignment is a well-formed version model.
pub open spec fn sol_wf(sol: Seq<Option<VersionView>>) -> bool {
    forall|k: int| 0 <= k < sol.len() && (#[trigger] sol[k]) is Some ==> ver_wf(sol[k]->Some_0)
}

/// A valid solution of a well-formed provider assigns only well-formed
/// versions (each assigned version is one of the provider's known versions).
pub proof fn lemma_valid_sol_wf(
    p: Seq<Seq<ReleaseView>>,
    root: int,
    rv: VersionView,
    sol: Seq<Option<VersionView>>,
)
    requires
        provider_wf(p),
        valid_solution(p, root, rv, sol),
    ensures
        sol_wf(sol),
{
    assert forall|k: int|
        0 <= k < sol.len() && (#[trigger] sol[k]) is Some implies ver_wf(sol[k]->Some_0) by {
        assert(pkg_sol_ok(p, sol, k));
        let m = choose|m: int|
            0 <= m < p[k].len() && (#[trigger] p[k][m]).version == sol[k]->Some_0 && p[k][m].deps
                is Some && deps_sat(sol, p[k][m].deps->Some_0);
        assert(pkg_data_wf(p, p[k]));
        assert(release_wf(p, p[k][m]));
    }
}

} // verus!
