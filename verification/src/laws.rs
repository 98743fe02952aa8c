//! The algebraic laws of the library, stated and proved once and for all.
//!
//! These are the general facts that hold of every input: the boundary
//! behaviour of exact ranges and of the successor operation, the partition
//! produced by a range and its complement, and the monotonicity of
//! solvability under relaxed dependency ranges.

use vstd::prelude::*;

use crate::provider::{
    dep_sat, deps_sat, pkg_sol_ok, valid_solution, DepView, ReleaseView,
};
use crate::range::{
    iv_contains, lemma_above_not_contained, range_contains, range_wf, IntervalView,
};
use crate::version::{
    bump_view, lemma_bump_above, lemma_ver_asym, ver_le, ver_lt, ver_wf, VersionView,
};

verus! {

/// Law: an exact range admits no version other than its own. In particular,
/// for versions `a < b`, the exact range of `a` does not contain `b`.
pub proof fn lemma_exact_excludes_other(a: VersionView, b: VersionView, r: Seq<IntervalView>)
    requires
        forall|w: VersionView| ver_wf(w) ==> (range_contains(r, w) <==> w == a),
        ver_lt(a, b),
        ver_wf(b),
    ensures
        !range_contains(r, b),
{
    lemma_ver_asym(a, b);
}

/// Law: the successor crosses an inclusive upper bound. A range whose last
/// interval closes exactly above `v` (at `bump(v)`) contains `v` at or above
/// its start, but never `bump(v)`: containment of `v` and of `bump(v)`
/// differ at such a bound.
pub proof fn lemma_bump_crosses_bound(r: Seq<IntervalView>, v: VersionView)
    requires
        range_wf(r),
        r.len() > 0,
        ver_wf(v),
        r[r.len() - 1].hi == Some(bump_view(v)),
        ver_le(r[r.len() - 1].lo, v),
    ensures
        range_contains(r, v),
        !range_contains(r, bump_view(v)),
{
    let last = r.len() - 1;
    lemma_bump_above(v);
    assert(iv_contains(r[last], v));
    lemma_above_not_contained(r, bump_view(v), last);
    if range_contains(r, bump_view(v)) {
        let j = choose|j: int| 0 <= j < r.len() && iv_contains(#[trigger] r[j], bump_view(v));
        assert(!iv_contains(r[j], bump_view(v)));
    }
}

/// Law: a range and its complement together cover every version.
pub proof fn lemma_union_with_complement_is_any(
    r: Seq<IntervalView>,
    c: Seq<IntervalView>,
    u: Seq<IntervalView>,
)
    requires
        forall|v: VersionView| ver_wf(v) ==> (range_contains(c, v) <==> !range_contains(r, v)),
        forall|v: VersionView|
            ver_wf(v) ==> (range_contains(u, v) <==> (range_contains(r, v) || range_contains(
                c,
                v,
            ))),
    ensures
        forall|v: VersionView| ver_wf(v) ==> range_contains(u, v),
{
}

/// Law: a range and its complement share no version.
pub proof fn lemma_intersect_with_complement_is_none(
    r: Seq<IntervalView>,
    c: Seq<IntervalView>,
    x: Seq<IntervalView>,
)
    requires
        forall|v: VersionView| ver_wf(v) ==> (range_contains(c, v) <==> !range_contains(r, v)),
        forall|v: VersionView|
            ver_wf(v) ==> (range_contains(x, v) <==> (range_contains(r, v) && range_contains(
                c,
                v,
            ))),
    ensures
        forall|v: VersionView| ver_wf(v) ==> !range_contains(x, v),
{
}

/// One release relaxed: the same version, the same dependency targets, each
/// admitted range at least as wide.
pub open spec fn release_widens(x: ReleaseView, y: ReleaseView) -> bool {
    x.version == y.version && match (x.deps, y.deps) {
        (Option::None, Option::None) => true,
        (Option::Some(dx), Option::Some(dy)) => dx.len() == dy.len() && (forall|d: int|
            0 <= d < dx.len() ==> dep_widens(#[trigger] dx[d], dy[d])),
        _ => false,
    }
}

pub open spec fn dep_widens(x: DepView, y: DepView) -> bool {
    x.pkg == y.pkg && (forall|v: VersionView|
        range_contains(x.range, v) ==> #[trigger] range_contains(y.range, v))
}

/// One provider relaxed: the same packages and versions, every declared
/// dependency range at least as wide.
pub open spec fn provider_widens(p1: Seq<Seq<ReleaseView>>, p2: Seq<Seq<ReleaseView>>) -> bool {
    p1.len() == p2.len() && (forall|k: int|
        0 <= k < p1.len() ==> (#[trigger] p1[k]).len() == p2[k].len() && (forall|m: int|
            0 <= m < p1[k].len() ==> release_widens(#[trigger] p1[k][m], p2[k][m])))
}

/// Law: relaxing dependency ranges preserves every valid solution: an
/// assignment that solved the stricter provider solves the relaxed one.
pub proof fn lemma_relaxation_preserves_solutions(
    p1: Seq<Seq<ReleaseView>>,
    p2: Seq<Seq<ReleaseView>>,
    root: int,
    rv: VersionView,
    sol: Seq<Option<VersionView>>,
)
    requires
        provider_widens(p1, p2),
        valid_solution(p1, root, rv, sol),
    ensures
        valid_solution(p2, root, rv, sol),
{
    assert forall|k: int|
        0 <= k < sol.len() && (#[trigger] sol[k]) is Some implies pkg_sol_ok(p2, sol, k) by {
        assert(pkg_sol_ok(p1, sol, k));
        let m = choose|m: int|
            0 <= m < p1[k].len() && (#[trigger] p1[k][m]).version == sol[k]->Some_0 && p1[k][m].deps
                is Some && deps_sat(sol, p1[k][m].deps->Some_0);
        assert(release_widens(p1[k][m], p2[k][m]));
        let dx = p1[k][m].deps->Some_0;
        let dy = p2[k][m].deps->Some_0;
        assert(deps_sat(sol, dy)) by {
            assert forall|d: int| 0 <= d < dy.len() implies dep_sat(sol, #[trigger] dy[d]) by {
                assert(dep_sat(sol, dx[d]));
                assert(dep_widens(dx[d], dy[d]));
                assert(range_contains(dy[d].range, sol[dy[d].pkg]->Some_0));
            }
        }
        assert(p2[k][m].version == sol[k]->Some_0 && p2[k][m].deps is Some && deps_sat(
            sol,
            p2[k][m].deps->Some_0,
        ));
    }
}

/// Law (monotonicity of solvability): relaxing a dependency range never
/// turns a solvable problem unsatisfiable. Together with the solver's
/// contract — an `Unsatisfiable` outcome proves that no valid solution
/// exists — a resolution that succeeded cannot start failing after a
/// constraint is widened.
pub proof fn lemma_relaxation_keeps_solvable(
    p1: Seq<Seq<ReleaseView>>,
    p2: Seq<Seq<ReleaseView>>,
    root: int,
    rv: VersionView,
)
    requires
        provider_widens(p1, p2),
        exists|sol: Seq<Option<VersionView>>| valid_solution(p1, root, rv, sol),
    ensures
        exists|sol: Seq<Option<VersionView>>| valid_solution(p2, root, rv, sol),
{
    let sol = choose|sol: Seq<Option<VersionView>>| valid_solution(p1, root, rv, sol);
    lemma_relaxation_preserves_solutions(p1, p2, root, rv, sol);
}

} // verus!
