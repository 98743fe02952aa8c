//! Incompatibilities: sets of terms for different packages that can never
//! all hold at once.
//!
//! Every incompatibility the solver stores is *entailed* by the provider's
//! data: no valid solution satisfies all its terms. External
//! incompatibilities come from the root pin, from a package's declared
//! dependencies, and from ranges with no known version; derived ones come
//! from resolving two incompatibilities during conflict analysis. The lemmas
//! here establish entailment for each construction, so that deriving the
//! empty incompatibility proves the whole problem unsatisfiable.

use vstd::prelude::*;

use crate::provider::{
    deps_sat, lemma_valid_sol_wf, pkg_data_wf, pkg_sol_ok, provider_wf, release_wf, sol_wf,
    valid_solution, ReleaseView,
};
use crate::range::range_contains;
use crate::term::{
    lemma_term_ok_intersect, lemma_term_ok_union, slot_wf, term_den, term_ok, term_wf, Term,
    TermView,
};
use crate::version::{ver_wf, VersionView};

verus! {

/// One term of an incompatibility: a statement about one package.
pub struct PkgTerm {
    pub pkg: usize,
    pub term: Term,
}

/// Mathematical model of an incompatibility term.
#[verifier::ext_equal]
pub struct PkgTermView {
    pub pkg: int,
    pub term: TermView,
}

impl View for PkgTerm {
    type V = PkgTermView;

    open spec fn view(&self) -> PkgTermView {
        PkgTermView { pkg: self.pkg as int, term: self.term@ }
    }
}

/// Why an incompatibility holds: recorded for diagnostics of an
/// unsatisfiable outcome.
pub enum Cause {
    /// The root package must be the requested version.
    Root,
    /// No known version of the package lies in the range.
    NoVersions,
    /// A package version declares a dependency.
    Dependency,
    /// Resolved from two earlier incompatibilities (indexes into the store).
    Derived(usize, usize),
}

/// A set of terms that can never all hold at once.
pub struct Incompat {
    pub terms: Vec<PkgTerm>,
    pub cause: Cause,
}

pub open spec fn pts_view(s: Seq<PkgTerm>) -> Seq<PkgTermView> {
    Seq::new(s.len(), |i: int| s[i]@)
}

impl View for Incompat {
    type V = Seq<PkgTermView>;

    open spec fn view(&self) -> Seq<PkgTermView> {
        pts_view(self.terms@)
    }
}

/// Terms name known packages and carry normalized ranges.
pub open spec fn inc_wf(npkgs: int, inc: Seq<PkgTermView>) -> bool {
    forall|i: int|
        0 <= i < inc.len() ==> 0 <= (#[trigger] inc[i]).pkg < npkgs && term_wf(inc[i].term)
}

/// The assignment satisfies this one term.
pub open spec fn term_ok_at(sol: Seq<Option<VersionView>>, pt: PkgTermView) -> bool {
    0 <= pt.pkg < sol.len() && term_ok(sol[pt.pkg], pt.term)
}

/// The assignment satisfies every term of the incompatibility.
pub open spec fn sat_all(sol: Seq<Option<VersionView>>, inc: Seq<PkgTermView>) -> bool {
    forall|i: int| 0 <= i < inc.len() ==> term_ok_at(sol, #[trigger] inc[i])
}

/// The incompatibility is entailed by the provider's data: no valid solution
/// satisfies all its terms.
pub open spec fn entailed(
    p: Seq<Seq<ReleaseView>>,
    root: int,
    rv: VersionView,
    inc: Seq<PkgTermView>,
) -> bool {
    forall|sol: Seq<Option<VersionView>>|
        valid_solution(p, root, rv, sol) ==> !(#[trigger] sat_all(sol, inc))
}

/// An entailed incompatibility with no terms proves the problem
/// unsatisfiable.
pub proof fn lemma_empty_unsat(
    p: Seq<Seq<ReleaseView>>,
    root: int,
    rv: VersionView,
    inc: Seq<PkgTermView>,
)
    requires
        entailed(p, root, rv, inc),
        inc.len() == 0,
    ensures
        forall|sol: Seq<Option<VersionView>>| !valid_solution(p, root, rv, sol),
{
    assert forall|sol: Seq<Option<VersionView>>| !valid_solution(p, root, rv, sol) by {
        assert(sat_all(sol, inc));
    }
}

/// An entailed incompatibility whose single term the pinned root version
/// satisfies also proves the problem unsatisfiable.
pub proof fn lemma_terminal_unsat(
    p: Seq<Seq<ReleaseView>>,
    root: int,
    rv: VersionView,
    inc: Seq<PkgTermView>,
)
    requires
        entailed(p, root, rv, inc),
        inc.len() == 1,
        inc[0].pkg == root,
        term_den(inc[0].term, rv),
    ensures
        forall|sol: Seq<Option<VersionView>>| !valid_solution(p, root, rv, sol),
{
    assert forall|sol: Seq<Option<VersionView>>| !valid_solution(p, root, rv, sol) by {
        if valid_solution(p, root, rv, sol) {
            assert(sol[root] == Some(rv));
            assert(term_ok_at(sol, inc[0]));
            assert(sat_all(sol, inc));
        }
    }
}

/// The root incompatibility is entailed: a valid solution pins the root, so
/// "the root version is not in the exact range" never holds.
pub proof fn lemma_root_entailed(
    p: Seq<Seq<ReleaseView>>,
    root: int,
    rv: VersionView,
    inc: Seq<PkgTermView>,
)
    requires
        ver_wf(rv),
        !inc[0].term.positive,
        forall|w: VersionView| ver_wf(w) ==> (range_contains(inc[0].term.range, w) <==> w == rv),
        inc.len() == 1,
        inc[0].pkg == root,
    ensures
        entailed(p, root, rv, inc),
{
    assert forall|sol: Seq<Option<VersionView>>|
        valid_solution(p, root, rv, sol) implies !sat_all(sol, inc) by {
        if sat_all(sol, inc) {
            assert(term_ok_at(sol, inc[0]));
            assert(sol[root] == Some(rv));
            assert(range_contains(inc[0].term.range, rv));
        }
    }
}

/// A "no versions" incompatibility is entailed: a valid solution assigns
/// only known versions, and no known version lies in the range.
pub proof fn lemma_noversions_entailed(
    p: Seq<Seq<ReleaseView>>,
    root: int,
    rv: VersionView,
    inc: Seq<PkgTermView>,
    k: int,
)
    requires
        0 <= k < p.len(),
        inc.len() == 1,
        inc[0].pkg == k,
        inc[0].term.positive,
        forall|m: int|
            0 <= m < p[k].len() ==> !range_contains(inc[0].term.range, (#[trigger] p[k][m]).version),
    ensures
        entailed(p, root, rv, inc),
{
    assert forall|sol: Seq<Option<VersionView>>|
        valid_solution(p, root, rv, sol) implies !sat_all(sol, inc) by {
        if sat_all(sol, inc) {
            assert(term_ok_at(sol, inc[0]));
            // a positive term needs an assigned version inside the range
            assert(sol[k] is Some);
            assert(range_contains(inc[0].term.range, sol[k]->Some_0));
            assert(pkg_sol_ok(p, sol, k));
            let m = choose|m: int|
                0 <= m < p[k].len() && (#[trigger] p[k][m]).version == sol[k]->Some_0 && p[k][m].deps
                    is Some && deps_sat(sol, p[k][m].deps->Some_0);
            assert(!range_contains(inc[0].term.range, p[k][m].version));
        }
    }
}

/// A dependency incompatibility is entailed: a valid solution that assigns
/// `k` the version of entry `m` must assign the dependency's package inside
/// the declared range.
pub proof fn lemma_dependency_entailed(
    p: Seq<Seq<ReleaseView>>,
    root: int,
    rv: VersionView,
    inc: Seq<PkgTermView>,
    k: int,
    m: int,
    d: int,
)
    requires
        provider_wf(p),
        0 <= k < p.len(),
        0 <= m < p[k].len(),
        p[k][m].deps is Some,
        0 <= d < p[k][m].deps->Some_0.len(),
        inc.len() == 2,
        inc[0].pkg == k,
        inc[0].term.positive,
        forall|w: VersionView|
            ver_wf(w) ==> (range_contains(inc[0].term.range, w) <==> w == p[k][m].version),
        inc[1].pkg == p[k][m].deps->Some_0[d].pkg,
        !inc[1].term.positive,
        inc[1].term.range == p[k][m].deps->Some_0[d].range,
    ensures
        entailed(p, root, rv, inc),
{
    assert forall|sol: Seq<Option<VersionView>>|
        valid_solution(p, root, rv, sol) implies !sat_all(sol, inc) by {
        if sat_all(sol, inc) {
            lemma_valid_sol_wf(p, root, rv, sol);
            assert(term_ok_at(sol, inc[0]));
            assert(sol[k] is Some);
            let w = sol[k]->Some_0;
            assert(ver_wf(w));
            assert(range_contains(inc[0].term.range, w));
            assert(w == p[k][m].version);
            assert(pkg_sol_ok(p, sol, k));
            let m2 = choose|m2: int|
                0 <= m2 < p[k].len() && (#[trigger] p[k][m2]).version == sol[k]->Some_0
                    && p[k][m2].deps is Some && deps_sat(sol, p[k][m2].deps->Some_0);
            assert(pkg_data_wf(p, p[k]));
            // versions are registered once, so entry m2 is entry m
            assert(m2 == m);
            let dep = p[k][m].deps->Some_0[d];
            assert(crate::provider::dep_sat(sol, dep));
            assert(term_ok_at(sol, inc[1]));
            assert(!range_contains(dep.range, sol[dep.pkg]->Some_0));
        }
    }
}

/// `x` occurs among the terms.
pub open spec fn contains_term(ts: Seq<PkgTermView>, x: PkgTermView) -> bool {
    exists|l: int| 0 <= l < ts.len() && #[trigger] ts[l] == x
}

/// Soundness of the rule of resolution: any assignment over the known
/// packages that satisfies the resolvent satisfies one of the two parents.
#[verifier::rlimit(100)]
#[verifier::spinoff_prover]
proof fn lemma_resolvent_sound(
    npkgs: int,
    pkg: int,
    outv: Seq<PkgTermView>,
    inc1: Seq<PkgTermView>,
    inc2: Seq<PkgTermView>,
    acc1: TermView,
    acc2: TermView,
    u: TermView,
    pushed: bool,
)
    requires
        0 <= pkg < npkgs,
        inc_wf(npkgs, inc1),
        inc_wf(npkgs, inc2),
        forall|j: int|
            0 <= j < inc1.len() && (#[trigger] inc1[j]).pkg != pkg ==> contains_term(outv, inc1[j]),
        forall|j: int|
            0 <= j < inc2.len() && (#[trigger] inc2[j]).pkg != pkg ==> contains_term(outv, inc2[j]),
        forall|slot: Option<VersionView>|
            slot_wf(slot) && term_ok(slot, acc1) ==> (forall|j: int|
                0 <= j < inc1.len() && (#[trigger] inc1[j]).pkg == pkg ==> term_ok(
                    slot,
                    inc1[j].term,
                )),
        forall|slot: Option<VersionView>|
            slot_wf(slot) && term_ok(slot, acc2) ==> (forall|j: int|
                0 <= j < inc2.len() && (#[trigger] inc2[j]).pkg == pkg ==> term_ok(
                    slot,
                    inc2[j].term,
                )),
        u.positive == (acc1.positive && acc2.positive),
        forall|v: VersionView| ver_wf(v) ==> (term_den(u, v) <==> (term_den(acc1, v) || term_den(acc2, v))),
        pushed ==> contains_term(outv, PkgTermView { pkg, term: u }),
        !pushed ==> forall|slot: Option<VersionView>| term_ok(slot, u),
    ensures
        forall|sol: Seq<Option<VersionView>>|
            sol.len() == npkgs && sol_wf(sol) && #[trigger] sat_all(sol, outv) ==> (sat_all(
                sol,
                inc1,
            ) || sat_all(sol, inc2)),
{
    assert forall|sol: Seq<Option<VersionView>>|
        sol.len() == npkgs && sol_wf(sol) && #[trigger] sat_all(sol, outv) implies (sat_all(
        sol,
        inc1,
    ) || sat_all(sol, inc2)) by {
        let slot = sol[pkg];
        assert(slot_wf(slot));
        assert(term_ok(slot, u)) by {
            if pushed {
                let l = choose|l: int|
                    0 <= l < outv.len() && #[trigger] outv[l] == PkgTermView { pkg, term: u };
                assert(term_ok_at(sol, outv[l]));
            }
        }
        lemma_term_ok_union(slot, acc1, acc2, u);
        if term_ok(slot, acc1) {
            assert forall|j: int| 0 <= j < inc1.len() implies term_ok_at(sol, #[trigger] inc1[j]) by {
                if inc1[j].pkg != pkg {
                    let l = choose|l: int| 0 <= l < outv.len() && #[trigger] outv[l] == inc1[j];
                    assert(term_ok_at(sol, outv[l]));
                } else {
                    assert(term_ok(slot, inc1[j].term));
                }
            }
            assert(sat_all(sol, inc1));
        } else {
            assert(term_ok(slot, acc2));
            assert forall|j: int| 0 <= j < inc2.len() implies term_ok_at(sol, #[trigger] inc2[j]) by {
                if inc2[j].pkg != pkg {
                    let l = choose|l: int| 0 <= l < outv.len() && #[trigger] outv[l] == inc2[j];
                    assert(term_ok_at(sol, outv[l]));
                } else {
                    assert(term_ok(slot, inc2[j].term));
                }
            }
            assert(sat_all(sol, inc2));
        }
    }
}

/// A resolvent of two entailed incompatibilities is entailed.
pub proof fn lemma_derived_entailed(
    p: Seq<Seq<ReleaseView>>,
    root: int,
    rv: VersionView,
    inc1: Seq<PkgTermView>,
    inc2: Seq<PkgTermView>,
    outv: Seq<PkgTermView>,
)
    requires
        provider_wf(p),
        entailed(p, root, rv, inc1),
        entailed(p, root, rv, inc2),
        forall|sol: Seq<Option<VersionView>>|
            sol.len() == p.len() && sol_wf(sol) && #[trigger] sat_all(sol, outv) ==> (sat_all(
                sol,
                inc1,
            ) || sat_all(sol, inc2)),
    ensures
        entailed(p, root, rv, outv),
{
    assert forall|sol: Seq<Option<VersionView>>|
        valid_solution(p, root, rv, sol) implies !(#[trigger] sat_all(sol, outv)) by {
        if sat_all(sol, outv) {
            lemma_valid_sol_wf(p, root, rv, sol);
        }
    }
}

impl Incompat {
    /// Find some term for the given package.
    pub fn term_index_for(&self, pkg: usize) -> (r: Option<usize>)
        ensures
            match r {
                Some(ix) => ix < self@.len() && self@[ix as int].pkg == pkg as int,
                None => forall|i: int| 0 <= i < self@.len() ==> (#[trigger] self@[i]).pkg != pkg as int,
            },
    {
        let mut i: usize = 0;
        while i < self.terms.len()
            invariant
                0 <= i <= self.terms@.len(),
                forall|k: int| 0 <= k < i ==> (#[trigger] self@[k]).pkg != pkg as int,
            decreases self.terms@.len() - i,
        {
            if self.terms[i].pkg == pkg {
                return Some(i);
            }
            i = i + 1;
        }
        None
    }

    /// The rule of resolution: combine this incompatibility with another on
    /// a shared package. The resolvent keeps both sides' terms for every
    /// other package and, for the shared one, the union of both sides'
    /// statements; it is satisfied only where one of the parents is.
    #[verifier::rlimit(100)]
    #[verifier::spinoff_prover]
    pub fn prior_cause(&self, other: &Incompat, pkg: usize, npkgs: usize, c1: usize, c2: usize) -> (out: Incompat)
        requires
            inc_wf(npkgs as int, self@),
            inc_wf(npkgs as int, other@),
            pkg < npkgs,
        ensures
            inc_wf(npkgs as int, out@),
            forall|sol: Seq<Option<VersionView>>|
                sol.len() == npkgs as int && sol_wf(sol) && #[trigger] sat_all(sol, out@) ==> (
                sat_all(sol, self@) || sat_all(sol, other@)),
    {
        let mut terms: Vec<PkgTerm> = Vec::new();
        let mut acc1 = Term::always();
        let mut i: usize = 0;
        proof {
            assert(pts_view(terms@) =~= Seq::<PkgTermView>::empty());
        }
        while i < self.terms.len()
            invariant
                inc_wf(npkgs as int, self@),
                pkg < npkgs,
                0 <= i <= self.terms@.len(),
                inc_wf(npkgs as int, pts_view(terms@)),
                term_wf(acc1@),
                forall|j: int|
                    0 <= j < i && (#[trigger] self@[j]).pkg != pkg as int ==> contains_term(
                        pts_view(terms@),
                        self@[j],
                    ),
                forall|slot: Option<VersionView>|
                    slot_wf(slot) && term_ok(slot, acc1@) ==> (forall|j: int|
                        0 <= j < i && (#[trigger] self@[j]).pkg == pkg as int ==> term_ok(
                            slot,
                            self@[j].term,
                        )),
            decreases self.terms@.len() - i,
        {
            let pt = &self.terms[i];
            if pt.pkg == pkg {
                let ghost old_acc = acc1@;
                proof {
                    assert(self@[i as int].pkg < npkgs && term_wf(self@[i as int].term));
                    assert(pt.term@ == self@[i as int].term);
                }
                acc1 = acc1.intersect(&pt.term);
                proof {
                    assert forall|slot: Option<VersionView>|
                        slot_wf(slot) && term_ok(slot, acc1@) implies (forall|j: int|
                        0 <= j < i + 1 && (#[trigger] self@[j]).pkg == pkg as int ==> term_ok(
                            slot,
                            self@[j].term,
                        )) by {
                        lemma_term_ok_intersect(slot, old_acc, self@[i as int].term, acc1@);
                    }
                }
            } else {
                let ghost old_terms = pts_view(terms@);
                terms.push(PkgTerm { pkg: pt.pkg, term: pt.term.clone() });
                proof {
                    assert(pts_view(terms@) =~= old_terms.push(self@[i as int]));
                    assert forall|j: int|
                        0 <= j < i + 1 && (#[trigger] self@[j]).pkg != pkg as int implies contains_term(
                        pts_view(terms@),
                        self@[j],
                    ) by {
                        if j < i {
                            lemma_contains_push(old_terms, self@[i as int], self@[j]);
                        } else {
                            assert(pts_view(terms@)[old_terms.len() as int] == self@[j]);
                        }
                    }
                }
            }
            i = i + 1;
        }
        let mut acc2 = Term::always();
        let mut k: usize = 0;
        while k < other.terms.len()
            invariant
                inc_wf(npkgs as int, self@),
                inc_wf(npkgs as int, other@),
                pkg < npkgs,
                0 <= k <= other.terms@.len(),
                inc_wf(npkgs as int, pts_view(terms@)),
                term_wf(acc1@),
                term_wf(acc2@),
                forall|j: int|
                    0 <= j < self@.len() && (#[trigger] self@[j]).pkg != pkg as int
                        ==> contains_term(pts_view(terms@), self@[j]),
                forall|slot: Option<VersionView>|
                    slot_wf(slot) && term_ok(slot, acc1@) ==> (forall|j: int|
                        0 <= j < self@.len() && (#[trigger] self@[j]).pkg == pkg as int
                            ==> term_ok(slot, self@[j].term)),
                forall|j: int|
                    0 <= j < k && (#[trigger] other@[j]).pkg != pkg as int ==> contains_term(
                        pts_view(terms@),
                        other@[j],
                    ),
                forall|slot: Option<VersionView>|
                    slot_wf(slot) && term_ok(slot, acc2@) ==> (forall|j: int|
                        0 <= j < k && (#[trigger] other@[j]).pkg == pkg as int ==> term_ok(
                            slot,
                            other@[j].term,
                        )),
            decreases other.terms@.len() - k,
        {
            let pt = &other.terms[k];
            if pt.pkg == pkg {
                let ghost old_acc = acc2@;
                proof {
                    assert(other@[k as int].pkg < npkgs && term_wf(other@[k as int].term));
                    assert(pt.term@ == other@[k as int].term);
                }
                acc2 = acc2.intersect(&pt.term);
                proof {
                    assert forall|slot: Option<VersionView>|
                        slot_wf(slot) && term_ok(slot, acc2@) implies (forall|j: int|
                        0 <= j < k + 1 && (#[trigger] other@[j]).pkg == pkg as int ==> term_ok(
                            slot,
                            other@[j].term,
                        )) by {
                        lemma_term_ok_intersect(slot, old_acc, other@[k as int].term, acc2@);
                    }
                }
            } else {
                let ghost old_terms = pts_view(terms@);
                terms.push(PkgTerm { pkg: pt.pkg, term: pt.term.clone() });
                proof {
                    assert(pts_view(terms@) =~= old_terms.push(other@[k as int]));
                    assert forall|j: int|
                        0 <= j < self@.len() && (#[trigger] self@[j]).pkg != pkg as int implies contains_term(
                        pts_view(terms@),
                        self@[j],
                    ) by {
                        lemma_contains_push(old_terms, other@[k as int], self@[j]);
                    }
                    assert forall|j: int|
                        0 <= j < k + 1 && (#[trigger] other@[j]).pkg != pkg as int implies contains_term(
                        pts_view(terms@),
                        other@[j],
                    ) by {
                        if j < k {
                            lemma_contains_push(old_terms, other@[k as int], other@[j]);
                        } else {
                            assert(pts_view(terms@)[old_terms.len() as int] == other@[j]);
                        }
                    }
                }
            }
            k = k + 1;
        }
        let u = acc1.union(&acc2);
        let pushed = !u.is_always();
        let ghost uv = u@;
        let ghost acc1v = acc1@;
        let ghost acc2v = acc2@;
        let ghost pre_u = pts_view(terms@);
        if pushed {
            terms.push(PkgTerm { pkg, term: u });
            proof {
                assert(pts_view(terms@) =~= pre_u.push(PkgTermView { pkg: pkg as int, term: uv }));
            }
        }
        let out = Incompat { terms, cause: Cause::Derived(c1, c2) };
        proof {
            if pushed {
                assert forall|j: int|
                    0 <= j < self@.len() && (#[trigger] self@[j]).pkg != pkg as int implies contains_term(
                    out@,
                    self@[j],
                ) by {
                    lemma_contains_push(pre_u, PkgTermView { pkg: pkg as int, term: uv }, self@[j]);
                }
                assert forall|j: int|
                    0 <= j < other@.len() && (#[trigger] other@[j]).pkg != pkg as int implies contains_term(
                    out@,
                    other@[j],
                ) by {
                    lemma_contains_push(pre_u, PkgTermView { pkg: pkg as int, term: uv }, other@[j]);
                }
                assert(contains_term(out@, PkgTermView { pkg: pkg as int, term: uv })) by {
                    assert(out@[pre_u.len() as int] == PkgTermView { pkg: pkg as int, term: uv });
                }
            }
            lemma_resolvent_sound(
                npkgs as int,
                pkg as int,
                out@,
                self@,
                other@,
                acc1v,
                acc2v,
                uv,
                pushed,
            );
        }
        out
    }
}

/// A term that occurs in a list still occurs after an append.
proof fn lemma_contains_push(ts: Seq<PkgTermView>, x: PkgTermView, y: PkgTermView)
    requires
        contains_term(ts, y),
    ensures
        contains_term(ts.push(x), y),
{
    let l = choose|l: int| 0 <= l < ts.len() && #[trigger] ts[l] == y;
    assert(ts.push(x)[l] == y);
}

impl Clone for PkgTerm {
    /// Clone preserves the term.
    fn clone(&self) -> (r: Self)
        ensures
            r@ == self@,
    {
        PkgTerm { pkg: self.pkg, term: self.term.clone() }
    }
}

} // verus!
