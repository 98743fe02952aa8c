//! The resolver: decision making, unit propagation, conflict resolution and
//! backtracking, in the style of conflict-driven dependency solving.
//!
//! `resolve` computes an assignment of one version to every transitively
//! required package, or reports failure. Its contract is exact where it
//! matters:
//! - a returned solution is valid (every assigned package is a known version
//!   whose known dependencies are assigned within their declared ranges, and
//!   the root is pinned as requested);
//! - an `Unsatisfiable` outcome proves that *no* valid solution exists — not
//!   even with every metadata gap read as an empty dependency list, so a gap
//!   is never blamed as unsatisfiability — by the entailment invariant of
//!   the incompatibility store;
//! - `ProviderUnavailable` is returned exactly when the metadata of a chosen
//!   package version is unknown, and the run stops at once;
//! - a caller-imposed step budget bounds the run; its expiry is reported as
//!   an aborted, not failed, resolution, and `Aborted` is returned only once
//!   the whole budget is consumed.

use vstd::prelude::*;

use crate::incompat::{
    entailed, inc_wf, lemma_dependency_entailed, lemma_derived_entailed, lemma_empty_unsat,
    lemma_noversions_entailed, lemma_root_entailed, lemma_terminal_unsat, Cause, Incompat, PkgTerm,
};
use crate::provider::{
    count_matching, dep_sat, deps_sat, deps_view, gaps_as_empty, lemma_gaps_as_empty_wf,
    pkg_sol_ok, provider_wf, release_gap_as_empty, release_wf, valid_solution, Dep, Provider,
};
use crate::range::{range_wf, Range};
use crate::term::{term_den, term_wf, Term};
use crate::version::{lemma_version_view_wf, ver_wf, Version, VersionView};

verus! {

/// The outcome of a failed resolution.
pub enum ResolutionError {
    /// No assignment of versions satisfies all constraints.
    Unsatisfiable,
    /// The provider could not produce dependency metadata for this package
    /// and version; the run stops at once and is not retried.
    ProviderUnavailable { pkg: usize, version: Version },
    /// The step budget ran out before the run finished; the problem was
    /// neither solved nor refuted.
    Aborted,
}

/// The models of the assignment the solver returns.
pub open spec fn sol_view(s: Seq<Option<Version>>) -> Seq<Option<VersionView>> {
    Seq::new(
        s.len(),
        |i: int|
            match s[i] {
                Some(v) => Some(v@),
                None => None,
            },
    )
}

/// Every stored incompatibility is well formed and entailed by the
/// provider's data — both as given and with every metadata gap read as an
/// empty dependency list. The second reading is what lets an unsatisfiable
/// outcome say that no gap is to blame.
pub open spec fn store_ok(
    p: Seq<Seq<crate::provider::ReleaseView>>,
    root: int,
    rv: VersionView,
    npkgs: int,
    store: Seq<Incompat>,
) -> bool {
    forall|i: int|
        0 <= i < store.len() ==> inc_wf(npkgs, (#[trigger] store[i])@) && entailed(
            p,
            root,
            rv,
            store[i]@,
        ) && entailed(gaps_as_empty(p), root, rv, store[i]@)
}

/// One entry of the partial solution's log: a decision pinning a package to
/// a version, or a derivation narrowing a package's admitted statement as a
/// consequence of a stored incompatibility.
struct Assignment {
    pkg: usize,
    level: u64,
    decision: Option<Version>,
    cause: usize,
    term: Term,
}

/// The evolving assignment log, with a memoized per-package intersection of
/// all logged statements, and the packages already pinned.
struct PartialSolution {
    log: Vec<Assignment>,
    memo: Vec<Option<Term>>,
    decided: Vec<Option<Version>>,
    level: u64,
}

spec fn entry_wf(a: Assignment, npkgs: int, nstore: int) -> bool {
    a.pkg < npkgs && term_wf(a.term@) && (a.decision is None ==> a.cause < nstore)
}

impl PartialSolution {
    spec fn wf(&self, npkgs: int, nstore: int) -> bool {
        self.memo@.len() == npkgs && self.decided@.len() == npkgs && (forall|p: int|
            0 <= p < npkgs && (#[trigger] self.memo@[p]) is Some ==> term_wf(
                self.memo@[p]->Some_0@,
            )) && (forall|i: int|
            0 <= i < self.log@.len() ==> entry_wf(#[trigger] self.log@[i], npkgs, nstore))
    }

    /// An empty partial solution over `n` packages.
    fn new(n: usize) -> (out: PartialSolution)
        ensures
            forall|ns: int| ns >= 0 ==> out.wf(n as int, ns),
    {
        let mut memo: Vec<Option<Term>> = Vec::new();
        let mut decided: Vec<Option<Version>> = Vec::new();
        let mut i: usize = 0;
        while i < n
            invariant
                0 <= i <= n,
                memo@.len() == i,
                decided@.len() == i,
                forall|p: int| 0 <= p < i ==> (#[trigger] memo@[p]) is None,
                forall|p: int| 0 <= p < i ==> (#[trigger] decided@[p]) is None,
            decreases n - i,
        {
            memo.push(None);
            decided.push(None);
            i = i + 1;
        }
        PartialSolution { log: Vec::new(), memo, decided, level: 0 }
    }

    /// Record a derivation: package `pkg` must satisfy the negation of its
    /// term in the stored incompatibility `cause`.
    fn add_derivation(&mut self, pkg: usize, cause: usize, store: &Vec<Incompat>)
        requires
            old(self).wf(old(self).memo@.len() as int, store@.len() as int),
            pkg < old(self).memo@.len(),
            cause < store@.len(),
            inc_wf(old(self).memo@.len() as int, store@[cause as int]@),
        ensures
            final(self).wf(old(self).memo@.len() as int, store@.len() as int),
            final(self).memo@.len() == old(self).memo@.len(),
            final(self).decided@.len() == old(self).decided@.len(),
    {
        let inc = &store[cause];
        let ix = match inc.term_index_for(pkg) {
            Some(ix) => ix,
            None => {
                // the incompatibility does not mention the package; nothing
                // to derive
                return ;
            }
        };
        proof {
            assert(inc@[ix as int].pkg < old(self).memo@.len() && term_wf(inc@[ix as int].term));
            assert(inc.terms@[ix as int]@ == inc@[ix as int]);
        }
        let t = inc.terms[ix].term.negate();
        let tlog = t.clone();
        let newt = match &self.memo[pkg] {
            None => t,
            Some(s) => s.intersect(&t),
        };
        self.memo.set(pkg, Some(newt));
        self.log.push(Assignment { pkg, level: self.level, decision: None, cause, term: tlog });
    }

    /// Record a decision: pin `pkg` to `v` and open a new decision level.
    fn add_decision(&mut self, pkg: usize, v: Version, nstore: Ghost<int>)
        requires
            old(self).wf(old(self).memo@.len() as int, nstore@),
            nstore@ >= 0,
            pkg < old(self).memo@.len(),
            v.pre@.len() == 0 ==> v.patch < u64::MAX,
        ensures
            final(self).wf(old(self).memo@.len() as int, nstore@),
            final(self).memo@.len() == old(self).memo@.len(),
            final(self).decided@.len() == old(self).decided@.len(),
    {
        if self.level < u64::MAX {
            self.level = self.level + 1;
        }
        let t = Term::Positive(Range::exact(&v));
        let newt = match &self.memo[pkg] {
            None => t.clone(),
            Some(s) => s.intersect(&t),
        };
        self.memo.set(pkg, Some(newt));
        self.decided.set(pkg, Some(v.clone()));
        self.log.push(Assignment { pkg, level: self.level, decision: Some(v), cause: 0, term: t });
    }

    /// Discard every log entry above the target decision level and rebuild
    /// the memoized statements and pins from what remains.
    fn backtrack(&mut self, target: u64, nstore: Ghost<int>)
        requires
            old(self).wf(old(self).memo@.len() as int, nstore@),
            nstore@ >= 0,
        ensures
            final(self).wf(old(self).memo@.len() as int, nstore@),
            final(self).memo@.len() == old(self).memo@.len(),
            final(self).decided@.len() == old(self).decided@.len(),
    {
        let ghost n = self.memo@.len() as int;
        while self.log.len() > 0 && self.log[self.log.len() - 1].level > target
            invariant
                self.wf(n, nstore@),
                n == self.memo@.len(),
                self.decided@.len() == n,
                nstore@ >= 0,
            decreases self.log@.len(),
        {
            // dropping entries keeps the log well formed
            let _dropped = self.log.pop();
        }
        self.level = target;
        // rebuild the memo and the pins from the surviving log
        let nn = self.memo.len();
        let mut p: usize = 0;
        while p < nn
            invariant
                self.wf(n, nstore@),
                n == self.memo@.len(),
                self.decided@.len() == n,
                nn == n,
                0 <= p <= nn,
                nstore@ >= 0,
            decreases nn - p,
        {
            self.memo.set(p, None);
            self.decided.set(p, None);
            p = p + 1;
        }
        let mut j: usize = 0;
        while j < self.log.len()
            invariant
                self.wf(n, nstore@),
                n == self.memo@.len(),
                self.decided@.len() == n,
                0 <= j <= self.log@.len(),
                nstore@ >= 0,
            decreases self.log@.len() - j,
        {
            let pkg = self.log[j].pkg;
            let t = self.log[j].term.clone();
            proof {
                assert(entry_wf(self.log@[j as int], n, nstore@));
            }
            let newt = match &self.memo[pkg] {
                None => t,
                Some(s) => s.intersect(&t),
            };
            self.memo.set(pkg, Some(newt));
            match &self.log[j].decision {
                Some(v) => {
                    let vc = v.clone();
                    self.decided.set(pkg, Some(vc));
                }
                None => {}
            }
            j = j + 1;
        }
    }

    /// A copy of the current pins, as the solver's result value.
    fn clone_decided(&self) -> (out: Vec<Option<Version>>)
        ensures
            out@.len() == self.decided@.len(),
    {
        let mut out: Vec<Option<Version>> = Vec::new();
        let mut i: usize = 0;
        while i < self.decided.len()
            invariant
                0 <= i <= self.decided@.len(),
                out@.len() == i,
            decreases self.decided@.len() - i,
        {
            let entry = match &self.decided[i] {
                Some(v) => Some(v.clone()),
                None => None,
            };
            out.push(entry);
            i = i + 1;
        }
        out
    }
}

/// A partial solution stays well formed as the store grows.
proof fn lemma_ps_wf_grow(ps: &PartialSolution, npkgs: int, ns1: int, ns2: int)
    requires
        ps.wf(npkgs, ns1),
        ns1 <= ns2,
    ensures
        ps.wf(npkgs, ns2),
{
    assert forall|i: int|
        0 <= i < ps.log@.len() implies entry_wf(#[trigger] ps.log@[i], npkgs, ns2) by {
        assert(entry_wf(ps.log@[i], npkgs, ns1));
    }
}

/// How the partial solution relates to one incompatibility.
enum Rel {
    /// Every term already holds: a conflict.
    Satisfied,
    /// Every term but the one at this index holds: unit propagation applies.
    AlmostSatisfied(usize),
    /// Some term can no longer hold.
    Contradicted,
    /// Anything else.
    Inconclusive,
}

/// Classify an incompatibility against the memoized statements.
fn relation(ps: &PartialSolution, inc: &Incompat, npkgs: usize, nstore: Ghost<int>) -> (r: Rel)
    requires
        ps.wf(npkgs as int, nstore@),
        inc_wf(npkgs as int, inc@),
    ensures
        match r {
            Rel::AlmostSatisfied(ix) => ix < inc@.len(),
            _ => true,
        },
{
    let mut undecided: Option<usize> = None;
    let mut i: usize = 0;
    while i < inc.terms.len()
        invariant
            ps.wf(npkgs as int, nstore@),
            inc_wf(npkgs as int, inc@),
            0 <= i <= inc.terms@.len(),
            match undecided {
                Some(ix) => ix < inc@.len(),
                None => true,
            },
        decreases inc.terms@.len() - i,
    {
        proof {
            assert(inc@[i as int].pkg < npkgs && term_wf(inc@[i as int].term));
            assert(inc.terms@[i as int]@ == inc@[i as int]);
        }
        let pt = &inc.terms[i];
        match &ps.memo[pt.pkg] {
            None => {
                if pt.term.is_always() {
                    // an empty slot already satisfies an always-true term
                } else {
                    match undecided {
                        Some(_) => {
                            return Rel::Inconclusive;
                        }
                        None => {
                            undecided = Some(i);
                        }
                    }
                }
            }
            Some(s) => {
                if s.entails(&pt.term) {
                    // this term already holds
                } else if s.excludes(&pt.term) {
                    return Rel::Contradicted;
                } else {
                    match undecided {
                        Some(_) => {
                            return Rel::Inconclusive;
                        }
                        None => {
                            undecided = Some(i);
                        }
                    }
                }
            }
        }
        i = i + 1;
    }
    match undecided {
        Some(ix) => Rel::AlmostSatisfied(ix),
        None => Rel::Satisfied,
    }
}

/// Whether an accumulated prefix of the log satisfies every term of the
/// incompatibility.
fn prefix_satisfies(accum: &Vec<Option<Term>>, inc: &Incompat, npkgs: usize) -> (r: bool)
    requires
        accum@.len() == npkgs,
        forall|p: int|
            0 <= p < npkgs && (#[trigger] accum@[p]) is Some ==> term_wf(accum@[p]->Some_0@),
        inc_wf(npkgs as int, inc@),
{
    let mut i: usize = 0;
    while i < inc.terms.len()
        invariant
            accum@.len() == npkgs,
            forall|p: int|
                0 <= p < npkgs && (#[trigger] accum@[p]) is Some ==> term_wf(accum@[p]->Some_0@),
            inc_wf(npkgs as int, inc@),
            0 <= i <= inc.terms@.len(),
        decreases inc.terms@.len() - i,
    {
        proof {
            assert(inc@[i as int].pkg < npkgs && term_wf(inc@[i as int].term));
            assert(inc.terms@[i as int]@ == inc@[i as int]);
        }
        let pt = &inc.terms[i];
        let holds = match &accum[pt.pkg] {
            None => pt.term.is_always(),
            Some(s) => s.entails(&pt.term),
        };
        if !holds {
            return false;
        }
        i = i + 1;
    }
    true
}

/// Fold one log entry into an accumulated per-package statement.
fn accum_entry(accum: &mut Vec<Option<Term>>, entry_pkg: usize, entry_term: &Term, npkgs: usize)
    requires
        old(accum)@.len() == npkgs,
        forall|p: int|
            0 <= p < npkgs && (#[trigger] old(accum)@[p]) is Some ==> term_wf(
                old(accum)@[p]->Some_0@,
            ),
        entry_pkg < npkgs,
        term_wf(entry_term@),
    ensures
        final(accum)@.len() == npkgs,
        forall|p: int|
            0 <= p < npkgs && (#[trigger] final(accum)@[p]) is Some ==> term_wf(
                final(accum)@[p]->Some_0@,
            ),
{
    let newt = match &accum[entry_pkg] {
        None => entry_term.clone(),
        Some(s) => s.intersect(entry_term),
    };
    accum.set(entry_pkg, Some(newt));
}

/// Find the satisfier of a conflicting incompatibility: the earliest log
/// entry such that the log up to and including it satisfies every term.
/// Returns its log index and its package.
fn find_satisfier(ps: &PartialSolution, inc: &Incompat, npkgs: usize, nstore: Ghost<int>) -> (r:
    Option<(usize, usize)>)
    requires
        ps.wf(npkgs as int, nstore@),
        inc_wf(npkgs as int, inc@),
    ensures
        match r {
            Some(pair) => pair.0 < ps.log@.len() && pair.1 < npkgs,
            None => true,
        },
{
    let mut accum: Vec<Option<Term>> = Vec::new();
    let mut i: usize = 0;
    while i < npkgs
        invariant
            0 <= i <= npkgs,
            accum@.len() == i,
            forall|p: int| 0 <= p < i ==> (#[trigger] accum@[p]) is None,
        decreases npkgs - i,
    {
        accum.push(None);
        i = i + 1;
    }
    let mut j: usize = 0;
    while j < ps.log.len()
        invariant
            ps.wf(npkgs as int, nstore@),
            inc_wf(npkgs as int, inc@),
            0 <= j <= ps.log@.len(),
            accum@.len() == npkgs,
            forall|p: int|
                0 <= p < npkgs && (#[trigger] accum@[p]) is Some ==> term_wf(accum@[p]->Some_0@),
        decreases ps.log@.len() - j,
    {
        proof {
            assert(entry_wf(ps.log@[j as int], npkgs as int, nstore@));
        }
        let pkg = ps.log[j].pkg;
        let t = ps.log[j].term.clone();
        accum_entry(&mut accum, pkg, &t, npkgs);
        if prefix_satisfies(&accum, inc, npkgs) {
            return Some((j, pkg));
        }
        j = j + 1;
    }
    None
}

/// The decision level of the latest assignment, before the satisfier, such
/// that the log up to it plus the satisfier satisfies the incompatibility.
fn find_previous_level(
    ps: &PartialSolution,
    inc: &Incompat,
    sat_ix: usize,
    npkgs: usize,
    nstore: Ghost<int>,
) -> (level: u64)
    requires
        ps.wf(npkgs as int, nstore@),
        inc_wf(npkgs as int, inc@),
        sat_ix < ps.log@.len(),
{
    let mut accum: Vec<Option<Term>> = Vec::new();
    let mut i: usize = 0;
    while i < npkgs
        invariant
            0 <= i <= npkgs,
            accum@.len() == i,
            forall|p: int| 0 <= p < i ==> (#[trigger] accum@[p]) is None,
        decreases npkgs - i,
    {
        accum.push(None);
        i = i + 1;
    }
    proof {
        assert(entry_wf(ps.log@[sat_ix as int], npkgs as int, nstore@));
    }
    let spkg = ps.log[sat_ix].pkg;
    let sterm = ps.log[sat_ix].term.clone();
    accum_entry(&mut accum, spkg, &sterm, npkgs);
    if prefix_satisfies(&accum, inc, npkgs) {
        return 0;
    }
    let mut j: usize = 0;
    while j < sat_ix
        invariant
            ps.wf(npkgs as int, nstore@),
            inc_wf(npkgs as int, inc@),
            sat_ix < ps.log@.len(),
            0 <= j <= sat_ix,
            accum@.len() == npkgs,
            forall|p: int|
                0 <= p < npkgs && (#[trigger] accum@[p]) is Some ==> term_wf(accum@[p]->Some_0@),
        decreases sat_ix - j,
    {
        proof {
            assert(entry_wf(ps.log@[j as int], npkgs as int, nstore@));
        }
        let pkg = ps.log[j].pkg;
        let t = ps.log[j].term.clone();
        accum_entry(&mut accum, pkg, &t, npkgs);
        if prefix_satisfies(&accum, inc, npkgs) {
            return ps.log[j].level;
        }
        j = j + 1;
    }
    0
}

/// A package is a decision candidate when it is still undecided but carries
/// a positive requirement in the partial solution.
spec fn is_candidate(ps: &PartialSolution, p: int) -> bool {
    ps.decided@[p] is None && ps.memo@[p] is Some && ps.memo@[p]->Some_0@.positive
}

/// How many of the provider's versions of `p` match `p`'s current positive
/// requirement.
spec fn candidate_count(
    pv: Seq<Seq<crate::provider::ReleaseView>>,
    ps: &PartialSolution,
    p: int,
) -> nat {
    count_matching(pv[p], ps.memo@[p]->Some_0@.range)
}

/// The fewest-matching-versions choice: no candidate's requirement is
/// matched by fewer registered versions, and ties go to the
/// first-registered package.
#[verifier::opaque]
spec fn min_count_choice(
    pv: Seq<Seq<crate::provider::ReleaseView>>,
    ps: &PartialSolution,
    bp: int,
    npkgs: int,
) -> bool {
    forall|p: int|
        0 <= p < npkgs && is_candidate(ps, p) ==> candidate_count(pv, ps, bp) <= candidate_count(
            pv,
            ps,
            p,
        ) && (candidate_count(pv, ps, p) == candidate_count(pv, ps, bp) ==> bp <= p)
}

/// The decision heuristic: among the undecided packages with a positive
/// requirement, pick the one whose requirement the fewest registered
/// versions match, ties going to the first-registered package; return it
/// with its current requirement.
fn choose_candidate(
    provider: &Provider,
    ps: &PartialSolution,
    npkgs: usize,
    nstore: Ghost<int>,
) -> (r: Option<(usize, Range)>)
    requires
        ps.wf(npkgs as int, nstore@),
        npkgs == provider@.len(),
    ensures
        match r {
            Some(pair) => pair.0 < npkgs && is_candidate(ps, pair.0 as int) && pair.1@
                == ps.memo@[pair.0 as int]->Some_0@.range && range_wf(pair.1@) && min_count_choice(
                provider@,
                ps,
                pair.0 as int,
                npkgs as int,
            ),
            None => forall|p: int| 0 <= p < npkgs ==> !is_candidate(ps, p),
        },
{
    let mut best: Option<usize> = None;
    let mut best_count: usize = 0;
    let mut best_range: Option<Range> = None;
    let mut p: usize = 0;
    while p < npkgs
        invariant
            ps.wf(npkgs as int, nstore@),
            npkgs == provider@.len(),
            0 <= p <= npkgs,
            match best {
                Some(bp) => bp < p && is_candidate(ps, bp as int) && best_range is Some
                    && best_range->Some_0@ == ps.memo@[bp as int]->Some_0@.range && range_wf(
                    best_range->Some_0@,
                ) && best_count == candidate_count(provider@, ps, bp as int) && (forall|q: int|
                    0 <= q < p && is_candidate(ps, q) ==> best_count <= candidate_count(
                        provider@,
                        ps,
                        q,
                    ) && (candidate_count(provider@, ps, q) == best_count ==> bp <= q)),
                None => best_range is None && (forall|q: int| 0 <= q < p ==> !is_candidate(ps, q)),
            },
        decreases npkgs - p,
    {
        let undecided = match &ps.decided[p] {
            None => true,
            Some(_) => false,
        };
        if undecided {
            match &ps.memo[p] {
                Some(t) => {
                    match t {
                        Term::Positive(range) => {
                            proof {
                                assert(term_wf(ps.memo@[p as int]->Some_0@));
                                assert(is_candidate(ps, p as int));
                                assert(ps.memo@[p as int]->Some_0@.range == range@);
                            }
                            let c = provider.count_in(p, range);
                            let better = match best {
                                None => true,
                                Some(_) => c < best_count,
                            };
                            if better {
                                best = Some(p);
                                best_count = c;
                                best_range = Some(range.clone());
                            }
                        }
                        Term::Negative(_) => {
                            proof {
                                assert(!is_candidate(ps, p as int));
                            }
                        }
                    }
                }
                None => {
                    proof {
                        assert(!is_candidate(ps, p as int));
                    }
                }
            }
        } else {
            proof {
                assert(!is_candidate(ps, p as int));
            }
        }
        p = p + 1;
    }
    match best {
        None => None,
        Some(bp) => {
            proof {
                reveal(min_count_choice);
                assert(min_count_choice(provider@, ps, bp as int, npkgs as int));
            }
            match best_range {
                Some(range) => Some((bp, range)),
                None => {
                    proof {
                        assert(false);
                    }
                    None
                }
            }
        }
    }
}

/// Record one incompatibility per declared dependency of a chosen package
/// version: "the version is selected and the dependency is not met" can
/// never hold.
#[verifier::rlimit(100)]
#[verifier::spinoff_prover]
fn push_dependency_incompats(
    provider: &Provider,
    root: usize,
    root_version: &Version,
    store: &mut Vec<Incompat>,
    bp: usize,
    m: usize,
    ds: &Vec<Dep>,
    exact_range: &Range,
)
    requires
        provider_wf(provider@),
        root < provider@.len(),
        bp < provider@.len(),
        m < provider@[bp as int].len(),
        provider@[bp as int][m as int].deps == Some(deps_view(ds@)),
        range_wf(exact_range@),
        forall|w: VersionView|
            ver_wf(w) ==> (crate::range::range_contains(exact_range@, w)
                <==> w == provider@[bp as int][m as int].version),
        store_ok(
            provider@,
            root as int,
            root_version@,
            provider@.len() as int,
            old(store)@,
        ),
    ensures
        store_ok(provider@, root as int, root_version@, provider@.len() as int, final(store)@),
        final(store)@.len() >= old(store)@.len(),
{
    let ghost pv = provider@;
    let ghost rvv = root_version@;
    let npkgs = provider.len();
    let mut d: usize = 0;
    while d < ds.len()
        invariant
            provider_wf(pv),
            pv == provider@,
            rvv == root_version@,
            root < npkgs,
            npkgs == pv.len(),
            bp < npkgs,
            m < pv[bp as int].len(),
            pv[bp as int][m as int].deps == Some(deps_view(ds@)),
            range_wf(exact_range@),
            forall|w: VersionView|
                ver_wf(w) ==> (crate::range::range_contains(exact_range@, w)
                    <==> w == pv[bp as int][m as int].version),
            store_ok(pv, root as int, rvv, npkgs as int, store@),
            store@.len() >= old(store)@.len(),
            0 <= d <= ds@.len(),
        decreases ds@.len() - d,
    {
        proof {
            assert(crate::provider::pkg_data_wf(pv, pv[bp as int]));
            assert(release_wf(pv, pv[bp as int][m as int]));
            assert(deps_view(ds@)[d as int] == ds@[d as int]@);
        }
        let dep = &ds[d];
        let mut ts: Vec<PkgTerm> = Vec::new();
        ts.push(PkgTerm { pkg: bp, term: Term::Positive(exact_range.clone()) });
        ts.push(PkgTerm { pkg: dep.pkg, term: Term::Negative(dep.range.clone()) });
        let inc = Incompat { terms: ts, cause: Cause::Dependency };
        proof {
            assert(inc@[0] == inc.terms@[0]@);
            assert(inc@[1] == inc.terms@[1]@);
            assert(inc@.len() == 2);
            assert(inc_wf(npkgs as int, inc@)) by {
                assert forall|ii: int|
                    0 <= ii < inc@.len() implies 0 <= (#[trigger] inc@[ii]).pkg < npkgs as int
                    && term_wf(inc@[ii].term) by {
                    if ii == 0 {
                        assert(inc@[0].pkg == bp as int);
                    } else {
                        let dvs = pv[bp as int][m as int].deps->Some_0;
                        assert(dvs == deps_view(ds@));
                        assert(dvs[d as int] == ds@[d as int]@);
                        assert(release_wf(pv, pv[bp as int][m as int]));
                        assert(0 <= dvs[d as int].pkg < pv.len() && range_wf(dvs[d as int].range));
                        assert(inc@[1].pkg == ds@[d as int].pkg as int);
                        assert(inc@[1].term.range == ds@[d as int].range@);
                    }
                }
            }
            lemma_dependency_entailed(pv, root as int, rvv, inc@, bp as int, m as int, d as int);
            // the same incompatibility is entailed with gaps read as empty:
            // this entry's metadata is known, so it is unchanged there
            let qv = gaps_as_empty(pv);
            lemma_gaps_as_empty_wf(pv);
            assert(qv[bp as int][m as int] == release_gap_as_empty(pv[bp as int][m as int]));
            assert(qv[bp as int][m as int].version == pv[bp as int][m as int].version);
            assert(qv[bp as int][m as int].deps == pv[bp as int][m as int].deps);
            lemma_dependency_entailed(qv, root as int, rvv, inc@, bp as int, m as int, d as int);
        }
        let ghost old_store = store@;
        let ghost incv = inc@;
        store.push(inc);
        proof {
            assert forall|i: int|
                0 <= i < store@.len() implies inc_wf(npkgs as int, (#[trigger] store@[i])@)
                && entailed(pv, root as int, rvv, store@[i]@) by {
                if i < old_store.len() {
                    assert(store@[i] == old_store[i]);
                } else {
                    assert(store@[i]@ == incv);
                }
            }
        }
        d = d + 1;
    }
}

/// What conflict resolution did.
enum CrStep {
    /// Backtracked; re-derive a statement for this package from this root
    /// cause (a store index).
    Fixed(usize, usize),
    /// No log entry satisfies the conflict, so there is nothing to walk
    /// back from; solving goes on without a new derivation.
    Stuck,
}

/// Conflict resolution: starting from a conflicting incompatibility, walk
/// back through the satisfier chain, resolving with each satisfier's cause,
/// until the conflict roots strictly below the current decision level; then
/// backtrack. Returns the package to re-derive and the root cause's store
/// index; reports `Unsatisfiable` when the chain reaches a terminal
/// incompatibility. Each pass consumes one step of the shared budget, and
/// `Aborted` is returned only once the budget is spent.
#[verifier::rlimit(100)]
#[verifier::spinoff_prover]
fn conflict_resolution(
    provider: &Provider,
    root: usize,
    root_version: &Version,
    store: &mut Vec<Incompat>,
    ps: &mut PartialSolution,
    inc_id: usize,
    fuel: &mut u64,
) -> (r: Result<CrStep, ResolutionError>)
    requires
        provider_wf(provider@),
        root < provider@.len(),
        store_ok(
            provider@,
            root as int,
            root_version@,
            provider@.len() as int,
            old(store)@,
        ),
        old(ps).wf(provider@.len() as int, old(store)@.len() as int),
        old(ps).memo@.len() == provider@.len(),
        inc_id < old(store)@.len(),
    ensures
        store_ok(provider@, root as int, root_version@, provider@.len() as int, final(store)@),
        final(store)@.len() >= old(store)@.len(),
        final(ps).wf(provider@.len() as int, final(store)@.len() as int),
        final(ps).memo@.len() == provider@.len(),
        final(ps).decided@.len() == old(ps).decided@.len(),
        *final(fuel) <= *old(fuel),
        (match r {
            Ok(step) => match step {
                CrStep::Fixed(pkg, cid) => pkg < provider@.len() && cid < final(store)@.len(),
                CrStep::Stuck => true,
            },
            Err(e) => match e {
                ResolutionError::Unsatisfiable => (forall|m: Seq<Option<VersionView>>|
                    !valid_solution(provider@, root as int, root_version@, m)) && (forall|
                    m: Seq<Option<VersionView>>,
                |
                    !valid_solution(gaps_as_empty(provider@), root as int, root_version@, m)),
                ResolutionError::Aborted => *final(fuel) == 0,
                ResolutionError::ProviderUnavailable { .. } => false,
            },
        }),
{
    let npkgs = provider.len();
    let ghost pv = provider@;
    let ghost rvv = root_version@;
    let mut cur: usize = inc_id;
    while *fuel > 0
        invariant
            provider_wf(pv),
            pv == provider@,
            rvv == root_version@,
            root < npkgs,
            npkgs == pv.len(),
            store_ok(pv, root as int, rvv, npkgs as int, store@),
            store@.len() >= old(store)@.len(),
            ps.wf(npkgs as int, store@.len() as int),
            ps.memo@.len() == npkgs,
            ps.decided@.len() == old(ps).decided@.len(),
            cur < store@.len(),
            *fuel <= *old(fuel),
        decreases *fuel,
    {
        *fuel = *fuel - 1;
        // terminal: an entailed incompatibility that the pinned root alone
        // already satisfies refutes the whole problem
        let nterms = store[cur].terms.len();
        if nterms == 0 {
            proof {
                lemma_empty_unsat(pv, root as int, rvv, store@[cur as int]@);
                lemma_empty_unsat(gaps_as_empty(pv), root as int, rvv, store@[cur as int]@);
            }
            return Err(ResolutionError::Unsatisfiable);
        }
        if nterms == 1 && store[cur].terms[0].pkg == root {
            let den = match &store[cur].terms[0].term {
                Term::Positive(range) => range.contains(root_version),
                Term::Negative(range) => !range.contains(root_version),
            };
            if den {
                proof {
                    assert(store@[cur as int]@[0] == store[cur as int].terms@[0]@);
                    assert(term_den(store@[cur as int]@[0].term, rvv));
                    lemma_terminal_unsat(pv, root as int, rvv, store@[cur as int]@);
                    lemma_terminal_unsat(gaps_as_empty(pv), root as int, rvv, store@[cur as int]@);
                }
                return Err(ResolutionError::Unsatisfiable);
            }
        }
        let found = find_satisfier(&*ps, &store[cur], npkgs, Ghost(store@.len() as int));
        let (sat_ix, sat_pkg) = match found {
            Some(pair) => pair,
            None => {
                // nothing in the log satisfies the conflict, so there is no
                // satisfier to resolve against
                return Ok(CrStep::Stuck);
            }
        };
        let sat_level = ps.log[sat_ix].level;
        let is_decision = match &ps.log[sat_ix].decision {
            Some(_) => true,
            None => false,
        };
        let prev = find_previous_level(&*ps, &store[cur], sat_ix, npkgs, Ghost(store@.len() as int));
        let prev_level = if prev < 1 {
            1
        } else {
            prev
        };
        if is_decision || prev_level < sat_level {
            ps.backtrack(prev_level, Ghost(store@.len() as int));
            return Ok(CrStep::Fixed(sat_pkg, cur));
        }
        proof {
            assert(entry_wf(ps.log@[sat_ix as int], npkgs as int, store@.len() as int));
        }
        let cause = ps.log[sat_ix].cause;
        let derived = store[cur].prior_cause(&store[cause], sat_pkg, npkgs, cur, cause);
        proof {
            lemma_derived_entailed(
                pv,
                root as int,
                rvv,
                store@[cur as int]@,
                store@[cause as int]@,
                derived@,
            );
            lemma_gaps_as_empty_wf(pv);
            assert(gaps_as_empty(pv).len() == pv.len());
            lemma_derived_entailed(
                gaps_as_empty(pv),
                root as int,
                rvv,
                store@[cur as int]@,
                store@[cause as int]@,
                derived@,
            );
        }
        let ghost old_store = store@;
        let ghost dv = derived@;
        store.push(derived);
        proof {
            assert forall|i: int|
                0 <= i < store@.len() implies inc_wf(npkgs as int, (#[trigger] store@[i])@)
                && entailed(pv, root as int, rvv, store@[i]@) by {
                if i < old_store.len() {
                    assert(store@[i] == old_store[i]);
                } else {
                    assert(store@[i]@ == dv);
                }
            }
        }
        proof {
            lemma_ps_wf_grow(&*ps, npkgs as int, old_store.len() as int, store@.len() as int);
        }
        cur = store.len() - 1;
    }
    Err(ResolutionError::Aborted)
}

/// Validate a candidate assignment against the provider's data; decides
/// `valid_solution` exactly.
#[verifier::rlimit(100)]
#[verifier::spinoff_prover]
pub fn check_solution(
    provider: &Provider,
    root: usize,
    root_version: &Version,
    sol: &Vec<Option<Version>>,
) -> (b: bool)
    ensures
        b == valid_solution(provider@, root as int, root_version@, sol_view(sol@)),
{
    let ghost pv = provider@;
    let ghost sv = sol_view(sol@);
    let n = provider.len();
    if sol.len() != n || root >= n {
        return false;
    }
    let root_ok = match &sol[root] {
        Some(v) => v.same(root_version),
        None => false,
    };
    if !root_ok {
        proof {
            assert(sv[root as int] != Some(root_version@));
        }
        return false;
    }
    proof {
        assert(sv[root as int] == Some(root_version@));
    }
    let mut k: usize = 0;
    while k < n
        invariant
            pv == provider@,
            sv == sol_view(sol@),
            n == pv.len(),
            sol@.len() == n,
            root < n,
            sv[root as int] == Some(root_version@),
            0 <= k <= n,
            forall|k2: int|
                0 <= k2 < k && (#[trigger] sv[k2]) is Some ==> pkg_sol_ok(pv, sv, k2),
        decreases n - k,
    {
        let assigned = match &sol[k] {
            Some(_) => true,
            None => false,
        };
        if assigned {
            let cnt = provider.release_count(k);
            let mut m: usize = 0;
            let mut found = false;
            while m < cnt && !found
                invariant
                    pv == provider@,
                    sv == sol_view(sol@),
                    n == pv.len(),
                    sol@.len() == n,
                    k < n,
                    sv[k as int] is Some,
                    cnt == pv[k as int].len(),
                    0 <= m <= cnt,
                    found ==> pkg_sol_ok(pv, sv, k as int),
                    !found ==> forall|m2: int|
                        0 <= m2 < m ==> !((#[trigger] pv[k as int][m2]).version == sv[k as int]->Some_0
                            && pv[k as int][m2].deps is Some && deps_sat(
                            sv,
                            pv[k as int][m2].deps->Some_0,
                        )),
                decreases cnt - m,
            {
                let ev = provider.release_version(k, m);
                let vmatch = match &sol[k] {
                    Some(v) => ev.same(v),
                    None => false,
                };
                if vmatch {
                    match provider.release_deps(k, m) {
                        None => {}
                        Some(ds) => {
                            let mut d: usize = 0;
                            let mut all_ok = true;
                            while d < ds.len() && all_ok
                                invariant
                                    pv == provider@,
                                    sv == sol_view(sol@),
                                    sol@.len() == n,
                                    n == pv.len(),
                                    k < n,
                                    m < pv[k as int].len(),
                                    pv[k as int][m as int].deps == Some(deps_view(ds@)),
                                    0 <= d <= ds@.len(),
                                    all_ok ==> forall|d2: int|
                                        0 <= d2 < d ==> dep_sat(sv, #[trigger] deps_view(ds@)[d2]),
                                    !all_ok ==> exists|d2: int|
                                        0 <= d2 < ds@.len() && !dep_sat(
                                            sv,
                                            #[trigger] deps_view(ds@)[d2],
                                        ),
                                decreases ds@.len() - d,
                            {
                                let dep = &ds[d];
                                let ok = if dep.pkg >= n {
                                    false
                                } else {
                                    match &sol[dep.pkg] {
                                        Some(w) => dep.range.contains(w),
                                        None => false,
                                    }
                                };
                                proof {
                                    assert(deps_view(ds@)[d as int] == ds@[d as int]@);
                                    if !ok {
                                        assert(!dep_sat(sv, deps_view(ds@)[d as int]));
                                    } else {
                                        assert(dep_sat(sv, deps_view(ds@)[d as int]));
                                    }
                                }
                                if !ok {
                                    all_ok = false;
                                }
                                d = d + 1;
                            }
                            if all_ok {
                                proof {
                                    assert(deps_sat(sv, pv[k as int][m as int].deps->Some_0));
                                    assert(pkg_sol_ok(pv, sv, k as int));
                                }
                                found = true;
                            }
                        }
                    }
                }
                m = m + 1;
            }
            if !found {
                proof {
                    assert(!pkg_sol_ok(pv, sv, k as int));
                }
                return false;
            }
        }
        k = k + 1;
    }
    true
}

/// The step taken when nothing is queued for propagation: decide the next
/// package version, record why none can be decided, surface a metadata gap,
/// or finish with the validated assignment.
enum DecideStep {
    /// The run ends with this outcome.
    Finished(Result<Vec<Option<Version>>, ResolutionError>),
    /// A decision or a new incompatibility was recorded; solving goes on.
    Continue,
}

/// Decision making: pick the fewest-matching-versions candidate and pin its
/// newest admitted version, recording the version's dependencies as
/// incompatibilities; with no version to pin, record a "no versions"
/// incompatibility; with no candidate at all, validate and return the pins.
/// Never aborts and never reports unsatisfiability itself.
#[verifier::rlimit(100)]
#[verifier::spinoff_prover]
fn decide_step(
    provider: &Provider,
    root: usize,
    root_version: &Version,
    store: &mut Vec<Incompat>,
    ps: &mut PartialSolution,
    queue: &mut Vec<usize>,
) -> (r: DecideStep)
    requires
        provider_wf(provider@),
        root < provider@.len(),
        store_ok(
            provider@,
            root as int,
            root_version@,
            provider@.len() as int,
            old(store)@,
        ),
        old(ps).wf(provider@.len() as int, old(store)@.len() as int),
        old(ps).memo@.len() == provider@.len(),
        old(ps).decided@.len() == provider@.len(),
        forall|i: int|
            0 <= i < old(queue)@.len() ==> (#[trigger] old(queue)@[i]) < provider@.len(),
    ensures
        store_ok(provider@, root as int, root_version@, provider@.len() as int, final(store)@),
        final(store)@.len() >= old(store)@.len(),
        final(ps).wf(provider@.len() as int, final(store)@.len() as int),
        final(ps).memo@.len() == provider@.len(),
        final(ps).decided@.len() == provider@.len(),
        forall|i: int|
            0 <= i < final(queue)@.len() ==> (#[trigger] final(queue)@[i]) < provider@.len(),
        (match r {
            DecideStep::Finished(res) => match res {
                Ok(sol) => valid_solution(
                    provider@,
                    root as int,
                    root_version@,
                    sol_view(sol@),
                ),
                Err(e) => match e {
                    ResolutionError::ProviderUnavailable { pkg, version } => pkg
                        < provider@.len() && exists|mi: int|
                        0 <= mi < provider@[pkg as int].len()
                            && (#[trigger] provider@[pkg as int][mi]).version == version@
                            && provider@[pkg as int][mi].deps is None,
                    ResolutionError::Unsatisfiable => false,
                    ResolutionError::Aborted => false,
                },
            },
            DecideStep::Continue => true,
        }),
{
    let npkgs = provider.len();
    let ghost pv = provider@;
    let ghost rvv = root_version@;
    let best = choose_candidate(provider, ps, npkgs, Ghost(store@.len() as int));
    match best {
        None => {
            // nothing left to decide: every requirement has a pinned
            // package; validate and return the pins
            let sol = ps.clone_decided();
            if check_solution(provider, root, root_version, &sol) {
                DecideStep::Finished(Ok(sol))
            } else {
                // the pins failed validation: keep solving
                DecideStep::Continue
            }
        }
        Some(pair) => {
            let (bp, range) = pair;
            match provider.newest_in(bp, &range) {
                None => {
                    // no known version in the admitted range
                    let mut ts: Vec<PkgTerm> = Vec::new();
                    ts.push(PkgTerm { pkg: bp, term: Term::Positive(range) });
                    let inc = Incompat { terms: ts, cause: Cause::NoVersions };
                    proof {
                        assert(inc@[0] == inc.terms@[0]@);
                        assert(inc@.len() == 1);
                        assert(inc_wf(npkgs as int, inc@)) by {
                            assert forall|ii: int|
                                0 <= ii < inc@.len() implies 0 <= (#[trigger] inc@[ii]).pkg
                                < npkgs as int && term_wf(inc@[ii].term) by {
                                assert(inc@[ii] == inc@[0]);
                            }
                        }
                        lemma_noversions_entailed(pv, root as int, rvv, inc@, bp as int);
                        let qv = gaps_as_empty(pv);
                        lemma_gaps_as_empty_wf(pv);
                        assert forall|mi: int|
                            0 <= mi < qv[bp as int].len() implies !crate::range::range_contains(
                            inc@[0].term.range,
                            (#[trigger] qv[bp as int][mi]).version,
                        ) by {
                            assert(qv[bp as int][mi] == release_gap_as_empty(
                                pv[bp as int][mi],
                            ));
                            assert(qv[bp as int][mi].version == pv[bp as int][mi].version);
                        }
                        lemma_noversions_entailed(qv, root as int, rvv, inc@, bp as int);
                    }
                    let ghost old_store = store@;
                    let ghost incv2 = inc@;
                    store.push(inc);
                    proof {
                        assert forall|i: int|
                            0 <= i < store@.len() implies inc_wf(
                            npkgs as int,
                            (#[trigger] store@[i])@,
                        ) && entailed(pv, root as int, rvv, store@[i]@) by {
                            if i < old_store.len() {
                                assert(store@[i] == old_store[i]);
                            } else {
                                assert(store@[i]@ == incv2);
                            }
                        }
                        lemma_ps_wf_grow(
                            &*ps,
                            npkgs as int,
                            old_store.len() as int,
                            store@.len() as int,
                        );
                    }
                    queue.push(bp);
                    DecideStep::Continue
                }
                Some(m) => {
                    let vm = provider.release_version(bp, m);
                    proof {
                        assert(crate::provider::pkg_data_wf(pv, pv[bp as int]));
                        assert(release_wf(pv, pv[bp as int][m as int]));
                    }
                    match provider.release_deps(bp, m) {
                        None => {
                            proof {
                                let mw = m as int;
                                assert(0 <= mw < pv[bp as int].len());
                                assert((pv[bp as int][mw]).version == vm@);
                                assert(pv[bp as int][mw].deps is None);
                                assert(exists|mi: int|
                                    0 <= mi < pv[bp as int].len() && (#[trigger] pv[bp as int][mi]).version
                                        == vm@ && pv[bp as int][mi].deps is None);
                            }
                            DecideStep::Finished(
                                Err(ResolutionError::ProviderUnavailable { pkg: bp, version: vm }),
                            )
                        }
                        Some(ds) => {
                            let exact_range = Range::exact(&vm);
                            let ghost pre_deps = store@;
                            push_dependency_incompats(
                                provider,
                                root,
                                root_version,
                                store,
                                bp,
                                m,
                                &ds,
                                &exact_range,
                            );
                            proof {
                                lemma_ps_wf_grow(
                                    &*ps,
                                    npkgs as int,
                                    pre_deps.len() as int,
                                    store@.len() as int,
                                );
                                assert(release_wf(pv, pv[bp as int][m as int]));
                            }
                            ps.add_decision(bp, vm, Ghost(store@.len() as int));
                            queue.push(bp);
                            DecideStep::Continue
                        }
                    }
                }
            }
        }
    }
}

/// Resolve with an explicit step budget: compute an assignment of one
/// version to every transitively required package, or report why none was
/// produced. A run that exhausts its budget is aborted, not failed: the
/// returned ghost value is the unspent budget, and an `Aborted` outcome
/// proves the whole budget was consumed, so a caller who pays enough steps
/// is owed a solution, an unsatisfiability proof, or a metadata gap.
#[verifier::rlimit(100)]
#[verifier::spinoff_prover]
pub fn resolve_with_budget(
    provider: &Provider,
    root: usize,
    root_version: &Version,
    budget: u64,
) -> (r: (Result<Vec<Option<Version>>, ResolutionError>, Ghost<u64>))
    requires
        provider_wf(provider@),
        root < provider@.len(),
        root_version.pre@.len() == 0 ==> root_version.patch < u64::MAX,
    ensures
        (match r.0 {
            Ok(sol) => valid_solution(provider@, root as int, root_version@, sol_view(sol@)),
            Err(e) => match e {
                ResolutionError::Unsatisfiable => (forall|m: Seq<Option<VersionView>>|
                    !valid_solution(provider@, root as int, root_version@, m)) && (forall|
                    m: Seq<Option<VersionView>>,
                |
                    !valid_solution(gaps_as_empty(provider@), root as int, root_version@, m)),
                ResolutionError::ProviderUnavailable { pkg, version } => pkg < provider@.len()
                    && exists|mi: int|
                    0 <= mi < provider@[pkg as int].len() && (#[trigger] provider@[pkg as int][mi]).version
                        == version@ && provider@[pkg as int][mi].deps is None,
                ResolutionError::Aborted => r.1@ == 0,
            },
        }),
        r.1@ <= budget,
{
    let npkgs = provider.len();
    let ghost pv = provider@;
    let ghost rvv = root_version@;
    let mut store: Vec<Incompat> = Vec::new();
    // the root incompatibility: "the root is not the requested version"
    // can never hold
    let root_range = Range::exact(root_version);
    let mut terms0: Vec<PkgTerm> = Vec::new();
    terms0.push(PkgTerm { pkg: root, term: Term::Negative(root_range) });
    let inc0 = Incompat { terms: terms0, cause: Cause::Root };
    proof {
        lemma_version_view_wf(root_version);
        assert(inc0@[0] == inc0.terms@[0]@);
        assert(inc0@.len() == 1);
        assert(inc_wf(npkgs as int, inc0@)) by {
            assert forall|ii: int|
                0 <= ii < inc0@.len() implies 0 <= (#[trigger] inc0@[ii]).pkg < npkgs as int
                && term_wf(inc0@[ii].term) by {
                assert(inc0@[ii] == inc0@[0]);
            }
        }
        lemma_root_entailed(pv, root as int, rvv, inc0@);
        lemma_root_entailed(gaps_as_empty(pv), root as int, rvv, inc0@);
    }
    store.push(inc0);
    proof {
        assert forall|i: int|
            0 <= i < store@.len() implies inc_wf(npkgs as int, (#[trigger] store@[i])@) && entailed(
            pv,
            root as int,
            rvv,
            store@[i]@,
        ) by {
            assert(store@[i] == store@[0]);
        }
    }
    let mut ps = PartialSolution::new(npkgs);
    proof {
        assert(ps.wf(npkgs as int, store@.len() as int));
    }
    let mut queue: Vec<usize> = Vec::new();
    queue.push(root);
    let mut fuel: u64 = budget;
    while fuel > 0
        invariant
            provider_wf(pv),
            pv == provider@,
            rvv == root_version@,
            root < npkgs,
            npkgs == pv.len(),
            root_version.pre@.len() == 0 ==> root_version.patch < u64::MAX,
            store_ok(pv, root as int, rvv, npkgs as int, store@),
            ps.wf(npkgs as int, store@.len() as int),
            ps.memo@.len() == npkgs,
            ps.decided@.len() == npkgs,
            forall|i: int| 0 <= i < queue@.len() ==> (#[trigger] queue@[i]) < npkgs,
            fuel <= budget,
        decreases fuel,
    {
        fuel = fuel - 1;
        let maybe_pkg = queue.pop();
        match maybe_pkg {
            Some(cur) => {
                // unit propagation for one package: check the
                // incompatibilities that mention it, newest first
                let mut id = store.len();
                let mut conflict: Option<usize> = None;
                let mut no_conflict = true;
                while id > 0 && no_conflict
                    invariant
                        provider_wf(pv),
                        pv == provider@,
                        rvv == root_version@,
                        root < npkgs,
                        npkgs == pv.len(),
                        cur < npkgs,
                        store_ok(pv, root as int, rvv, npkgs as int, store@),
                        ps.wf(npkgs as int, store@.len() as int),
                        ps.memo@.len() == npkgs,
                        ps.decided@.len() == npkgs,
                        forall|i: int| 0 <= i < queue@.len() ==> (#[trigger] queue@[i]) < npkgs,
                        0 <= id <= store@.len(),
                        no_conflict ==> conflict is None,
                        !no_conflict ==> (conflict is Some && conflict->Some_0 < store@.len()),
                    decreases id,
                {
                    id = id - 1;
                    let touches = match store[id].term_index_for(cur) {
                        Some(_) => true,
                        None => false,
                    };
                    if touches {
                        match relation(&ps, &store[id], npkgs, Ghost(store@.len() as int)) {
                            Rel::Satisfied => {
                                conflict = Some(id);
                                no_conflict = false;
                            }
                            Rel::AlmostSatisfied(ix) => {
                                proof {
                                    assert(store@[id as int]@[ix as int] == store@[id as int].terms@[ix as int]@);
                                    assert(store@[id as int]@[ix as int].pkg < npkgs);
                                }
                                let q = store[id].terms[ix].pkg;
                                ps.add_derivation(q, id, &store);
                                queue.push(q);
                            }
                            _ => {}
                        }
                    }
                }
                match conflict {
                    Some(cid) => {
                        match conflict_resolution(
                            provider,
                            root,
                            root_version,
                            &mut store,
                            &mut ps,
                            cid,
                            &mut fuel,
                        ) {
                            Ok(step) => {
                                match step {
                                    CrStep::Fixed(pkg_almost, cause_id) => {
                                        ps.add_derivation(pkg_almost, cause_id, &store);
                                        queue = Vec::new();
                                        queue.push(pkg_almost);
                                    }
                                    CrStep::Stuck => {}
                                }
                            }
                            Err(e) => {
                                return (Err(e), Ghost(fuel));
                            }
                        }
                    }
                    None => {}
                }
            }
            None => {
                match decide_step(provider, root, root_version, &mut store, &mut ps, &mut queue) {
                    DecideStep::Finished(res) => {
                        return (res, Ghost(fuel));
                    }
                    DecideStep::Continue => {}
                }
            }
        }
    }
    (Err(ResolutionError::Aborted), Ghost(0))
}

/// Resolve a root package and version against a provider. Computes the
/// package-to-version assignment for every transitively required package, or
/// reports that the constraints are unsatisfiable (with no valid assignment
/// existing at all), or that the provider's metadata was unavailable.
/// The run is given the largest step budget; `Aborted` means even that
/// budget was consumed (establishing that this cannot happen would take a
/// termination proof for conflict-driven solving, which is not attempted
/// here).
pub fn resolve(provider: &Provider, root: usize, root_version: &Version) -> (r: Result<
    Vec<Option<Version>>,
    ResolutionError,
>)
    requires
        provider_wf(provider@),
        root < provider@.len(),
        root_version.pre@.len() == 0 ==> root_version.patch < u64::MAX,
    ensures
        (match r {
            Ok(sol) => valid_solution(provider@, root as int, root_version@, sol_view(sol@)),
            Err(e) => match e {
                ResolutionError::Unsatisfiable => (forall|m: Seq<Option<VersionView>>|
                    !valid_solution(provider@, root as int, root_version@, m)) && (forall|
                    m: Seq<Option<VersionView>>,
                |
                    !valid_solution(gaps_as_empty(provider@), root as int, root_version@, m)),
                ResolutionError::ProviderUnavailable { pkg, version } => pkg < provider@.len()
                    && exists|mi: int|
                    0 <= mi < provider@[pkg as int].len() && (#[trigger] provider@[pkg as int][mi]).version
                        == version@ && provider@[pkg as int][mi].deps is None,
                ResolutionError::Aborted => true,
            },
        }),
{
    let outcome = resolve_with_budget(provider, root, root_version, u64::MAX);
    outcome.0
}

} // verus!
