//! Terms: positive or negative statements about one package's version.
//!
//! A positive term asserts that a version is selected and lies in a range; a
//! negative term asserts the opposite (no version selected, or one outside
//! the range). Terms are what incompatibilities and the partial solution are
//! made of.

use vstd::prelude::*;

use crate::range::{range_contains, range_wf, IntervalView, Range};
use crate::version::{ver_wf, VersionView};

verus! {

/// A positive or negative statement about a package's selected version.
pub enum Term {
    Positive(Range),
    Negative(Range),
}

/// Mathematical model of a term.
#[verifier::ext_equal]
pub struct TermView {
    pub positive: bool,
    pub range: Seq<IntervalView>,
}

impl View for Term {
    type V = TermView;

    open spec fn view(&self) -> TermView {
        match self {
            Term::Positive(r) => TermView { positive: true, range: r@ },
            Term::Negative(r) => TermView { positive: false, range: r@ },
        }
    }
}

pub open spec fn term_wf(t: TermView) -> bool {
    range_wf(t.range)
}

/// The set of versions a term admits for a selected version.
pub open spec fn term_den(t: TermView, v: VersionView) -> bool {
    if t.positive {
        range_contains(t.range, v)
    } else {
        !range_contains(t.range, v)
    }
}

/// A slot that holds a version holds a well-formed one.
pub open spec fn slot_wf(slot: Option<VersionView>) -> bool {
    slot is Some ==> ver_wf(slot->Some_0)
}

/// Whether a package's slot in an assignment satisfies the term: a selected
/// version must be admitted; an empty slot satisfies only negative terms.
pub open spec fn term_ok(slot: Option<VersionView>, t: TermView) -> bool {
    match slot {
        Some(v) => term_den(t, v),
        None => !t.positive,
    }
}

/// If a slot satisfies the intersection of two terms, it satisfies both.
pub proof fn lemma_term_ok_intersect(slot: Option<VersionView>, a: TermView, b: TermView, u: TermView)
    requires
        u.positive == (a.positive || b.positive),
        forall|v: VersionView| ver_wf(v) ==> (term_den(u, v) <==> (term_den(a, v) && term_den(b, v))),
        slot is Some ==> ver_wf(slot->Some_0),
        term_ok(slot, u),
    ensures
        term_ok(slot, a),
        term_ok(slot, b),
{
    match slot {
        Some(v) => {
            assert(term_den(u, v) <==> (term_den(a, v) && term_den(b, v)));
        }
        None => {}
    }
}

/// If a slot satisfies the union of two terms, it satisfies one of them.
pub proof fn lemma_term_ok_union(slot: Option<VersionView>, a: TermView, b: TermView, u: TermView)
    requires
        u.positive == (a.positive && b.positive),
        forall|v: VersionView| ver_wf(v) ==> (term_den(u, v) <==> (term_den(a, v) || term_den(b, v))),
        slot is Some ==> ver_wf(slot->Some_0),
        term_ok(slot, u),
    ensures
        term_ok(slot, a) || term_ok(slot, b),
{
    match slot {
        Some(v) => {
            assert(term_den(u, v) <==> (term_den(a, v) || term_den(b, v)));
        }
        None => {}
    }
}

impl Term {
    /// A term that every slot satisfies.
    pub fn always() -> (out: Term)
        ensures
            term_wf(out@),
            !out@.positive,
            out@.range.len() == 0,
            forall|slot: Option<VersionView>| term_ok(slot, out@),
    {
        let out = Term::Negative(Range::none());
        proof {
            assert forall|slot: Option<VersionView>| term_ok(slot, out@) by {
                match slot {
                    Some(v) => {
                        assert(!range_contains(out@.range, v));
                    }
                    None => {}
                }
            }
        }
        out
    }

    /// The opposite statement.
    pub fn negate(&self) -> (out: Term)
        requires
            term_wf(self@),
        ensures
            term_wf(out@),
            out@.positive == !self@.positive,
            out@.range == self@.range,
            forall|v: VersionView| term_den(out@, v) == !term_den(self@, v),
    {
        match self {
            Term::Positive(r) => Term::Negative(r.clone()),
            Term::Negative(r) => Term::Positive(r.clone()),
        }
    }

    /// The conjunction: admits exactly the versions both terms admit;
    /// positive as soon as one side is.
    pub fn intersect(&self, other: &Term) -> (out: Term)
        requires
            term_wf(self@),
            term_wf(other@),
        ensures
            term_wf(out@),
            out@.positive == (self@.positive || other@.positive),
            forall|v: VersionView|
                ver_wf(v) ==> (term_den(out@, v) <==> (term_den(self@, v) && term_den(other@, v))),
    {
        match (self, other) {
            (Term::Positive(r1), Term::Positive(r2)) => Term::Positive(r1.intersect(r2)),
            (Term::Positive(r1), Term::Negative(r2)) => Term::Positive(
                r1.intersect(&r2.complement()),
            ),
            (Term::Negative(r1), Term::Positive(r2)) => Term::Positive(
                r1.complement().intersect(r2),
            ),
            (Term::Negative(r1), Term::Negative(r2)) => Term::Negative(r1.union(r2)),
        }
    }

    /// The disjunction: admits exactly the versions either term admits;
    /// positive only when both sides are.
    pub fn union(&self, other: &Term) -> (out: Term)
        requires
            term_wf(self@),
            term_wf(other@),
        ensures
            term_wf(out@),
            out@.positive == (self@.positive && other@.positive),
            forall|v: VersionView|
                ver_wf(v) ==> (term_den(out@, v) <==> (term_den(self@, v) || term_den(other@, v))),
    {
        let na = self.negate();
        let nb = other.negate();
        let both = na.intersect(&nb);
        both.negate()
    }

    /// Whether every slot satisfies this term: exactly the negative terms
    /// over an empty range.
    pub fn is_always(&self) -> (r: bool)
        requires
            term_wf(self@),
        ensures
            r == (forall|slot: Option<VersionView>| term_ok(slot, self@)),
    {
        match self {
            Term::Negative(range) => {
                let e = range.is_empty();
                proof {
                    if e {
                        assert forall|slot: Option<VersionView>| term_ok(slot, self@) by {
                            match slot {
                                Some(v) => {
                                    assert(!range_contains(self@.range, v));
                                }
                                None => {}
                            }
                        }
                    } else {
                        let w = choose|v: VersionView| ver_wf(v) && range_contains(self@.range, v);
                        assert(!term_ok(Some(w), self@));
                    }
                }
                e
            }
            Term::Positive(_) => {
                proof {
                    assert(!term_ok(None::<VersionView>, self@));
                }
                false
            }
        }
    }

    /// Whether no well-formed version is admitted for a selected slot.
    pub fn den_empty(&self) -> (r: bool)
        requires
            term_wf(self@),
        ensures
            r == (forall|v: VersionView| ver_wf(v) ==> !term_den(self@, v)),
    {
        match self {
            Term::Positive(range) => {
                let e = range.is_empty();
                proof {
                    if !e {
                        let w = choose|v: VersionView| ver_wf(v) && range_contains(self@.range, v);
                        assert(term_den(self@, w));
                    }
                }
                e
            }
            Term::Negative(range) => {
                let c = range.complement();
                let e = c.is_empty();
                proof {
                    if e {
                        assert forall|v: VersionView| ver_wf(v) implies !term_den(self@, v) by {
                            assert(!range_contains(c@, v));
                        }
                    } else {
                        let w = choose|v: VersionView| ver_wf(v) && range_contains(c@, v);
                        assert(term_den(self@, w));
                    }
                }
                e
            }
        }
    }

    /// Whether every version this term admits for a selected slot is also
    /// admitted by `other`.
    pub fn subset_of(&self, other: &Term) -> (r: bool)
        requires
            term_wf(self@),
            term_wf(other@),
        ensures
            r == (forall|v: VersionView|
                ver_wf(v) ==> (term_den(self@, v) ==> term_den(other@, v))),
    {
        let neg = other.negate();
        let leftover = self.intersect(&neg);
        let r = leftover.den_empty();
        proof {
            if r {
                assert forall|v: VersionView|
                    ver_wf(v) implies (term_den(self@, v) ==> term_den(other@, v)) by {
                    assert(!term_den(leftover@, v));
                }
            } else {
                let w = choose|v: VersionView| ver_wf(v) && term_den(leftover@, v);
                assert(term_den(self@, w) && !term_den(other@, w));
            }
        }
        r
    }

    /// Whether this statement forces `other` to hold: every well-formed slot
    /// satisfying it satisfies `other` too. In particular a negative
    /// statement never forces a positive one (an empty slot separates them).
    pub fn entails(&self, other: &Term) -> (r: bool)
        requires
            term_wf(self@),
            term_wf(other@),
        ensures
            r == (forall|slot: Option<VersionView>|
                slot_wf(slot) ==> (term_ok(slot, self@) ==> term_ok(slot, other@))),
    {
        match (self, other) {
            (Term::Negative(_), Term::Positive(_)) => {
                proof {
                    let empty = None::<VersionView>;
                    assert(slot_wf(empty) && term_ok(empty, self@) && !term_ok(empty, other@));
                }
                false
            }
            _ => {
                let r = self.subset_of(other);
                proof {
                    assert(self@.positive || !other@.positive);
                    if r {
                        assert forall|slot: Option<VersionView>|
                            slot_wf(slot) && term_ok(slot, self@) implies term_ok(
                            slot,
                            other@,
                        ) by {
                            match slot {
                                Some(v) => {
                                    assert(term_den(self@, v) ==> term_den(other@, v));
                                }
                                None => {}
                            }
                        }
                    } else {
                        let w = choose|v: VersionView|
                            ver_wf(v) && term_den(self@, v) && !term_den(other@, v);
                        assert(slot_wf(Some(w)) && term_ok(Some(w), self@) && !term_ok(
                            Some(w),
                            other@,
                        ));
                    }
                }
                r
            }
        }
    }

    /// Whether this statement rules `other` out: no well-formed slot
    /// satisfies both. Two negative statements never exclude each other (an
    /// empty slot satisfies both).
    pub fn excludes(&self, other: &Term) -> (r: bool)
        requires
            term_wf(self@),
            term_wf(other@),
        ensures
            r == (forall|slot: Option<VersionView>|
                slot_wf(slot) ==> !(term_ok(slot, self@) && term_ok(slot, other@))),
    {
        match (self, other) {
            (Term::Negative(_), Term::Negative(_)) => {
                proof {
                    let empty = None::<VersionView>;
                    assert(slot_wf(empty) && term_ok(empty, self@) && term_ok(empty, other@));
                }
                false
            }
            _ => {
                let r = self.disjoint_from(other);
                proof {
                    assert(self@.positive || other@.positive);
                    if r {
                        assert forall|slot: Option<VersionView>|
                            slot_wf(slot) implies !(term_ok(slot, self@) && term_ok(
                            slot,
                            other@,
                        )) by {
                            match slot {
                                Some(v) => {
                                    assert(!(term_den(self@, v) && term_den(other@, v)));
                                }
                                None => {}
                            }
                        }
                    } else {
                        let w = choose|v: VersionView|
                            ver_wf(v) && term_den(self@, v) && term_den(other@, v);
                        assert(slot_wf(Some(w)) && term_ok(Some(w), self@) && term_ok(
                            Some(w),
                            other@,
                        ));
                    }
                }
                r
            }
        }
    }

    /// Whether the terms admit no selected version in common.
    pub fn disjoint_from(&self, other: &Term) -> (r: bool)
        requires
            term_wf(self@),
            term_wf(other@),
        ensures
            r == (forall|v: VersionView|
                ver_wf(v) ==> !(term_den(self@, v) && term_den(other@, v))),
    {
        let both = self.intersect(other);
        let r = both.den_empty();
        proof {
            if r {
                assert forall|v: VersionView|
                    ver_wf(v) implies !(term_den(self@, v) && term_den(other@, v)) by {
                    assert(!term_den(both@, v));
                }
            } else {
                let w = choose|v: VersionView| ver_wf(v) && term_den(both@, v);
            }
        }
        r
    }
}

impl Clone for Term {
    /// Clone preserves the term's statement.
    fn clone(&self) -> (r: Self)
        ensures
            r@ == self@,
    {
        match self {
            Term::Positive(range) => Term::Positive(range.clone()),
            Term::Negative(range) => Term::Negative(range.clone()),
        }
    }
}

} // verus!
