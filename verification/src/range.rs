//! Ranges: sets of versions, kept as normalized unions of half-open
//! intervals `[lo, hi)` (with `hi` possibly unbounded).
//!
//! Normalization means the intervals are non-empty, sorted, and separated by
//! non-empty gaps. Every operation takes normalized ranges to normalized
//! ranges, and every operation's contract characterizes the result's
//! containment pointwise.

use vstd::prelude::*;

use crate::version::{
    bump_view, floor_view, lemma_bump_above, lemma_bump_successor, lemma_floor_min, lemma_ver_asym,
    lemma_ver_conn, lemma_ver_trans, lemma_version_view_wf, ver_le, ver_lt, ver_wf, Ident,
    IdentView, Version, VersionView,
};

verus! {

/// One half-open interval `[lo, hi)`; `hi == None` means unbounded above.
pub struct Interval {
    pub lo: Version,
    pub hi: Option<Version>,
}

/// Mathematical model of an interval.
#[verifier::ext_equal]
pub struct IntervalView {
    pub lo: VersionView,
    pub hi: Option<VersionView>,
}

impl View for Interval {
    type V = IntervalView;

    open spec fn view(&self) -> IntervalView {
        IntervalView {
            lo: self.lo@,
            hi: match self.hi {
                Some(h) => Some(h@),
                None => None,
            },
        }
    }
}

/// `v` lies below the upper bound `hi`.
pub open spec fn below_hi(v: VersionView, hi: Option<VersionView>) -> bool {
    match hi {
        None => true,
        Some(h) => ver_lt(v, h),
    }
}

/// `v` lies inside the interval.
pub open spec fn iv_contains(iv: IntervalView, v: VersionView) -> bool {
    ver_le(iv.lo, v) && below_hi(v, iv.hi)
}

/// The interval is non-empty and its bounds are well-formed version models.
pub open spec fn iv_wf(iv: IntervalView) -> bool {
    ver_wf(iv.lo) && match iv.hi {
        None => true,
        Some(h) => ver_wf(h) && ver_lt(iv.lo, h),
    }
}

/// `v` is contained in the union of the intervals.
pub open spec fn range_contains(r: Seq<IntervalView>, v: VersionView) -> bool {
    exists|i: int| 0 <= i < r.len() && iv_contains(#[trigger] r[i], v)
}

/// Normalized: non-empty well-formed intervals, sorted, separated by
/// non-empty gaps (so only the last interval may be unbounded).
pub open spec fn range_wf(r: Seq<IntervalView>) -> bool {
    (forall|i: int| 0 <= i < r.len() ==> iv_wf(#[trigger] r[i]))
        && (forall|i: int|
        0 <= i < r.len() - 1 ==> (#[trigger] r[i].hi) is Some && ver_lt(r[i].hi->Some_0, r[i + 1].lo))
}

/// The models of a sequence of executable intervals.
pub open spec fn ivs_view(s: Seq<Interval>) -> Seq<IntervalView> {
    Seq::new(s.len(), |i: int| s[i]@)
}

/// Appending an interval appends its model.
pub proof fn lemma_ivs_view_push(s: Seq<Interval>, x: Interval)
    ensures
        ivs_view(s.push(x)) == ivs_view(s).push(x@),
{
    assert(ivs_view(s.push(x)) =~= ivs_view(s).push(x@));
}

/// A set of versions: a normalized union of half-open intervals.
pub struct Range {
    ivs: Vec<Interval>,
}

impl View for Range {
    type V = Seq<IntervalView>;

    closed spec fn view(&self) -> Seq<IntervalView> {
        ivs_view(self.ivs@)
    }
}

// ---------------------------------------------------------------------------
// Order helper lemmas.
// ---------------------------------------------------------------------------

pub proof fn lemma_le_lt_trans(a: VersionView, b: VersionView, c: VersionView)
    requires
        ver_le(a, b),
        ver_lt(b, c),
    ensures
        ver_lt(a, c),
{
    if a != b {
        lemma_ver_trans(a, b, c);
    }
}

pub proof fn lemma_lt_le_trans(a: VersionView, b: VersionView, c: VersionView)
    requires
        ver_lt(a, b),
        ver_le(b, c),
    ensures
        ver_lt(a, c),
{
    if b != c {
        lemma_ver_trans(a, b, c);
    }
}

pub proof fn lemma_le_trans(a: VersionView, b: VersionView, c: VersionView)
    requires
        ver_le(a, b),
        ver_le(b, c),
    ensures
        ver_le(a, c),
{
    if a != b && b != c {
        lemma_ver_trans(a, b, c);
    }
}

/// In a normalized range, bounds grow strictly: for `i < j`, interval `i`
/// closes strictly below interval `j`'s start.
pub proof fn lemma_wf_ordered(r: Seq<IntervalView>, i: int, j: int)
    requires
        range_wf(r),
        0 <= i < j < r.len(),
    ensures
        r[i].hi is Some,
        ver_lt(r[i].hi->Some_0, r[j].lo),
    decreases j - i,
{
    if j == i + 1 {
    } else {
        lemma_wf_ordered(r, i, j - 1);
        // hi_i < lo_{j-1} < hi_{j-1} < lo_j
        lemma_ver_trans(r[i].hi->Some_0, r[j - 1].lo, r[j - 1].hi->Some_0);
        lemma_ver_trans(r[i].hi->Some_0, r[j - 1].hi->Some_0, r[j].lo);
    }
}

/// If `v` lies below interval `k`'s start, it lies in no interval from `k`
/// on.
pub proof fn lemma_below_not_contained(r: Seq<IntervalView>, v: VersionView, k: int)
    requires
        range_wf(r),
        0 <= k < r.len(),
        ver_lt(v, r[k].lo),
    ensures
        forall|j: int| k <= j < r.len() ==> !iv_contains(#[trigger] r[j], v),
{
    assert forall|j: int| k <= j < r.len() implies !iv_contains(#[trigger] r[j], v) by {
        if j > k {
            lemma_wf_ordered(r, k, j);
            // v < lo_k < hi_k < lo_j
            lemma_ver_trans(v, r[k].lo, r[k].hi->Some_0);
            lemma_ver_trans(v, r[k].hi->Some_0, r[j].lo);
        }
        if iv_contains(r[j], v) {
            lemma_le_lt_trans(r[j].lo, v, r[j].lo);
            lemma_ver_asym(r[j].lo, r[j].lo);
        }
    }
}

/// If `v` lies at or above interval `k`'s end, it lies in no interval up to
/// and including `k`.
pub proof fn lemma_above_not_contained(r: Seq<IntervalView>, v: VersionView, k: int)
    requires
        range_wf(r),
        0 <= k < r.len(),
        r[k].hi is Some,
        ver_le(r[k].hi->Some_0, v),
    ensures
        forall|j: int| 0 <= j <= k ==> !iv_contains(#[trigger] r[j], v),
{
    assert forall|j: int| 0 <= j <= k implies !iv_contains(#[trigger] r[j], v) by {
        if j < k {
            lemma_wf_ordered(r, j, k);
            // hi_j < lo_k < hi_k <= v
            lemma_ver_trans(r[j].hi->Some_0, r[k].lo, r[k].hi->Some_0);
            lemma_lt_le_trans(r[j].hi->Some_0, r[k].hi->Some_0, v);
        }
        if iv_contains(r[j], v) {
            lemma_lt_le_trans(v, r[j].hi->Some_0, v);
            lemma_ver_asym(v, v);
        }
    }
}

/// While building the complement of `r`: the pieces built so far cover
/// exactly the versions not in `r` that lie below `bound`.
pub open spec fn comp_covers(r: Seq<IntervalView>, ov: Seq<IntervalView>, bound: VersionView) -> bool {
    forall|v: VersionView|
        ver_wf(v) ==> (range_contains(ov, v) <==> (!range_contains(r, v) && ver_lt(v, bound)))
}

/// Entry step of complement: one piece from the floor to the first start.
proof fn lemma_comp_entry_piece(r: Seq<IntervalView>, ov: Seq<IntervalView>)
    requires
        range_wf(r),
        r.len() > 0,
        ver_lt(floor_view(), r[0].lo),
        ov == seq![IntervalView { lo: floor_view(), hi: Some(r[0].lo) }],
    ensures
        range_wf(ov),
        ov.last().hi == Some(r[0].lo),
        comp_covers(r, ov, r[0].lo),
{
    assert(iv_wf(r[0]));
    assert(ver_wf(floor_view()));
    assert forall|v: VersionView|
        ver_wf(v) implies (range_contains(ov, v) <==> (!range_contains(r, v) && ver_lt(
        v,
        r[0].lo,
    ))) by {
        lemma_floor_min(v);
        if range_contains(ov, v) {
            assert(iv_contains(ov[0], v));
            lemma_below_not_contained(r, v, 0);
        } else if ver_lt(v, r[0].lo) {
            assert(iv_contains(ov[0], v));
        }
    }
}

/// Entry step of complement when the first start is the floor: no piece.
proof fn lemma_comp_entry_empty(r: Seq<IntervalView>)
    requires
        range_wf(r),
        r.len() > 0,
        !ver_lt(floor_view(), r[0].lo),
    ensures
        comp_covers(r, Seq::<IntervalView>::empty(), r[0].lo),
{
    assert(iv_wf(r[0]));
    lemma_floor_min(r[0].lo);
    assert(r[0].lo == floor_view());
    assert forall|v: VersionView| ver_wf(v) implies !ver_lt(v, r[0].lo) by {
        lemma_floor_min(v);
        if ver_lt(v, floor_view()) {
            lemma_le_lt_trans(floor_view(), v, floor_view());
            lemma_ver_asym(floor_view(), floor_view());
        }
    }
}

/// Loop step of complement: append the gap between intervals `i` and `i+1`.
#[verifier::rlimit(100)]
#[verifier::spinoff_prover]
proof fn lemma_comp_step(r: Seq<IntervalView>, ov: Seq<IntervalView>, i: int)
    requires
        range_wf(r),
        0 <= i < r.len() - 1,
        range_wf(ov),
        ov.len() > 0 ==> ov.last().hi == Some(r[i].lo),
        comp_covers(r, ov, r[i].lo),
    ensures
        range_wf(ov.push(IntervalView { lo: r[i].hi->Some_0, hi: Some(r[i + 1].lo) })),
        ov.push(IntervalView { lo: r[i].hi->Some_0, hi: Some(r[i + 1].lo) }).last().hi == Some(
            r[i + 1].lo,
        ),
        comp_covers(
            r,
            ov.push(IntervalView { lo: r[i].hi->Some_0, hi: Some(r[i + 1].lo) }),
            r[i + 1].lo,
        ),
{
    let gap = IntervalView { lo: r[i].hi->Some_0, hi: Some(r[i + 1].lo) };
    let nv = ov.push(gap);
    assert(iv_wf(r[i]));
    assert(iv_wf(r[i + 1]));
    assert(iv_wf(gap));
    assert(range_wf(nv)) by {
        assert(forall|k: int| 0 <= k < ov.len() ==> nv[k] == #[trigger] ov[k]);
        assert(nv[nv.len() - 1] == gap);
    }
    assert forall|v: VersionView|
        ver_wf(v) implies (range_contains(nv, v) <==> (!range_contains(r, v) && ver_lt(
        v,
        r[i + 1].lo,
    ))) by {
        lemma_ver_conn(v, r[i].lo);
        if range_contains(nv, v) {
            let k = choose|k: int| 0 <= k < nv.len() && iv_contains(#[trigger] nv[k], v);
            if k < ov.len() {
                assert(iv_contains(ov[k], v));
                assert(range_contains(ov, v));
                lemma_ver_trans(v, r[i].lo, r[i].hi->Some_0);
                lemma_ver_trans(v, r[i].hi->Some_0, r[i + 1].lo);
            } else {
                assert(iv_contains(gap, v));
                lemma_above_not_contained(r, v, i);
                lemma_below_not_contained(r, v, i + 1);
            }
        } else {
            if !range_contains(r, v) && ver_lt(v, r[i + 1].lo) {
                if ver_lt(v, r[i].lo) {
                    assert(range_contains(ov, v));
                    let k = choose|k: int| 0 <= k < ov.len() && iv_contains(#[trigger] ov[k], v);
                    assert(iv_contains(nv[k], v));
                } else {
                    assert(!iv_contains(r[i], v));
                    lemma_ver_conn(v, r[i].hi->Some_0);
                    assert(iv_contains(gap, v));
                    assert(iv_contains(nv[nv.len() - 1], v));
                }
            }
        }
    }
}

/// Final step of complement when the last interval is bounded: append the
/// unbounded piece above it.
#[verifier::rlimit(100)]
#[verifier::spinoff_prover]
proof fn lemma_comp_tail_bounded(r: Seq<IntervalView>, ov: Seq<IntervalView>)
    requires
        range_wf(r),
        r.len() > 0,
        r[r.len() - 1].hi is Some,
        range_wf(ov),
        ov.len() > 0 ==> ov.last().hi == Some(r[r.len() - 1].lo),
        comp_covers(r, ov, r[r.len() - 1].lo),
    ensures
        range_wf(ov.push(IntervalView { lo: r[r.len() - 1].hi->Some_0, hi: None })),
        forall|v: VersionView|
            ver_wf(v) ==> (range_contains(
                ov.push(IntervalView { lo: r[r.len() - 1].hi->Some_0, hi: None }),
                v,
            ) <==> !range_contains(r, v)),
{
    let last = r.len() - 1;
    let tail = IntervalView { lo: r[last].hi->Some_0, hi: None };
    let nv = ov.push(tail);
    assert(iv_wf(r[last]));
    assert(iv_wf(tail));
    assert(range_wf(nv)) by {
        assert(forall|k: int| 0 <= k < ov.len() ==> nv[k] == #[trigger] ov[k]);
        assert(nv[nv.len() - 1] == tail);
    }
    assert forall|v: VersionView|
        ver_wf(v) implies (range_contains(nv, v) <==> !range_contains(r, v)) by {
        lemma_ver_conn(v, r[last].lo);
        if range_contains(nv, v) {
            let k = choose|k: int| 0 <= k < nv.len() && iv_contains(#[trigger] nv[k], v);
            if k < ov.len() {
                assert(iv_contains(ov[k], v));
                assert(range_contains(ov, v));
            } else {
                assert(iv_contains(tail, v));
                lemma_above_not_contained(r, v, last);
            }
        } else {
            if !range_contains(r, v) {
                if ver_lt(v, r[last].lo) {
                    assert(range_contains(ov, v));
                    let k = choose|k: int| 0 <= k < ov.len() && iv_contains(#[trigger] ov[k], v);
                    assert(iv_contains(nv[k], v));
                } else {
                    assert(!iv_contains(r[last], v));
                    lemma_ver_conn(v, r[last].hi->Some_0);
                    assert(iv_contains(tail, v));
                    assert(iv_contains(nv[nv.len() - 1], v));
                }
            }
        }
    }
}

/// Final step of complement when the last interval is unbounded: nothing to
/// append.
proof fn lemma_comp_tail_unbounded(r: Seq<IntervalView>, ov: Seq<IntervalView>)
    requires
        range_wf(r),
        r.len() > 0,
        r[r.len() - 1].hi is None,
        comp_covers(r, ov, r[r.len() - 1].lo),
    ensures
        forall|v: VersionView| ver_wf(v) ==> (range_contains(ov, v) <==> !range_contains(r, v)),
{
    let last = r.len() - 1;
    assert forall|v: VersionView|
        ver_wf(v) implies (range_contains(ov, v) <==> !range_contains(r, v)) by {
        if !range_contains(r, v) {
            lemma_ver_conn(v, r[last].lo);
            if !ver_lt(v, r[last].lo) {
                assert(iv_contains(r[last], v));
            }
        }
    }
}

/// The later of two start points.
pub open spec fn lo_max_view(a: VersionView, b: VersionView) -> VersionView {
    if ver_lt(a, b) {
        b
    } else {
        a
    }
}

/// The earlier of two upper bounds (`None` meaning unbounded).
pub open spec fn hi_min_view(a: Option<VersionView>, b: Option<VersionView>) -> Option<VersionView> {
    match (a, b) {
        (None, None) => None,
        (Some(x), None) => Some(x),
        (None, Some(y)) => Some(y),
        (Some(x), Some(y)) => if ver_lt(x, y) {
            Some(x)
        } else {
            Some(y)
        },
    }
}

/// The overlap of two intervals.
pub open spec fn overlap_view(a: IntervalView, b: IntervalView) -> IntervalView {
    IntervalView { lo: lo_max_view(a.lo, b.lo), hi: hi_min_view(a.hi, b.hi) }
}

/// The overlap contains exactly the versions both intervals contain.
proof fn lemma_overlap(a: IntervalView, b: IntervalView, v: VersionView)
    ensures
        iv_contains(overlap_view(a, b), v) <==> (iv_contains(a, v) && iv_contains(b, v)),
{
    lemma_ver_conn(a.lo, b.lo);
    if ver_lt(a.lo, b.lo) {
        if ver_le(b.lo, v) {
            lemma_lt_le_trans(a.lo, b.lo, v);
        }
    } else {
        if ver_le(a.lo, v) {
            lemma_le_trans(b.lo, a.lo, v);
        }
    }
    match (a.hi, b.hi) {
        (Some(x), Some(y)) => {
            lemma_ver_conn(x, y);
            if ver_lt(x, y) {
                if ver_lt(v, x) {
                    lemma_ver_trans(v, x, y);
                }
            } else {
                if ver_lt(v, y) {
                    lemma_lt_le_trans(v, y, x);
                }
            }
        }
        _ => {}
    }
}

/// While intersecting `ra` with `rb`, having fully processed the pairs up to
/// interval `i` of `ra` paired with interval `j` of `rb`: the pieces built so
/// far cover exactly the versions contained in both ranges that were reached
/// by a processed pair.
pub open spec fn inter_covers(
    ra: Seq<IntervalView>,
    rb: Seq<IntervalView>,
    ov: Seq<IntervalView>,
    i: int,
    j: int,
) -> bool {
    forall|v: VersionView|
        ver_wf(v) ==> (range_contains(ov, v) <==> (((exists|k: int|
            0 <= k < i && iv_contains(#[trigger] ra[k], v)) && range_contains(rb, v)) || (i
            < ra.len() && iv_contains(ra[i], v) && (exists|l: int|
            0 <= l < j && iv_contains(#[trigger] rb[l], v)))))
}

/// While intersecting: the last piece built, if any, is the overlap of the
/// pair `(li, lj)`, which lies strictly before the current pair `(i, j)`.
pub open spec fn inter_last_ok(
    ra: Seq<IntervalView>,
    rb: Seq<IntervalView>,
    ov: Seq<IntervalView>,
    li: int,
    lj: int,
    i: int,
    j: int,
) -> bool {
    ov.len() > 0 ==> (0 <= li < ra.len() && 0 <= lj < rb.len() && (li < i || (li == i && lj < j))
        && ov.last() == overlap_view(ra[li], rb[lj]))
}

/// Appending the non-empty overlap of the current pair keeps the list
/// normalized.
#[verifier::rlimit(100)]
#[verifier::spinoff_prover]
proof fn lemma_inter_push_wf(
    ra: Seq<IntervalView>,
    rb: Seq<IntervalView>,
    ov: Seq<IntervalView>,
    li: int,
    lj: int,
    i: int,
    j: int,
)
    requires
        range_wf(ra),
        range_wf(rb),
        0 <= i < ra.len(),
        0 <= j < rb.len(),
        range_wf(ov),
        inter_last_ok(ra, rb, ov, li, lj, i, j),
        below_hi(lo_max_view(ra[i].lo, rb[j].lo), hi_min_view(ra[i].hi, rb[j].hi)),
    ensures
        range_wf(ov.push(overlap_view(ra[i], rb[j]))),
        inter_last_ok(ra, rb, ov.push(overlap_view(ra[i], rb[j])), i, j, i, j + 1),
{
    let piece = overlap_view(ra[i], rb[j]);
    let nv = ov.push(piece);
    assert(iv_wf(ra[i]));
    assert(iv_wf(rb[j]));
    assert(iv_wf(piece));
    // Normalization: the previous piece closes strictly below this one.
    if ov.len() > 0 {
        let prev = ov.last();
        assert(prev == overlap_view(ra[li], rb[lj]));
        if li < i {
            lemma_wf_ordered(ra, li, i);
            let x = ra[li].hi->Some_0;
            assert(prev.hi is Some);
            let m = prev.hi->Some_0;
            assert(ver_le(m, x)) by {
                match rb[lj].hi {
                    None => {}
                    Some(y) => {
                        lemma_ver_conn(x, y);
                    }
                }
            }
            lemma_le_lt_trans(m, x, ra[i].lo);
            assert(ver_le(ra[i].lo, piece.lo)) by {
                lemma_ver_conn(ra[i].lo, rb[j].lo);
            }
            lemma_lt_le_trans(m, ra[i].lo, piece.lo);
        } else {
            assert(li == i && lj < j);
            lemma_wf_ordered(rb, lj, j);
            let y = rb[lj].hi->Some_0;
            assert(prev.hi is Some);
            let m = prev.hi->Some_0;
            assert(ver_le(m, y)) by {
                match ra[li].hi {
                    None => {}
                    Some(x) => {
                        lemma_ver_conn(x, y);
                    }
                }
            }
            lemma_le_lt_trans(m, y, rb[j].lo);
            assert(ver_le(rb[j].lo, piece.lo)) by {
                lemma_ver_conn(ra[i].lo, rb[j].lo);
            }
            lemma_lt_le_trans(m, rb[j].lo, piece.lo);
        }
    }
    assert(range_wf(nv)) by {
        assert(forall|k: int| 0 <= k < ov.len() ==> nv[k] == #[trigger] ov[k]);
        assert(nv[nv.len() - 1] == piece);
    }
}

/// Appending the overlap of the current pair extends the covered region to
/// that pair.
#[verifier::rlimit(100)]
#[verifier::spinoff_prover]
proof fn lemma_inter_push_covers(
    ra: Seq<IntervalView>,
    rb: Seq<IntervalView>,
    ov: Seq<IntervalView>,
    i: int,
    j: int,
)
    requires
        0 <= i < ra.len(),
        0 <= j < rb.len(),
        inter_covers(ra, rb, ov, i, j),
    ensures
        inter_covers(ra, rb, ov.push(overlap_view(ra[i], rb[j])), i, j + 1),
{
    let piece = overlap_view(ra[i], rb[j]);
    let nv = ov.push(piece);
    assert forall|v: VersionView|
        ver_wf(v) implies (range_contains(nv, v) <==> (((exists|k: int|
        0 <= k < i && iv_contains(#[trigger] ra[k], v)) && range_contains(rb, v)) || (i < ra.len()
        && iv_contains(ra[i], v) && (exists|l: int|
        0 <= l < j + 1 && iv_contains(#[trigger] rb[l], v))))) by {
        lemma_overlap(ra[i], rb[j], v);
        if range_contains(nv, v) {
            let k = choose|k: int| 0 <= k < nv.len() && iv_contains(#[trigger] nv[k], v);
            if k < ov.len() {
                assert(iv_contains(ov[k], v));
                assert(range_contains(ov, v));
            } else {
                assert(iv_contains(piece, v));
            }
        } else {
            if range_contains(ov, v) {
                let k = choose|k: int| 0 <= k < ov.len() && iv_contains(#[trigger] ov[k], v);
                assert(iv_contains(nv[k], v));
            }
            if iv_contains(piece, v) {
                assert(iv_contains(nv[nv.len() - 1], v));
            }
        }
    }
}

/// Skipping an empty overlap still accounts for the current pair.
#[verifier::rlimit(100)]
#[verifier::spinoff_prover]
proof fn lemma_inter_skip(
    ra: Seq<IntervalView>,
    rb: Seq<IntervalView>,
    ov: Seq<IntervalView>,
    i: int,
    j: int,
)
    requires
        0 <= i < ra.len(),
        0 <= j < rb.len(),
        inter_covers(ra, rb, ov, i, j),
        !below_hi(lo_max_view(ra[i].lo, rb[j].lo), hi_min_view(ra[i].hi, rb[j].hi)),
    ensures
        inter_covers(ra, rb, ov, i, j + 1),
{
    let piece = overlap_view(ra[i], rb[j]);
    assert forall|v: VersionView|
        ver_wf(v) implies !(iv_contains(ra[i], v) && iv_contains(rb[j], v)) by {
        lemma_overlap(ra[i], rb[j], v);
        if iv_contains(piece, v) {
            let h = piece.hi->Some_0;
            lemma_ver_conn(piece.lo, h);
            // h <= lo <= v < h
            lemma_le_trans(h, piece.lo, v);
            lemma_lt_le_trans(v, h, v);
            lemma_ver_asym(v, v);
        }
    }
    assert forall|v: VersionView|
        ver_wf(v) implies (range_contains(ov, v) <==> (((exists|k: int|
        0 <= k < i && iv_contains(#[trigger] ra[k], v)) && range_contains(rb, v)) || (i < ra.len()
        && iv_contains(ra[i], v) && (exists|l: int|
        0 <= l < j + 1 && iv_contains(#[trigger] rb[l], v))))) by {
        if iv_contains(ra[i], v) && (exists|l: int|
            0 <= l < j + 1 && iv_contains(#[trigger] rb[l], v)) {
            let l = choose|l: int| 0 <= l < j + 1 && iv_contains(#[trigger] rb[l], v);
            assert(!(iv_contains(ra[i], v) && iv_contains(rb[j], v)));
            assert(l < j);
        }
    }
}

/// Intersection step: all of `rb` has been paired with interval `i` of `ra`;
/// move to the next interval of `ra`.
#[verifier::spinoff_prover]
proof fn lemma_inter_advance(
    ra: Seq<IntervalView>,
    rb: Seq<IntervalView>,
    ov: Seq<IntervalView>,
    i: int,
)
    requires
        0 <= i < ra.len(),
        inter_covers(ra, rb, ov, i, rb.len() as int),
    ensures
        inter_covers(ra, rb, ov, i + 1, 0),
{
    assert forall|v: VersionView|
        ver_wf(v) implies (range_contains(ov, v) <==> ((exists|k: int|
        0 <= k < i + 1 && iv_contains(#[trigger] ra[k], v)) && range_contains(rb, v))) by {
        if (exists|k: int| 0 <= k < i + 1 && iv_contains(#[trigger] ra[k], v)) && range_contains(
            rb,
            v,
        ) {
            let k = choose|k: int| 0 <= k < i + 1 && iv_contains(#[trigger] ra[k], v);
            if k == i {
                assert(iv_contains(ra[i], v));
            }
        }
    }
}

/// A normalized non-empty range contains its first start point.
pub proof fn lemma_nonempty_witness(r: Seq<IntervalView>)
    requires
        range_wf(r),
        r.len() > 0,
    ensures
        range_contains(r, r[0].lo),
        ver_wf(r[0].lo),
{
    assert(iv_contains(r[0], r[0].lo));
}

// ---------------------------------------------------------------------------
// Executable operations.
// ---------------------------------------------------------------------------

/// For a release, the smallest version carrying its numeric core (its first
/// pre-release); for a pre-release, the version itself. Used to keep a
/// release upper bound from admitting that release's own pre-releases.
pub open spec fn release_guard(h: VersionView) -> VersionView {
    if h.pre.len() == 0 {
        VersionView { pre: seq![IdentView::Num(0)], ..h }
    } else {
        h
    }
}

impl Range {
    /// The empty set of versions.
    pub fn none() -> (out: Range)
        ensures
            range_wf(out@),
            out@.len() == 0,
            forall|v: VersionView| !range_contains(out@, v),
    {
        let out = Range { ivs: Vec::new() };
        proof {
            assert(out@ =~= Seq::<IntervalView>::empty());
        }
        out
    }

    /// The set of all versions.
    pub fn any() -> (out: Range)
        ensures
            range_wf(out@),
            forall|v: VersionView| ver_wf(v) ==> range_contains(out@, v),
    {
        let mut ivs: Vec<Interval> = Vec::new();
        ivs.push(Interval { lo: Version::floor(), hi: None });
        let out = Range { ivs };
        proof {
            assert forall|v: VersionView| ver_wf(v) implies range_contains(out@, v) by {
                lemma_floor_min(v);
                assert(iv_contains(out@[0], v));
            }
        }
        out
    }

    /// The set of all versions at or above `v`.
    pub fn higher_than(v: &Version) -> (out: Range)
        ensures
            range_wf(out@),
            forall|w: VersionView| range_contains(out@, w) <==> ver_le(v@, w),
    {
        let mut ivs: Vec<Interval> = Vec::new();
        ivs.push(Interval { lo: v.clone(), hi: None });
        let out = Range { ivs };
        proof {
            lemma_version_view_wf(v);
            assert forall|w: VersionView| range_contains(out@, w) <==> ver_le(v@, w) by {
                if ver_le(v@, w) {
                    assert(iv_contains(out@[0], w));
                }
            }
        }
        out
    }

    /// The set of all versions strictly below `v`.
    pub fn strictly_lower_than(v: &Version) -> (out: Range)
        ensures
            range_wf(out@),
            forall|w: VersionView|
                ver_wf(w) ==> (range_contains(out@, w) <==> ver_lt(w, v@)),
    {
        let fl = Version::floor();
        let mut ivs: Vec<Interval> = Vec::new();
        if fl.lt(v) {
            ivs.push(Interval { lo: fl, hi: Some(v.clone()) });
        }
        let out = Range { ivs };
        proof {
            lemma_version_view_wf(v);
            if out@.len() == 0 {
                // v is the floor: nothing lies strictly below it.
                lemma_floor_min(v@);
                assert forall|w: VersionView| ver_wf(w) implies !ver_lt(w, v@) by {
                    lemma_floor_min(w);
                    if ver_lt(w, v@) {
                        lemma_le_lt_trans(v@, w, v@);
                        lemma_ver_asym(v@, v@);
                    }
                }
                assert(out@ =~= Seq::<IntervalView>::empty());
            } else {
                assert forall|w: VersionView|
                    ver_wf(w) implies (range_contains(out@, w) <==> ver_lt(w, v@)) by {
                    lemma_floor_min(w);
                    if ver_lt(w, v@) {
                        assert(iv_contains(out@[0], w));
                    }
                }
            }
        }
        out
    }

    /// The set of versions `lo <= v < hi`.
    pub fn between(lo: &Version, hi: &Version) -> (out: Range)
        ensures
            range_wf(out@),
            forall|w: VersionView|
                range_contains(out@, w) <==> ver_le(lo@, w) && ver_lt(w, hi@),
    {
        let mut ivs: Vec<Interval> = Vec::new();
        if lo.lt(hi) {
            ivs.push(Interval { lo: lo.clone(), hi: Some(hi.clone()) });
        }
        let out = Range { ivs };
        proof {
            lemma_version_view_wf(lo);
            lemma_version_view_wf(hi);
            if out@.len() == 0 {
                // hi <= lo: the set is empty.
                lemma_ver_conn(lo@, hi@);
                assert forall|w: VersionView| !(ver_le(lo@, w) && ver_lt(w, hi@)) by {
                    if ver_le(lo@, w) && ver_lt(w, hi@) {
                        lemma_le_lt_trans(lo@, w, hi@);
                        lemma_ver_asym(lo@, hi@);
                        lemma_ver_asym(hi@, lo@);
                    }
                }
                assert(out@ =~= Seq::<IntervalView>::empty());
            } else {
                assert forall|w: VersionView|
                    range_contains(out@, w) <==> ver_le(lo@, w) && ver_lt(w, hi@) by {
                    if ver_le(lo@, w) && ver_lt(w, hi@) {
                        assert(iv_contains(out@[0], w));
                    }
                }
            }
        }
        out
    }

    /// The set containing exactly `v`: `[v, bump(v))`.
    pub fn exact(v: &Version) -> (out: Range)
        requires
            v.pre@.len() == 0 ==> v.patch < u64::MAX,
        ensures
            range_wf(out@),
            forall|w: VersionView| ver_wf(w) ==> (range_contains(out@, w) <==> w == v@),
    {
        let b = v.bump();
        proof {
            lemma_bump_above(v@);
        }
        let out = Self::between(v, &b);
        proof {
            assert forall|w: VersionView|
                ver_wf(w) implies (range_contains(out@, w) <==> w == v@) by {
                if range_contains(out@, w) {
                    // v <= w < bump(v) forces w == v.
                    if w != v@ {
                        lemma_bump_successor(v@, w);
                        lemma_le_lt_trans(bump_view(v@), w, bump_view(v@));
                        lemma_ver_asym(bump_view(v@), bump_view(v@));
                    }
                }
            }
        }
        out
    }

    /// The set described by the bound pair `>= lo and < hi` of a requirement.
    /// A release upper bound is tightened to that release's first
    /// pre-release, so that a requirement that does not mention a pre-release
    /// does not admit the pre-releases of its upper bound.
    pub fn from_bounds(lo: &Version, hi: &Version) -> (out: Range)
        ensures
            range_wf(out@),
            forall|w: VersionView|
                range_contains(out@, w) <==> ver_le(lo@, w) && ver_lt(w, release_guard(hi@)),
    {
        if hi.pre.len() == 0 {
            let mut pre: Vec<Ident> = Vec::new();
            pre.push(Ident::Num(0));
            let guard = Version { major: hi.major, minor: hi.minor, patch: hi.patch, pre };
            proof {
                assert(guard@.pre =~= seq![IdentView::Num(0)]);
                assert(guard@ =~= release_guard(hi@));
            }
            Self::between(lo, &guard)
        } else {
            proof {
                assert(release_guard(hi@) == hi@);
            }
            Self::between(lo, hi)
        }
    }

    /// Containment test.
    pub fn contains(&self, v: &Version) -> (r: bool)
        ensures
            r == range_contains(self@, v@),
    {
        let mut i: usize = 0;
        while i < self.ivs.len()
            invariant
                0 <= i <= self.ivs@.len(),
                forall|k: int| 0 <= k < i ==> !iv_contains(self@[k], v@),
            decreases self.ivs@.len() - i,
        {
            let iv = &self.ivs[i];
            if iv.lo.le(v) {
                let below = match &iv.hi {
                    None => true,
                    Some(h) => v.lt(h),
                };
                if below {
                    proof {
                        assert(iv_contains(self@[i as int], v@));
                    }
                    return true;
                }
            }
            i = i + 1;
        }
        false
    }

    /// Build the complement's pieces that lie below the last interval's
    /// start: one piece below the first interval, then one piece per gap.
    #[verifier::rlimit(100)]
    #[verifier::spinoff_prover]
    fn complement_gaps(&self) -> (ivs: Vec<Interval>)
        requires
            range_wf(self@),
            self@.len() > 0,
        ensures
            range_wf(ivs_view(ivs@)),
            ivs@.len() > 0 ==> ivs_view(ivs@).last().hi == Some(self@[self@.len() - 1].lo),
            comp_covers(self@, ivs_view(ivs@), self@[self@.len() - 1].lo),
    {
        let ghost r = self@;
        let n = self.ivs.len();
        let mut ivs: Vec<Interval> = Vec::new();
        let fl = Version::floor();
        if fl.lt(&self.ivs[0].lo) {
            ivs.push(Interval { lo: fl, hi: Some(self.ivs[0].lo.clone()) });
            proof {
                assert(ivs_view(ivs@) =~= seq![
                    IntervalView { lo: floor_view(), hi: Some(r[0].lo) },
                ]);
                lemma_comp_entry_piece(r, ivs_view(ivs@));
            }
        } else {
            proof {
                assert(ivs_view(ivs@) =~= Seq::<IntervalView>::empty());
                lemma_comp_entry_empty(r);
            }
        }
        let mut i: usize = 0;
        while i < n - 1
            invariant
                range_wf(r),
                r == self@,
                n == r.len(),
                1 <= n,
                n == self.ivs.len(),
                0 <= i <= n - 1,
                range_wf(ivs_view(ivs@)),
                ivs@.len() > 0 ==> ivs_view(ivs@).last().hi == Some(r[i as int].lo),
                comp_covers(r, ivs_view(ivs@), r[i as int].lo),
            decreases n - 1 - i,
        {
            let gap_lo = match &self.ivs[i].hi {
                Some(h) => h.clone(),
                None => {
                    proof {
                        assert(r[i as int].hi is Some);
                        assert(false);
                    }
                    Version::floor()
                }
            };
            let gap = Interval { lo: gap_lo, hi: Some(self.ivs[i + 1].lo.clone()) };
            let ghost old_ivs = ivs@;
            ivs.push(gap);
            proof {
                lemma_ivs_view_push(old_ivs, ivs@[ivs@.len() - 1]);
                assert(ivs@[ivs@.len() - 1]@ == IntervalView {
                    lo: r[i as int].hi->Some_0,
                    hi: Some(r[i as int + 1].lo),
                });
                lemma_comp_step(r, ivs_view(old_ivs), i as int);
            }
            i = i + 1;
        }
        ivs
    }

    /// The complement set: exactly the versions this range does not contain.
    #[verifier::rlimit(100)]
    #[verifier::spinoff_prover]
    pub fn complement(&self) -> (out: Range)
        requires
            range_wf(self@),
        ensures
            range_wf(out@),
            forall|v: VersionView|
                ver_wf(v) ==> (range_contains(out@, v) <==> !range_contains(self@, v)),
    {
        let ghost r = self@;
        let n = self.ivs.len();
        if n == 0 {
            let mut ivs: Vec<Interval> = Vec::new();
            ivs.push(Interval { lo: Version::floor(), hi: None });
            let out = Range { ivs };
            proof {
                assert(out@.len() == 1);
                assert(out@[0].lo == floor_view());
                assert(out@[0].hi is None);
                assert forall|v: VersionView| ver_wf(v) implies range_contains(out@, v) by {
                    lemma_floor_min(v);
                    assert(iv_contains(out@[0], v));
                }
            }
            return out;
        }
        let mut ivs = self.complement_gaps();
        let ghost pre_tail = ivs@;
        match &self.ivs[n - 1].hi {
            Some(h) => {
                let tail = Interval { lo: h.clone(), hi: None };
                ivs.push(tail);
                let out = Range { ivs };
                proof {
                    lemma_ivs_view_push(pre_tail, ivs@[ivs@.len() - 1]);
                    assert(ivs@[ivs@.len() - 1]@ == IntervalView {
                        lo: r[n - 1].hi->Some_0,
                        hi: None,
                    });
                    lemma_comp_tail_bounded(r, ivs_view(pre_tail));
                }
                out
            }
            None => {
                let out = Range { ivs };
                proof {
                    assert(out@ == ivs_view(pre_tail));
                    lemma_comp_tail_unbounded(r, ivs_view(pre_tail));
                }
                out
            }
        }
    }

    /// The intersection: exactly the versions contained in both ranges.
    #[verifier::rlimit(100)]
    #[verifier::spinoff_prover]
    pub fn intersect(&self, other: &Range) -> (out: Range)
        requires
            range_wf(self@),
            range_wf(other@),
        ensures
            range_wf(out@),
            forall|v: VersionView|
                ver_wf(v) ==> (range_contains(out@, v) <==> (range_contains(self@, v)
                    && range_contains(other@, v))),
    {
        let ghost ra = self@;
        let ghost rb = other@;
        let na = self.ivs.len();
        let nb = other.ivs.len();
        let mut ivs: Vec<Interval> = Vec::new();
        let ghost mut li: int = 0;
        let ghost mut lj: int = 0;
        let mut i: usize = 0;
        proof {
            assert(ivs_view(ivs@) =~= Seq::<IntervalView>::empty());
        }
        while i < na
            invariant
                range_wf(ra),
                range_wf(rb),
                ra == self@,
                rb == other@,
                na == ra.len(),
                nb == rb.len(),
                na == self.ivs.len(),
                nb == other.ivs.len(),
                0 <= i <= na,
                range_wf(ivs_view(ivs@)),
                inter_last_ok(ra, rb, ivs_view(ivs@), li, lj, i as int, 0),
                inter_covers(ra, rb, ivs_view(ivs@), i as int, 0),
            decreases na - i,
        {
            let mut j: usize = 0;
            while j < nb
                invariant
                    range_wf(ra),
                    range_wf(rb),
                    ra == self@,
                    rb == other@,
                    na == ra.len(),
                    nb == rb.len(),
                    na == self.ivs.len(),
                    nb == other.ivs.len(),
                    0 <= i < na,
                    0 <= j <= nb,
                    range_wf(ivs_view(ivs@)),
                    inter_last_ok(ra, rb, ivs_view(ivs@), li, lj, i as int, j as int),
                    inter_covers(ra, rb, ivs_view(ivs@), i as int, j as int),
                decreases nb - j,
            {
                let a_iv = &self.ivs[i];
                let b_iv = &other.ivs[j];
                let lo = if a_iv.lo.lt(&b_iv.lo) {
                    b_iv.lo.clone()
                } else {
                    a_iv.lo.clone()
                };
                let hi: Option<Version> = match (&a_iv.hi, &b_iv.hi) {
                    (None, None) => None,
                    (Some(x), None) => Some(x.clone()),
                    (None, Some(y)) => Some(y.clone()),
                    (Some(x), Some(y)) => if x.lt(y) {
                        Some(x.clone())
                    } else {
                        Some(y.clone())
                    },
                };
                proof {
                    assert(lo@ == lo_max_view(ra[i as int].lo, rb[j as int].lo));
                    assert((match hi {
                        Some(h) => Some(h@),
                        None => None,
                    }) == hi_min_view(ra[i as int].hi, rb[j as int].hi));
                }
                let nonempty = match &hi {
                    None => true,
                    Some(h) => lo.lt(h),
                };
                if nonempty {
                    let ghost old_ivs = ivs@;
                    ivs.push(Interval { lo, hi });
                    proof {
                        lemma_ivs_view_push(old_ivs, ivs@[ivs@.len() - 1]);
                        assert(ivs@[ivs@.len() - 1]@ == overlap_view(ra[i as int], rb[j as int]));
                        lemma_inter_push_wf(ra, rb, ivs_view(old_ivs), li, lj, i as int, j as int);
                        lemma_inter_push_covers(ra, rb, ivs_view(old_ivs), i as int, j as int);
                        li = i as int;
                        lj = j as int;
                    }
                } else {
                    proof {
                        lemma_inter_skip(ra, rb, ivs_view(ivs@), i as int, j as int);
                    }
                }
                j = j + 1;
            }
            proof {
                lemma_inter_advance(ra, rb, ivs_view(ivs@), i as int);
            }
            i = i + 1;
        }
        let out = Range { ivs };
        proof {
            assert forall|v: VersionView|
                ver_wf(v) implies (range_contains(out@, v) <==> (range_contains(ra, v)
                && range_contains(rb, v))) by {
                if range_contains(ra, v) {
                    let k = choose|k: int| 0 <= k < ra.len() && iv_contains(#[trigger] ra[k], v);
                    assert(0 <= k < na && iv_contains(ra[k], v));
                }
            }
        }
        out
    }

    /// The union: exactly the versions contained in either range.
    pub fn union(&self, other: &Range) -> (out: Range)
        requires
            range_wf(self@),
            range_wf(other@),
        ensures
            range_wf(out@),
            forall|v: VersionView|
                ver_wf(v) ==> (range_contains(out@, v) <==> (range_contains(self@, v)
                    || range_contains(other@, v))),
    {
        let ca = self.complement();
        let cb = other.complement();
        let both = ca.intersect(&cb);
        both.complement()
    }

    /// Whether every well-formed version is contained. A normalized range
    /// contains everything exactly when its complement is empty.
    pub fn is_full(&self) -> (r: bool)
        requires
            range_wf(self@),
        ensures
            r == (forall|v: VersionView| ver_wf(v) ==> range_contains(self@, v)),
    {
        let c = self.complement();
        let empty = c.is_empty();
        proof {
            if empty {
                assert forall|v: VersionView| ver_wf(v) implies range_contains(self@, v) by {
                    assert(!range_contains(c@, v));
                }
            } else {
                lemma_nonempty_witness(c@);
                let w = choose|v: VersionView| ver_wf(v) && range_contains(c@, v);
                assert(!range_contains(self@, w));
            }
        }
        empty
    }

    /// Emptiness test. A normalized range is empty exactly when it has no
    /// intervals, so this decides whether any version at all is contained.
    pub fn is_empty(&self) -> (r: bool)
        requires
            range_wf(self@),
        ensures
            r == (self@.len() == 0),
            r == !(exists|v: VersionView| ver_wf(v) && range_contains(self@, v)),
    {
        proof {
            if self@.len() > 0 {
                lemma_nonempty_witness(self@);
            }
        }
        self.ivs.len() == 0
    }
}

impl Clone for Interval {
    /// Clone preserves the interval's bounds.
    fn clone(&self) -> (r: Self)
        ensures
            r@ == self@,
    {
        Interval {
            lo: self.lo.clone(),
            hi: match &self.hi {
                Some(h) => Some(h.clone()),
                None => None,
            },
        }
    }
}

impl Clone for Range {
    /// Clone preserves the set of versions.
    fn clone(&self) -> (r: Self)
        ensures
            r@ == self@,
    {
        let mut ivs: Vec<Interval> = Vec::new();
        let mut i: usize = 0;
        while i < self.ivs.len()
            invariant
                0 <= i <= self.ivs@.len(),
                ivs@.len() == i,
                forall|k: int| 0 <= k < i ==> ivs@[k]@ == #[trigger] self.ivs@[k]@,
            decreases self.ivs@.len() - i,
        {
            ivs.push(self.ivs[i].clone());
            i = i + 1;
        }
        let r = Range { ivs };
        proof {
            assert(r@ =~= self@);
        }
        r
    }
}

} // verus!
