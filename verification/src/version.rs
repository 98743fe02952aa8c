//! Versions: totally ordered identifiers with pre-release semantics.
//!
//! A version is a numeric core `major.minor.patch` plus an optional series of
//! pre-release identifiers. A version with pre-release identifiers orders
//! strictly below the release with the same numeric core; among themselves,
//! pre-release identifier series compare lexicographically, numeric
//! identifiers before alphanumeric ones. The order admits a successor
//! operation `bump`: `bump(v)` is the smallest version strictly above `v`.

use vstd::prelude::*;

verus! {

/// One pre-release identifier: either numeric or alphanumeric (raw bytes).
pub enum Ident {
    Num(u64),
    Alpha(Vec<u8>),
}

/// Mathematical model of an identifier.
#[verifier::ext_equal]
pub enum IdentView {
    Num(int),
    Alpha(Seq<u8>),
}

impl View for Ident {
    type V = IdentView;

    open spec fn view(&self) -> IdentView {
        match self {
            Ident::Num(n) => IdentView::Num(*n as int),
            Ident::Alpha(s) => IdentView::Alpha(s@),
        }
    }
}

/// A version: numeric core plus pre-release identifiers.
/// An empty `pre` means the version is a release.
pub struct Version {
    pub major: u64,
    pub minor: u64,
    pub patch: u64,
    pub pre: Vec<Ident>,
}

/// Mathematical model of a version.
#[verifier::ext_equal]
pub struct VersionView {
    pub major: int,
    pub minor: int,
    pub patch: int,
    pub pre: Seq<IdentView>,
}

impl View for Version {
    type V = VersionView;

    open spec fn view(&self) -> VersionView {
        VersionView {
            major: self.major as int,
            minor: self.minor as int,
            patch: self.patch as int,
            pre: Seq::new(self.pre@.len(), |i: int| self.pre@[i]@),
        }
    }
}

/// Lexicographic order on byte strings; a proper prefix orders below its
/// extensions.
pub open spec fn bytes_lt(a: Seq<u8>, b: Seq<u8>) -> bool
    decreases a.len(),
{
    if b.len() == 0 {
        false
    } else if a.len() == 0 {
        true
    } else if a[0] != b[0] {
        a[0] < b[0]
    } else {
        bytes_lt(a.skip(1), b.skip(1))
    }
}

/// Order on identifiers: numeric before alphanumeric, numeric by value,
/// alphanumeric lexicographically by bytes.
pub open spec fn ident_lt(a: IdentView, b: IdentView) -> bool {
    match (a, b) {
        (IdentView::Num(x), IdentView::Num(y)) => x < y,
        (IdentView::Num(_), IdentView::Alpha(_)) => true,
        (IdentView::Alpha(_), IdentView::Num(_)) => false,
        (IdentView::Alpha(x), IdentView::Alpha(y)) => bytes_lt(x, y),
    }
}

/// Lexicographic order on pre-release identifier series; a proper prefix
/// orders below its extensions. (The twist that an empty series means
/// "release" and orders above every non-empty series lives in `ver_lt`.)
pub open spec fn pre_lt(a: Seq<IdentView>, b: Seq<IdentView>) -> bool
    decreases a.len(),
{
    if b.len() == 0 {
        false
    } else if a.len() == 0 {
        true
    } else if a[0] != b[0] {
        ident_lt(a[0], b[0])
    } else {
        pre_lt(a.skip(1), b.skip(1))
    }
}

/// The strict total order on versions: numeric cores compare
/// lexicographically; with equal cores, a pre-release orders below the
/// release, and pre-release series compare by `pre_lt`.
pub open spec fn ver_lt(a: VersionView, b: VersionView) -> bool {
    if a.major != b.major {
        a.major < b.major
    } else if a.minor != b.minor {
        a.minor < b.minor
    } else if a.patch != b.patch {
        a.patch < b.patch
    } else if a.pre.len() == 0 {
        false
    } else if b.pre.len() == 0 {
        true
    } else {
        pre_lt(a.pre, b.pre)
    }
}

pub open spec fn ver_le(a: VersionView, b: VersionView) -> bool {
    ver_lt(a, b) || a == b
}

/// The smallest version strictly above `v`: append the smallest identifier to
/// a pre-release, or move a release to the first pre-release of the next
/// patch core.
pub open spec fn bump_view(v: VersionView) -> VersionView {
    if v.pre.len() == 0 {
        VersionView { patch: v.patch + 1, pre: seq![IdentView::Num(0)], ..v }
    } else {
        VersionView { pre: v.pre.push(IdentView::Num(0)), ..v }
    }
}

/// The smallest version overall: core 0.0.0 with the smallest pre-release.
pub open spec fn floor_view() -> VersionView {
    VersionView { major: 0, minor: 0, patch: 0, pre: seq![IdentView::Num(0)] }
}

/// Identifier models that arise from executable identifiers: numeric values
/// are non-negative.
pub open spec fn ident_wf(i: IdentView) -> bool {
    match i {
        IdentView::Num(n) => n >= 0,
        IdentView::Alpha(_) => true,
    }
}

pub open spec fn pre_wf(p: Seq<IdentView>) -> bool {
    forall|k: int| 0 <= k < p.len() ==> ident_wf(#[trigger] p[k])
}

/// Version models that arise from executable versions.
pub open spec fn ver_wf(v: VersionView) -> bool {
    v.major >= 0 && v.minor >= 0 && v.patch >= 0 && pre_wf(v.pre)
}

/// The model of every executable version is well formed.
pub proof fn lemma_version_view_wf(v: &Version)
    ensures
        ver_wf(v@),
{
}

// ---------------------------------------------------------------------------
// Order lemmas: trichotomy, asymmetry, transitivity.
// ---------------------------------------------------------------------------

pub proof fn lemma_bytes_conn(a: Seq<u8>, b: Seq<u8>)
    ensures
        bytes_lt(a, b) || bytes_lt(b, a) || a == b,
    decreases a.len(),
{
    if b.len() == 0 || a.len() == 0 {
        if a.len() == 0 && b.len() == 0 {
            assert(a =~= b);
        }
    } else if a[0] == b[0] {
        lemma_bytes_conn(a.skip(1), b.skip(1));
        if a.skip(1) == b.skip(1) {
            assert(a.skip(1).len() == a.len() - 1);
            assert(b.skip(1).len() == b.len() - 1);
            assert(a.len() == b.len());
            assert forall|i: int| 0 <= i < a.len() implies a[i] == b[i] by {
                if i >= 1 {
                    assert(a.skip(1)[i - 1] == a[i]);
                    assert(b.skip(1)[i - 1] == b[i]);
                }
            }
            assert(a =~= b);
        }
    }
}

pub proof fn lemma_bytes_asym(a: Seq<u8>, b: Seq<u8>)
    ensures
        bytes_lt(a, b) ==> !bytes_lt(b, a) && a != b,
    decreases a.len(),
{
    if a.len() != 0 && b.len() != 0 && a[0] == b[0] {
        lemma_bytes_asym(a.skip(1), b.skip(1));
        if bytes_lt(a, b) {
            assert(a.skip(1) != b.skip(1));
            assert(a != b);
        }
    } else if bytes_lt(a, b) {
        assert(b.len() != 0);
        if a.len() != 0 {
            assert(a[0] != b[0]);
        }
        assert(a != b);
    }
}

pub proof fn lemma_bytes_trans(a: Seq<u8>, b: Seq<u8>, c: Seq<u8>)
    requires
        bytes_lt(a, b),
        bytes_lt(b, c),
    ensures
        bytes_lt(a, c),
    decreases a.len() + b.len() + c.len(),
{
    if a.len() == 0 {
        // bytes_lt(b, c) forces c nonempty, so bytes_lt(a, c).
    } else {
        // a nonempty; bytes_lt(a, b) forces b nonempty; bytes_lt(b, c) forces
        // c nonempty.
        if a[0] == b[0] && b[0] == c[0] {
            lemma_bytes_trans(a.skip(1), b.skip(1), c.skip(1));
        }
    }
}

pub proof fn lemma_ident_conn(a: IdentView, b: IdentView)
    ensures
        ident_lt(a, b) || ident_lt(b, a) || a == b,
{
    match (a, b) {
        (IdentView::Alpha(x), IdentView::Alpha(y)) => {
            lemma_bytes_conn(x, y);
        }
        _ => {}
    }
}

pub proof fn lemma_ident_asym(a: IdentView, b: IdentView)
    ensures
        ident_lt(a, b) ==> !ident_lt(b, a) && a != b,
{
    match (a, b) {
        (IdentView::Alpha(x), IdentView::Alpha(y)) => {
            lemma_bytes_asym(x, y);
        }
        _ => {}
    }
}

pub proof fn lemma_ident_trans(a: IdentView, b: IdentView, c: IdentView)
    requires
        ident_lt(a, b),
        ident_lt(b, c),
    ensures
        ident_lt(a, c),
{
    match (a, b, c) {
        (IdentView::Alpha(x), IdentView::Alpha(y), IdentView::Alpha(z)) => {
            lemma_bytes_trans(x, y, z);
        }
        _ => {}
    }
}

pub proof fn lemma_pre_conn(a: Seq<IdentView>, b: Seq<IdentView>)
    ensures
        pre_lt(a, b) || pre_lt(b, a) || a == b,
    decreases a.len(),
{
    if b.len() == 0 || a.len() == 0 {
        if a.len() == 0 && b.len() == 0 {
            assert(a =~= b);
        }
    } else if a[0] == b[0] {
        lemma_pre_conn(a.skip(1), b.skip(1));
        if a.skip(1) == b.skip(1) {
            assert(a.skip(1).len() == a.len() - 1);
            assert(b.skip(1).len() == b.len() - 1);
            assert(a.len() == b.len());
            assert forall|i: int| 0 <= i < a.len() implies a[i] == b[i] by {
                if i >= 1 {
                    assert(a.skip(1)[i - 1] == a[i]);
                    assert(b.skip(1)[i - 1] == b[i]);
                }
            }
            assert(a =~= b);
        }
    } else {
        lemma_ident_conn(a[0], b[0]);
    }
}

pub proof fn lemma_pre_asym(a: Seq<IdentView>, b: Seq<IdentView>)
    ensures
        pre_lt(a, b) ==> !pre_lt(b, a) && a != b,
    decreases a.len(),
{
    if a.len() != 0 && b.len() != 0 && a[0] == b[0] {
        lemma_pre_asym(a.skip(1), b.skip(1));
        if pre_lt(a, b) {
            assert(a.skip(1) != b.skip(1));
            assert(a != b);
        }
    } else if pre_lt(a, b) {
        assert(b.len() != 0);
        if a.len() != 0 {
            lemma_ident_asym(a[0], b[0]);
        }
        assert(a != b);
    }
}

pub proof fn lemma_pre_trans(a: Seq<IdentView>, b: Seq<IdentView>, c: Seq<IdentView>)
    requires
        pre_lt(a, b),
        pre_lt(b, c),
    ensures
        pre_lt(a, c),
    decreases a.len() + b.len() + c.len(),
{
    if a.len() == 0 {
    } else {
        if a[0] == b[0] && b[0] == c[0] {
            lemma_pre_trans(a.skip(1), b.skip(1), c.skip(1));
        } else if a[0] == b[0] {
            // heads of b and c differ, ident_lt(b[0], c[0]) = ident_lt(a[0], c[0])
        } else if b[0] == c[0] {
        } else {
            lemma_ident_trans(a[0], b[0], c[0]);
            lemma_ident_asym(a[0], b[0]);
            lemma_ident_asym(b[0], c[0]);
            lemma_ident_asym(a[0], c[0]);
        }
    }
}

/// Exactly one of `ver_lt(a, b)`, `a == b`, `ver_lt(b, a)` holds.
pub proof fn lemma_ver_conn(a: VersionView, b: VersionView)
    ensures
        ver_lt(a, b) || ver_lt(b, a) || a == b,
{
    if a.major == b.major && a.minor == b.minor && a.patch == b.patch {
        if a.pre.len() != 0 && b.pre.len() != 0 {
            lemma_pre_conn(a.pre, b.pre);
            if a.pre == b.pre {
                assert(a =~= b);
            }
        } else if a.pre.len() == 0 && b.pre.len() == 0 {
            assert(a.pre =~= b.pre);
            assert(a =~= b);
        }
    }
}

pub proof fn lemma_ver_asym(a: VersionView, b: VersionView)
    ensures
        ver_lt(a, b) ==> !ver_lt(b, a) && a != b,
{
    if ver_lt(a, b) && a.major == b.major && a.minor == b.minor && a.patch == b.patch {
        if a.pre.len() != 0 && b.pre.len() != 0 {
            lemma_pre_asym(a.pre, b.pre);
        }
    }
}

pub proof fn lemma_ver_trans(a: VersionView, b: VersionView, c: VersionView)
    requires
        ver_lt(a, b),
        ver_lt(b, c),
    ensures
        ver_lt(a, c),
{
    if a.major == b.major && b.major == c.major && a.minor == b.minor && b.minor == c.minor
        && a.patch == b.patch && b.patch == c.patch {
        if a.pre.len() != 0 && b.pre.len() != 0 && c.pre.len() != 0 {
            lemma_pre_trans(a.pre, b.pre, c.pre);
        }
    }
}

// ---------------------------------------------------------------------------
// Successor lemmas.
// ---------------------------------------------------------------------------

/// `Num(0)` is the smallest identifier.
proof fn lemma_ident_floor(i: IdentView)
    requires
        ident_wf(i),
    ensures
        ident_lt(IdentView::Num(0), i) || i == IdentView::Num(0),
{
}

/// `[Num(0)]` is the smallest non-empty identifier series.
proof fn lemma_pre_floor(p: Seq<IdentView>)
    requires
        p.len() != 0,
        pre_wf(p),
    ensures
        pre_lt(seq![IdentView::Num(0)], p) || p == seq![IdentView::Num(0)],
{
    let z = seq![IdentView::Num(0)];
    lemma_ident_floor(p[0]);
    if p[0] == IdentView::Num(0int) {
        if p.len() == 1 {
            assert(p =~= z);
        } else {
            assert(z[0] == p[0]);
            assert(z.skip(1).len() == 0);
            assert(p.skip(1).len() != 0);
            assert(pre_lt(z.skip(1), p.skip(1)));
        }
    } else {
        assert(z[0] != p[0]);
        assert(ident_lt(z[0], p[0]));
    }
}

/// A series orders strictly below itself extended by any identifier.
proof fn lemma_pre_lt_push(p: Seq<IdentView>, x: IdentView)
    ensures
        pre_lt(p, p.push(x)),
    decreases p.len(),
{
    if p.len() == 0 {
    } else {
        assert(p.push(x)[0] == p[0]);
        lemma_pre_lt_push(p.skip(1), x);
        assert(p.push(x).skip(1) =~= p.skip(1).push(x));
    }
}

/// If `p < q` then extending `p` by the smallest identifier stays at or
/// below `q`.
proof fn lemma_pre_push_succ(p: Seq<IdentView>, q: Seq<IdentView>)
    requires
        pre_lt(p, q),
        pre_wf(q),
    ensures
        pre_lt(p.push(IdentView::Num(0)), q) || p.push(IdentView::Num(0)) == q,
    decreases p.len(),
{
    let pz = p.push(IdentView::Num(0));
    if p.len() == 0 {
        lemma_pre_floor(q);
        assert(pz =~= seq![IdentView::Num(0)]);
    } else {
        // q nonempty since pre_lt(p, q)
        if p[0] == q[0] {
            assert(pre_wf(q.skip(1))) by {
                assert(forall|k: int|
                    0 <= k < q.skip(1).len() ==> #[trigger] q.skip(1)[k] == q[k + 1]);
            }
            lemma_pre_push_succ(p.skip(1), q.skip(1));
            assert(pz[0] == p[0]);
            assert(pz.skip(1) =~= p.skip(1).push(IdentView::Num(0)));
            if p.skip(1).push(IdentView::Num(0)) == q.skip(1) {
                assert(pz.len() == q.len());
                assert forall|i: int| 0 <= i < pz.len() implies pz[i] == q[i] by {
                    if i >= 1 {
                        assert(pz.skip(1)[i - 1] == pz[i]);
                        assert(q.skip(1)[i - 1] == q[i]);
                    }
                }
                assert(pz =~= q);
            } else {
                assert(pre_lt(pz, q));
            }
        } else {
            assert(ident_lt(p[0], q[0]));
            assert(pz[0] == p[0]);
        }
    }
}

/// `bump` yields a strictly greater version.
pub proof fn lemma_bump_above(v: VersionView)
    ensures
        ver_lt(v, bump_view(v)),
{
    if v.pre.len() == 0 {
    } else {
        lemma_pre_lt_push(v.pre, IdentView::Num(0));
    }
}

/// `bump` yields the successor: no version lies strictly between `v` and
/// `bump(v)`.
pub proof fn lemma_bump_successor(v: VersionView, w: VersionView)
    requires
        ver_lt(v, w),
        ver_wf(w),
    ensures
        ver_le(bump_view(v), w),
{
    let bv = bump_view(v);
    if v.pre.len() == 0 {
        // Core strictly increases from v to w.
        if w.major == v.major && w.minor == v.minor && w.patch == v.patch + 1 {
            if w.pre.len() == 0 {
                assert(ver_lt(bv, w));
            } else {
                lemma_pre_floor(w.pre);
                if w.pre == seq![IdentView::Num(0)] {
                    assert(bv =~= w);
                } else {
                    assert(ver_lt(bv, w));
                }
            }
        } else {
            assert(ver_lt(bv, w));
        }
    } else {
        if w.major == v.major && w.minor == v.minor && w.patch == v.patch {
            if w.pre.len() == 0 {
                assert(bv.pre.len() != 0);
                assert(ver_lt(bv, w));
            } else {
                lemma_pre_push_succ(v.pre, w.pre);
                if v.pre.push(IdentView::Num(0)) == w.pre {
                    assert(bv =~= w);
                }
            }
        }
    }
}

/// The floor is at or below every version.
pub proof fn lemma_floor_min(v: VersionView)
    requires
        ver_wf(v),
    ensures
        ver_le(floor_view(), v),
{
    let f = floor_view();
    if v.major == 0 && v.minor == 0 && v.patch == 0 {
        if v.pre.len() == 0 {
            assert(ver_lt(f, v));
        } else {
            lemma_pre_floor(v.pre);
            if v.pre == seq![IdentView::Num(0)] {
                assert(f =~= v);
            }
        }
    }
}

// ---------------------------------------------------------------------------
// Executable operations.
// ---------------------------------------------------------------------------

/// Outcome of a three-way comparison.
pub enum Cmp {
    Lt,
    Eq,
    Gt,
}

/// If two byte strings agree on a prefix, their order is decided by the rest.
proof fn lemma_bytes_lt_skip(a: Seq<u8>, b: Seq<u8>, i: int)
    requires
        0 <= i <= a.len(),
        i <= b.len(),
        forall|k: int| 0 <= k < i ==> a[k] == b[k],
    ensures
        bytes_lt(a, b) == bytes_lt(a.skip(i), b.skip(i)),
    decreases i,
{
    if i > 0 {
        assert(bytes_lt(a, b) == bytes_lt(a.skip(1), b.skip(1)));
        lemma_bytes_lt_skip(a.skip(1), b.skip(1), i - 1);
        assert(a.skip(1).skip(i - 1) =~= a.skip(i));
        assert(b.skip(1).skip(i - 1) =~= b.skip(i));
    } else {
        assert(a.skip(0) =~= a);
        assert(b.skip(0) =~= b);
    }
}

/// Three-way comparison of byte strings in lexicographic order.
fn cmp_bytes(a: &Vec<u8>, b: &Vec<u8>) -> (c: Cmp)
    ensures
        c is Lt <==> bytes_lt(a@, b@),
        c is Gt <==> bytes_lt(b@, a@),
        c is Eq <==> a@ == b@,
{
    proof {
        lemma_bytes_conn(a@, b@);
        lemma_bytes_asym(a@, b@);
        lemma_bytes_asym(b@, a@);
    }
    let n: usize = if a.len() < b.len() { a.len() } else { b.len() };
    let mut i: usize = 0;
    while i < n
        invariant
            0 <= i <= n,
            n <= a@.len(),
            n <= b@.len(),
            n == a@.len() || n == b@.len(),
            forall|k: int| 0 <= k < i ==> a@[k] == b@[k],
        decreases n - i,
    {
        let x = a[i];
        let y = b[i];
        if x != y {
            proof {
                lemma_bytes_lt_skip(a@, b@, i as int);
                lemma_bytes_lt_skip(b@, a@, i as int);
                assert(a@.skip(i as int)[0] == a@[i as int]);
                assert(b@.skip(i as int)[0] == b@[i as int]);
            }
            if x < y {
                return Cmp::Lt;
            } else {
                return Cmp::Gt;
            }
        }
        i = i + 1;
    }
    proof {
        lemma_bytes_lt_skip(a@, b@, n as int);
        lemma_bytes_lt_skip(b@, a@, n as int);
        if a@.len() == b@.len() {
            assert(a@ =~= b@);
        } else if a@.len() < b@.len() {
            assert(a@.skip(n as int).len() == 0);
            assert(b@.skip(n as int).len() != 0);
        } else {
            assert(b@.skip(n as int).len() == 0);
            assert(a@.skip(n as int).len() != 0);
        }
    }
    if a.len() == b.len() {
        Cmp::Eq
    } else if a.len() < b.len() {
        Cmp::Lt
    } else {
        Cmp::Gt
    }
}

/// Three-way comparison of identifiers.
fn cmp_ident(a: &Ident, b: &Ident) -> (c: Cmp)
    ensures
        c is Lt <==> ident_lt(a@, b@),
        c is Gt <==> ident_lt(b@, a@),
        c is Eq <==> a@ == b@,
{
    match (a, b) {
        (Ident::Num(x), Ident::Num(y)) => {
            if x < y {
                Cmp::Lt
            } else if x == y {
                Cmp::Eq
            } else {
                Cmp::Gt
            }
        }
        (Ident::Num(_), Ident::Alpha(_)) => Cmp::Lt,
        (Ident::Alpha(_), Ident::Num(_)) => Cmp::Gt,
        (Ident::Alpha(x), Ident::Alpha(y)) => cmp_bytes(x, y),
    }
}

/// If two identifier series agree on a prefix, their order is decided by the
/// rest.
proof fn lemma_pre_lt_skip(a: Seq<IdentView>, b: Seq<IdentView>, i: int)
    requires
        0 <= i <= a.len(),
        i <= b.len(),
        forall|k: int| 0 <= k < i ==> a[k] == b[k],
    ensures
        pre_lt(a, b) == pre_lt(a.skip(i), b.skip(i)),
    decreases i,
{
    if i > 0 {
        assert(pre_lt(a, b) == pre_lt(a.skip(1), b.skip(1)));
        lemma_pre_lt_skip(a.skip(1), b.skip(1), i - 1);
        assert(a.skip(1).skip(i - 1) =~= a.skip(i));
        assert(b.skip(1).skip(i - 1) =~= b.skip(i));
    } else {
        assert(a.skip(0) =~= a);
        assert(b.skip(0) =~= b);
    }
}

impl Version {
    /// The model of this version's pre-release identifier series.
    pub open spec fn pre_view(&self) -> Seq<IdentView> {
        self@.pre
    }

    /// Build a release version (no pre-release identifiers).
    pub fn new(major: u64, minor: u64, patch: u64) -> (v: Version)
        ensures
            v@ == (VersionView {
                major: major as int,
                minor: minor as int,
                patch: patch as int,
                pre: Seq::empty(),
            }),
    {
        let v = Version { major, minor, patch, pre: Vec::new() };
        proof {
            assert(v@.pre =~= Seq::<IdentView>::empty());
        }
        v
    }

    /// Build a pre-release version.
    pub fn new_pre(major: u64, minor: u64, patch: u64, pre: Vec<Ident>) -> (v: Version)
        ensures
            v@.major == major as int,
            v@.minor == minor as int,
            v@.patch == patch as int,
            v@.pre == Seq::new(pre@.len(), |i: int| pre@[i]@),
    {
        Version { major, minor, patch, pre }
    }

    /// The smallest version overall: `0.0.0` with the smallest pre-release.
    pub fn floor() -> (v: Version)
        ensures
            v@ == floor_view(),
    {
        let mut pre: Vec<Ident> = Vec::new();
        pre.push(Ident::Num(0));
        let v = Version { major: 0, minor: 0, patch: 0, pre };
        proof {
            assert(v@.pre =~= seq![IdentView::Num(0)]);
            assert(v@ =~= floor_view());
        }
        v
    }

    /// Three-way comparison in the version order.
    #[verifier::loop_isolation(false)]
    pub fn cmp_with(&self, other: &Version) -> (c: Cmp)
        ensures
            c is Lt <==> ver_lt(self@, other@),
            c is Gt <==> ver_lt(other@, self@),
            c is Eq <==> self@ == other@,
    {
        proof {
            lemma_ver_conn(self@, other@);
            lemma_ver_asym(self@, other@);
            lemma_ver_asym(other@, self@);
        }
        if self.major != other.major {
            if self.major < other.major {
                return Cmp::Lt;
            } else {
                return Cmp::Gt;
            }
        }
        if self.minor != other.minor {
            if self.minor < other.minor {
                return Cmp::Lt;
            } else {
                return Cmp::Gt;
            }
        }
        if self.patch != other.patch {
            if self.patch < other.patch {
                return Cmp::Lt;
            } else {
                return Cmp::Gt;
            }
        }
        if self.pre.len() == 0 {
            if other.pre.len() == 0 {
                proof {
                    assert(self@.pre =~= other@.pre);
                    assert(self@ =~= other@);
                }
                return Cmp::Eq;
            } else {
                return Cmp::Gt;
            }
        }
        if other.pre.len() == 0 {
            return Cmp::Lt;
        }
        // Both pre-release: lexicographic comparison of the series.
        let a = &self.pre;
        let b = &other.pre;
        let av = Ghost(self@.pre);
        let bv = Ghost(other@.pre);
        proof {
            lemma_pre_conn(av@, bv@);
            lemma_pre_asym(av@, bv@);
            lemma_pre_asym(bv@, av@);
        }
        let n: usize = if a.len() < b.len() { a.len() } else { b.len() };
        let mut i: usize = 0;
        while i < n
            invariant
                0 <= i <= n,
                av@ == self@.pre,
                bv@ == other@.pre,
                av@.len() == a@.len(),
                bv@.len() == b@.len(),
                av@ == Seq::new(a@.len(), |k: int| a@[k]@),
                bv@ == Seq::new(b@.len(), |k: int| b@[k]@),
                n <= a@.len(),
                n <= b@.len(),
                n == a@.len() || n == b@.len(),
                forall|k: int| 0 <= k < i ==> av@[k] == bv@[k],
            decreases n - i,
        {
            let c = cmp_ident(&a[i], &b[i]);
            match c {
                Cmp::Eq => {
                    proof {
                        assert(av@[i as int] == a@[i as int]@);
                        assert(bv@[i as int] == b@[i as int]@);
                    }
                }
                _ => {
                    proof {
                        assert(av@[i as int] == a@[i as int]@);
                        assert(bv@[i as int] == b@[i as int]@);
                        lemma_ident_asym(av@[i as int], bv@[i as int]);
                        lemma_ident_asym(bv@[i as int], av@[i as int]);
                        lemma_pre_lt_skip(av@, bv@, i as int);
                        lemma_pre_lt_skip(bv@, av@, i as int);
                        assert(av@.skip(i as int)[0] == av@[i as int]);
                        assert(bv@.skip(i as int)[0] == bv@[i as int]);
                        assert(av@.skip(i as int).len() != 0);
                        assert(bv@.skip(i as int).len() != 0);
                    }
                    match c {
                        Cmp::Lt => {
                            return Cmp::Lt;
                        }
                        _ => {
                            return Cmp::Gt;
                        }
                    }
                }
            }
            i = i + 1;
        }
        proof {
            lemma_pre_lt_skip(av@, bv@, n as int);
            lemma_pre_lt_skip(bv@, av@, n as int);
            if av@.len() == bv@.len() {
                assert(av@ =~= bv@);
                if av@ == bv@ {
                    assert(self@ =~= other@);
                }
            } else if av@.len() < bv@.len() {
                assert(av@.skip(n as int).len() == 0);
                assert(bv@.skip(n as int).len() != 0);
            } else {
                assert(bv@.skip(n as int).len() == 0);
                assert(av@.skip(n as int).len() != 0);
            }
        }
        if a.len() == b.len() {
            Cmp::Eq
        } else if a.len() < b.len() {
            Cmp::Lt
        } else {
            Cmp::Gt
        }
    }

    /// Strict order test.
    pub fn lt(&self, other: &Version) -> (r: bool)
        ensures
            r == ver_lt(self@, other@),
    {
        match self.cmp_with(other) {
            Cmp::Lt => true,
            _ => false,
        }
    }

    /// Non-strict order test.
    pub fn le(&self, other: &Version) -> (r: bool)
        ensures
            r == ver_le(self@, other@),
    {
        match self.cmp_with(other) {
            Cmp::Gt => false,
            _ => true,
        }
    }

    /// Equality test (by value).
    pub fn same(&self, other: &Version) -> (r: bool)
        ensures
            r == (self@ == other@),
    {
        match self.cmp_with(other) {
            Cmp::Eq => true,
            _ => false,
        }
    }

    /// The smallest version strictly above this one.
    pub fn bump(&self) -> (r: Version)
        requires
            self.pre@.len() == 0 ==> self.patch < u64::MAX,
        ensures
            r@ == bump_view(self@),
    {
        if self.pre.len() == 0 {
            let mut pre: Vec<Ident> = Vec::new();
            pre.push(Ident::Num(0));
            let r = Version {
                major: self.major,
                minor: self.minor,
                patch: self.patch + 1,
                pre,
            };
            proof {
                assert(r@.pre =~= seq![IdentView::Num(0)]);
                assert(r@ =~= bump_view(self@));
            }
            r
        } else {
            let mut pre = self.clone_pre();
            pre.push(Ident::Num(0));
            let r = Version {
                major: self.major,
                minor: self.minor,
                patch: self.patch,
                pre,
            };
            proof {
                assert(r@.pre =~= self@.pre.push(IdentView::Num(0)));
                assert(r@ =~= bump_view(self@));
            }
            r
        }
    }

    /// A copy of this version's pre-release identifiers.
    fn clone_pre(&self) -> (r: Vec<Ident>)
        ensures
            Seq::new(r@.len(), |i: int| r@[i]@) == self@.pre,
    {
        let mut r: Vec<Ident> = Vec::new();
        let mut i: usize = 0;
        while i < self.pre.len()
            invariant
                0 <= i <= self.pre@.len(),
                r@.len() == i,
                forall|k: int| 0 <= k < i ==> r@[k]@ == #[trigger] self.pre@[k]@,
            decreases self.pre@.len() - i,
        {
            let id = &self.pre[i];
            let copy = match id {
                Ident::Num(n) => Ident::Num(*n),
                Ident::Alpha(s) => {
                    let mut bytes: Vec<u8> = Vec::new();
                    let mut j: usize = 0;
                    while j < s.len()
                        invariant
                            0 <= j <= s@.len(),
                            bytes@.len() == j,
                            forall|k: int| 0 <= k < j ==> bytes@[k] == s@[k],
                        decreases s@.len() - j,
                    {
                        bytes.push(s[j]);
                        j = j + 1;
                    }
                    proof {
                        assert(bytes@ =~= s@);
                    }
                    Ident::Alpha(bytes)
                }
            };
            r.push(copy);
            i = i + 1;
        }
        proof {
            assert(Seq::new(r@.len(), |i: int| r@[i]@) =~= self@.pre);
        }
        r
    }
}

impl Clone for Version {
    /// Clone preserves the version's value.
    fn clone(&self) -> (r: Self)
        ensures
            r@ == self@,
    {
        let r = Version {
            major: self.major,
            minor: self.minor,
            patch: self.patch,
            pre: self.clone_pre(),
        };
        proof {
            assert(r@ =~= self@);
        }
        r
    }
}

} // verus!
