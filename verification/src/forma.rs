//! Shape algebra of row-major tensors with NumPy-style broadcasting.
//!
//! A shape is a sequence of extents; the last axis is the contiguous one. Two
//! shapes broadcast together when, aligned on the right, every pair of extents
//! is equal or one of them is 1. Broadcasting `from` to `to` maps every linear
//! index of `to` to a linear index of `from` ([`source_index`]); the stride
//! vector of [`broadcast_strides`] computes that map, and [`tiled_period`]
//! recognises the shapes for which it is a plain `l % k`.

use vstd::arithmetic::div_mod::*;
use vstd::arithmetic::mul::*;
use vstd::prelude::*;

verus! {

// ------------------------------------------------------------------ sizes

/// Product of the extents `s[a..b]`.
pub open spec fn range_size(s: Seq<usize>, a: int, b: int) -> nat
    decreases b - a,
{
    if a >= b {
        1
    } else {
        (s[a] as nat) * range_size(s, a + 1, b)
    }
}

/// Product of the extents from axis `a` to the end: the row-major stride of
/// axis `a - 1`.
pub open spec fn suffix_size(s: Seq<usize>, a: int) -> nat {
    range_size(s, a, s.len() as int)
}

/// Number of elements of a shape.
pub open spec fn shape_size(s: Seq<usize>) -> nat {
    range_size(s, 0, s.len() as int)
}

/// Every product of consecutive extents fits in a `usize`: the partial
/// products that row-major index arithmetic forms never overflow.
pub open spec fn shape_fits(s: Seq<usize>) -> bool {
    forall|a: int, b: int| 0 <= a <= b <= s.len() ==> #[trigger] range_size(s, a, b) <= usize::MAX
}

/// The products of the leading extents fit in a `usize`: what multiplying
/// the extents from the first on, as `Iterator::product` does, never
/// overflows on. A shape with a zero extent early on passes whatever follows.
pub open spec fn prefixo_cabe(s: Seq<usize>) -> bool {
    forall|b: int| 0 <= b <= s.len() ==> #[trigger] range_size(s, 0, b) <= usize::MAX
}

pub(crate) proof fn lemma_range_snoc(s: Seq<usize>, a: int, b: int)
    requires
        0 <= a <= b < s.len(),
    ensures
        range_size(s, a, b + 1) == range_size(s, a, b) * (s[b] as nat),
    decreases b - a,
{
    if a < b {
        lemma_range_snoc(s, a + 1, b);
        let x = s[a] as int;
        let r1 = range_size(s, a + 1, b) as int;
        let y = s[b] as int;
        assert(range_size(s, a, b + 1) == x * range_size(s, a + 1, b + 1));
        assert(range_size(s, a + 1, b + 1) == r1 * y);
        assert(range_size(s, a, b) == x * r1);
        assert(x * (r1 * y) == (x * r1) * y) by (nonlinear_arith);
    } else {
        assert(range_size(s, a + 1, b + 1) == 1);
        assert(range_size(s, a, b + 1) == (s[a] as nat) * 1);
        assert(range_size(s, a, b) == 1);
    }
}

/// A range product is positive when every extent in it is.
proof fn lemma_range_positive(s: Seq<usize>, a: int, b: int)
    requires
        0 <= a,
        b <= s.len(),
        forall|j: int| a <= j < b ==> s[j] > 0,
    ensures
        range_size(s, a, b) > 0,
    decreases b - a,
{
    if a < b {
        lemma_range_positive(s, a + 1, b);
        lemma_mul_strictly_positive(s[a] as int, range_size(s, a + 1, b) as int);
    }
}

/// A range product that contains a zero extent is zero.
proof fn lemma_range_zero(s: Seq<usize>, a: int, b: int, z: int)
    requires
        0 <= a <= z < b <= s.len(),
        s[z] == 0,
    ensures
        range_size(s, a, b) == 0,
    decreases b - a,
{
    if a < z {
        lemma_range_zero(s, a + 1, b, z);
        assert(range_size(s, a, b) == (s[a] as nat) * range_size(s, a + 1, b));
    } else {
        assert(range_size(s, a, b) == (s[a] as nat) * range_size(s, a + 1, b));
    }
}

// ------------------------------------------------------------ broadcasting

/// Extent of axis `i` of `a` once right-aligned in a shape of rank `rank`
/// (missing leading axes count as 1).
pub open spec fn aligned_dim(a: Seq<usize>, rank: int, i: int) -> int {
    if i < rank - a.len() {
        1
    } else {
        a[i - (rank - a.len())] as int
    }
}

pub open spec fn max_rank(a: Seq<usize>, b: Seq<usize>) -> int {
    if a.len() >= b.len() {
        a.len() as int
    } else {
        b.len() as int
    }
}

/// `a` and `b` broadcast together: aligned on the right, each pair of extents
/// is equal or one of them is 1.
pub open spec fn broadcast_compatible(a: Seq<usize>, b: Seq<usize>) -> bool {
    forall|i: int|
        0 <= i < max_rank(a, b) ==> {
            let da = #[trigger] aligned_dim(a, max_rank(a, b), i);
            let db = aligned_dim(b, max_rank(a, b), i);
            da == db || da == 1 || db == 1
        }
}

pub open spec fn broadcast_dim(da: int, db: int) -> int {
    if da == db {
        da
    } else if da == 1 {
        db
    } else {
        da
    }
}

/// The shape that `a` and `b` broadcast to.
pub open spec fn broadcast_spec(a: Seq<usize>, b: Seq<usize>) -> Seq<usize> {
    Seq::new(
        max_rank(a, b) as nat,
        |i: int|
            broadcast_dim(
                aligned_dim(a, max_rank(a, b), i),
                aligned_dim(b, max_rank(a, b), i),
            ) as usize,
    )
}

/// `from` can be broadcast to `to`: it has no more axes and, aligned on the
/// right, each of its extents is 1 or equal to the extent of `to`.
pub open spec fn broadcasts_to(from: Seq<usize>, to: Seq<usize>) -> bool {
    &&& from.len() <= to.len()
    &&& forall|j: int|
        0 <= j < from.len() ==> #[trigger] from[j] == 1 || from[j] == to[j + (to.len()
            - from.len())]
}

/// Shape resulting from broadcasting `a` with `b`, aligned on the right.
pub fn broadcast_shapes(a: &[usize], b: &[usize]) -> (out: Vec<usize>)
    requires
        broadcast_compatible(a@, b@),
    ensures
        out@ == broadcast_spec(a@, b@),
{
    let rank = if a.len() >= b.len() {
        a.len()
    } else {
        b.len()
    };
    let mut out: Vec<usize> = Vec::new();
    let mut i: usize = 0;
    while i < rank
        invariant
            rank == max_rank(a@, b@),
            i <= rank,
            out@.len() == i,
            broadcast_compatible(a@, b@),
            forall|j: int| 0 <= j < i ==> out@[j] == broadcast_spec(a@, b@)[j],
        decreases rank - i,
    {
        let da = if i < rank - a.len() {
            1
        } else {
            a[i - (rank - a.len())]
        };
        let db = if i < rank - b.len() {
            1
        } else {
            b[i - (rank - b.len())]
        };
        assert(da == aligned_dim(a@, rank as int, i as int));
        assert(db == aligned_dim(b@, rank as int, i as int));
        let d = if da == db {
            da
        } else if da == 1 {
            db
        } else {
            da
        };
        out.push(d);
        i = i + 1;
    }
    assert(out@ =~= broadcast_spec(a@, b@));
    out
}

// ------------------------------------------------------ linear indices

/// Coordinate on axis `j` of the linear index `l` in shape `s` (row-major).
pub open spec fn coord(l: int, s: Seq<usize>, j: int) -> int {
    (l / (suffix_size(s, j + 1) as int)) % (s[j] as int)
}

/// Multi-index of the linear index `l` in shape `s`.
pub open spec fn unravel(l: int, s: Seq<usize>) -> Seq<int> {
    Seq::new(s.len(), |j: int| coord(l, s, j))
}

/// `u` is a multi-index inside shape `s`.
pub open spec fn valid_index(u: Seq<int>, s: Seq<usize>) -> bool {
    &&& u.len() == s.len()
    &&& forall|j: int| 0 <= j < s.len() ==> 0 <= #[trigger] u[j] < s[j]
}

/// Row-major linear offset contributed by axes `a..` of the multi-index `u`.
pub open spec fn ravel_from(u: Seq<int>, s: Seq<usize>, a: int) -> int
    decreases s.len() - a,
{
    if a >= s.len() {
        0
    } else {
        u[a] * (suffix_size(s, a + 1) as int) + ravel_from(u, s, a + 1)
    }
}

/// Row-major linear index of the multi-index `u` in shape `s`.
pub open spec fn ravel(u: Seq<int>, s: Seq<usize>) -> int {
    ravel_from(u, s, 0)
}

/// `Σ_{i ≥ a} u[i]·st[i]`: the offset that a stride vector assigns to `u`.
pub open spec fn dot_from(u: Seq<int>, st: Seq<usize>, a: int) -> int
    decreases u.len() - a,
{
    if a >= u.len() {
        0
    } else {
        u[a] * (st[a] as int) + dot_from(u, st, a + 1)
    }
}

proof fn lemma_suffix_step(s: Seq<usize>, a: int)
    requires
        0 <= a < s.len(),
    ensures
        suffix_size(s, a) == (s[a] as nat) * suffix_size(s, a + 1),
{
}

/// Every extent of a shape with at least one element is positive.
pub(crate) proof fn lemma_extents_positive(s: Seq<usize>)
    requires
        shape_size(s) > 0,
    ensures
        forall|j: int| 0 <= j < s.len() ==> s[j] > 0,
{
    assert forall|j: int| 0 <= j < s.len() implies s[j] > 0 by {
        if s[j] == 0 {
            lemma_range_zero(s, 0, s.len() as int, j);
        }
    }
}

proof fn lemma_suffix_positive(s: Seq<usize>, a: int)
    requires
        0 <= a,
        forall|j: int| 0 <= j < s.len() ==> s[j] > 0,
    ensures
        suffix_size(s, a) > 0,
{
    if a < s.len() {
        lemma_range_positive(s, a, s.len() as int);
    }
}

proof fn lemma_valid_extents(u: Seq<int>, s: Seq<usize>)
    requires
        valid_index(u, s),
    ensures
        forall|j: int| 0 <= j < s.len() ==> s[j] > 0,
{
    assert forall|j: int| 0 <= j < s.len() implies s[j] > 0 by {
        assert(0 <= u[j] < s[j]);
    }
}

/// Raveling the unravelled index gives back `l` modulo the suffix size.
pub proof fn lemma_ravel_unravel(l: int, s: Seq<usize>, a: int)
    requires
        0 <= l,
        0 <= a <= s.len(),
        forall|j: int| 0 <= j < s.len() ==> s[j] > 0,
    ensures
        ravel_from(unravel(l, s), s, a) == l % (suffix_size(s, a) as int),
    decreases s.len() - a,
{
    if a == s.len() {
        assert(suffix_size(s, a) == 1);
    } else {
        lemma_ravel_unravel(l, s, a + 1);
        let r = suffix_size(s, a + 1) as int;
        let e = s[a] as int;
        lemma_suffix_positive(s, a + 1);
        lemma_mod_breakdown(l, r, e);
        lemma_suffix_step(s, a);
        lemma_mul_is_commutative(r, e);
        lemma_mul_is_commutative(r, (l / r) % e);
    }
}

pub(crate) proof fn lemma_ravel_bound(u: Seq<int>, s: Seq<usize>, a: int)
    requires
        valid_index(u, s),
        0 <= a <= s.len(),
    ensures
        0 <= ravel_from(u, s, a) < suffix_size(s, a),
    decreases s.len() - a,
{
    if a < s.len() {
        lemma_ravel_bound(u, s, a + 1);
        let r = suffix_size(s, a + 1) as int;
        let x = u[a];
        let e = s[a] as int;
        let t = ravel_from(u, s, a + 1);
        lemma_suffix_step(s, a);
        assert(0 <= x * r) by (nonlinear_arith)
            requires
                0 <= x,
                0 <= r,
        ;
        assert(x * r + t < e * r) by (nonlinear_arith)
            requires
                0 <= x < e,
                0 <= t < r,
        ;
    } else {
        assert(suffix_size(s, a) == 1);
    }
}

/// The linear index reduced modulo a suffix size keeps exactly the trailing
/// axes.
proof fn lemma_ravel_mod(u: Seq<int>, s: Seq<usize>, a: int)
    requires
        valid_index(u, s),
        0 <= a <= s.len(),
    ensures
        ravel(u, s) % (suffix_size(s, a) as int) == ravel_from(u, s, a),
    decreases a,
{
    lemma_valid_extents(u, s);
    lemma_suffix_positive(s, a);
    if a == 0 {
        lemma_ravel_bound(u, s, 0);
        lemma_small_mod(ravel(u, s) as nat, suffix_size(s, 0));
    } else {
        lemma_ravel_mod(u, s, a - 1);
        let r = suffix_size(s, a) as int;
        let e = s[a - 1] as int;
        lemma_suffix_step(s, a - 1);
        lemma_mul_is_commutative(e, r);
        lemma_mod_mod(ravel(u, s), r, e);
        lemma_ravel_bound(u, s, a);
        lemma_mul_is_commutative(u[a - 1], r);
        lemma_mod_multiples_vanish(u[a - 1], ravel_from(u, s, a), r);
        lemma_small_mod(ravel_from(u, s, a) as nat, r as nat);
    }
}

/// A valid multi-index is recovered from its linear index.
pub proof fn lemma_unravel_ravel(u: Seq<int>, s: Seq<usize>)
    requires
        valid_index(u, s),
    ensures
        unravel(ravel(u, s), s) == u,
{
    assert forall|j: int| 0 <= j < s.len() implies #[trigger] unravel(ravel(u, s), s)[j] == u[j] by {
        let v = ravel(u, s);
        let r = suffix_size(s, j + 1) as int;
        let e = s[j] as int;
        lemma_valid_extents(u, s);
        lemma_suffix_positive(s, j + 1);
        lemma_ravel_bound(u, s, 0);
        lemma_ravel_mod(u, s, j);
        lemma_ravel_mod(u, s, j + 1);
        lemma_suffix_step(s, j);
        lemma_mul_is_commutative(e, r);
        lemma_mod_breakdown(v, r, e);
        lemma_mul_is_commutative(u[j], r);
        // r * coord + rf(j+1) == u[j] * r + rf(j+1)
        let c = (v / r) % e;
        assert(r * c == r * u[j]);
        lemma_mul_equality_converse(r, c, u[j]);
    }
    assert(unravel(ravel(u, s), s) =~= u);
}

// --------------------------------------------------- broadcast index map

/// Coordinates in `from` of the element that the linear index `l` of `to`
/// reads when `from` is broadcast to `to`: broadcast axes read coordinate 0.
pub open spec fn source_coords(l: int, from: Seq<usize>, to: Seq<usize>) -> Seq<int> {
    Seq::new(
        from.len(),
        |j: int|
            if from[j] == 1 {
                0
            } else {
                coord(l, to, j + (to.len() - from.len()))
            },
    )
}

/// Linear index of `from` read by the linear index `l` of `to` under
/// broadcasting.
pub open spec fn source_index(l: int, from: Seq<usize>, to: Seq<usize>) -> int {
    ravel(source_coords(l, from, to), from)
}

/// Stride of axis `i` of `to` in the buffer of `from`: zero on axes that
/// `from` lacks or broadcasts, the row-major stride of `from` elsewhere.
pub open spec fn stride_at(from: Seq<usize>, to: Seq<usize>, i: int) -> int {
    let off = to.len() - from.len();
    if i < off {
        0
    } else if from[i - off] == 1 && to[i] != 1 {
        0
    } else {
        suffix_size(from, i - off + 1) as int
    }
}

/// `st` is the stride vector of broadcasting `from` to `to`.
pub open spec fn is_broadcast_strides(st: Seq<usize>, from: Seq<usize>, to: Seq<usize>) -> bool {
    &&& st.len() == to.len()
    &&& forall|i: int| 0 <= i < to.len() ==> #[trigger] st[i] as int == stride_at(from, to, i)
}

#[verifier::spinoff_prover]
proof fn lemma_dot_source_tail(l: int, from: Seq<usize>, to: Seq<usize>, st: Seq<usize>, i: int)
    requires
        broadcasts_to(from, to),
        is_broadcast_strides(st, from, to),
        0 <= l,
        forall|j: int| 0 <= j < to.len() ==> to[j] > 0,
        to.len() - from.len() <= i <= to.len(),
    ensures
        dot_from(unravel(l, to), st, i) == ravel_from(
            source_coords(l, from, to),
            from,
            i - (to.len() - from.len()),
        ),
    decreases to.len() - i,
{
    let off = to.len() - from.len();
    if i < to.len() {
        lemma_dot_source_tail(l, from, to, st, i + 1);
        let j = i - off;
        let u = unravel(l, to);
        let src = source_coords(l, from, to);
        assert(st[i] as int == stride_at(from, to, i));
        assert(dot_from(u, st, i) == u[i] * (st[i] as int) + dot_from(u, st, i + 1));
        assert(ravel_from(src, from, j) == src[j] * (suffix_size(from, j + 1) as int) + ravel_from(
            src,
            from,
            j + 1,
        ));
        if from[j] == 1 && to[i] == 1 {
            lemma_mod_bound(l / (suffix_size(to, i + 1) as int), 1);
            assert(u[i] == 0);
        } else if from[j] == 1 {
            assert(src[j] == 0);
        } else {
            assert(src[j] == u[i]);
        }
    }
}

proof fn lemma_dot_source_head(l: int, from: Seq<usize>, to: Seq<usize>, st: Seq<usize>, i: int)
    requires
        broadcasts_to(from, to),
        is_broadcast_strides(st, from, to),
        0 <= l,
        forall|j: int| 0 <= j < to.len() ==> to[j] > 0,
        0 <= i <= to.len() - from.len(),
    ensures
        dot_from(unravel(l, to), st, i) == source_index(l, from, to),
    decreases to.len() - from.len() - i,
{
    if i == to.len() - from.len() {
        lemma_dot_source_tail(l, from, to, st, i);
    } else {
        lemma_dot_source_head(l, from, to, st, i + 1);
    }
}

/// The stride vector computes the broadcast index map, and the index it
/// yields lies inside `from`.
pub proof fn lemma_strides_compute_source(l: int, from: Seq<usize>, to: Seq<usize>, st: Seq<usize>)
    requires
        broadcasts_to(from, to),
        is_broadcast_strides(st, from, to),
        0 <= l < shape_size(to),
    ensures
        dot_from(unravel(l, to), st, 0) == source_index(l, from, to),
        0 <= source_index(l, from, to) < shape_size(from),
{
    lemma_extents_positive(to);
    lemma_dot_source_head(l, from, to, st, 0);
    lemma_source_valid(l, from, to);
    lemma_ravel_bound(source_coords(l, from, to), from, 0);
}

pub(crate) proof fn lemma_source_valid(l: int, from: Seq<usize>, to: Seq<usize>)
    requires
        broadcasts_to(from, to),
        0 <= l < shape_size(to),
    ensures
        valid_index(source_coords(l, from, to), from),
{
    lemma_extents_positive(to);
    let off = to.len() - from.len();
    assert forall|j: int| 0 <= j < from.len() implies 0 <= #[trigger] source_coords(
        l,
        from,
        to,
    )[j] < from[j] by {
        if from[j] != 1 {
            lemma_mod_bound(l / (suffix_size(to, j + off + 1) as int), to[j + off] as int);
        }
    }
}

/// Row-major stride vector of `from` seen in the index space of `to`, with
/// zero on the broadcast axes.
pub fn broadcast_strides(from: &[usize], to: &[usize]) -> (out: Vec<usize>)
    requires
        from@.len() <= to@.len(),
        shape_fits(from@),
    ensures
        is_broadcast_strides(out@, from@, to@),
{
    let n = from.len();
    let mut base: Vec<usize> = Vec::new();
    let mut t: usize = 0;
    while t < n
        invariant
            t <= n,
            base@.len() == t,
        decreases n - t,
    {
        base.push(0);
        t = t + 1;
    }
    let mut acc: usize = 1;
    let mut i: usize = n;
    while i > 0
        invariant
            n == from@.len(),
            i <= n,
            base@.len() == n,
            acc == suffix_size(from@, i as int),
            shape_fits(from@),
            forall|j: int| i <= j < n ==> base@[j] == suffix_size(from@, j + 1),
        decreases i,
    {
        i = i - 1;
        base.set(i, acc);
        proof {
            lemma_suffix_step(from@, i as int);
            assert(range_size(from@, i as int, n as int) <= usize::MAX);
            lemma_mul_is_commutative(acc as int, from@[i as int] as int);
        }
        acc = acc * from[i];
    }
    let off = to.len() - n;
    let mut out: Vec<usize> = Vec::new();
    let mut i: usize = 0;
    while i < to.len()
        invariant
            n == from@.len(),
            off == to@.len() - n,
            base@.len() == n,
            forall|j: int| 0 <= j < n ==> base@[j] == suffix_size(from@, j + 1),
            i <= to@.len(),
            out@.len() == i,
            forall|j: int| 0 <= j < i ==> out@[j] as int == stride_at(from@, to@, j),
        decreases to@.len() - i,
    {
        if i < off {
            out.push(0);
        } else {
            let d = from[i - off];
            if d == 1 && to[i] != 1 {
                out.push(0);
            } else {
                out.push(base[i - off]);
            }
        }
        i = i + 1;
    }
    out
}

/// `from`, aligned with a first axis of extent `r`, is a column `[r, 1]`.
pub fn is_column(from: &[usize], r: usize) -> (b: bool)
    ensures
        b == (from@.len() == 2 && from@[0] == r && from@[1] == 1),
{
    from.len() == 2 && from[0] == r && from[1] == 1
}

// ------------------------------------------------------------- tiled fast path

/// The right-to-left walk that recognises a tiled broadcast: reading the
/// non-unit axes of `to` from the right, their strides must equal the running
/// product of their extents until it reaches `k`, and be zero afterwards;
/// the running product must end at exactly `k`.
pub open spec fn tiled_walk(from: Seq<usize>, to: Seq<usize>, i: int, cum: int, k: int) -> bool
    decreases i,
{
    if i <= 0 {
        cum == k
    } else {
        let a = i - 1;
        if to[a] == 1 {
            tiled_walk(from, to, a, cum, k)
        } else if cum < k {
            stride_at(from, to, a) == cum && tiled_walk(from, to, a, cum * (to[a] as int), k)
        } else {
            stride_at(from, to, a) == 0 && tiled_walk(from, to, a, cum, k)
        }
    }
}

/// Broadcasting `from` to `to` reads the whole buffer of `from` as one
/// contiguous block repeated along the leading axes.
pub open spec fn is_tiled(from: Seq<usize>, to: Seq<usize>) -> bool {
    from.len() <= to.len() && tiled_walk(from, to, to.len() as int, 1, shape_size(from) as int)
}

proof fn lemma_range_split(s: Seq<usize>, a: int, m: int, b: int)
    requires
        0 <= a <= m <= b <= s.len(),
    ensures
        range_size(s, a, b) == range_size(s, a, m) * range_size(s, m, b),
    decreases m - a,
{
    if a < m {
        lemma_range_split(s, a + 1, m, b);
        let x = s[a] as int;
        let p = range_size(s, a + 1, m) as int;
        let q = range_size(s, m, b) as int;
        assert(x * (p * q) == (x * p) * q) by (nonlinear_arith);
    } else {
        assert(range_size(s, a, m) == 1);
    }
}

proof fn lemma_dot_zero_prefix(u: Seq<int>, st: Seq<usize>, j: int, p: int)
    requires
        0 <= j <= p <= u.len(),
        st.len() == u.len(),
        forall|t: int| j <= t < p ==> u[t] == 0 || st[t] == 0,
    ensures
        dot_from(u, st, j) == dot_from(u, st, p),
    decreases p - j,
{
    if j < p {
        lemma_dot_zero_prefix(u, st, j + 1, p);
        assert(u[j] * (st[j] as int) == 0);
    }
}

proof fn lemma_dot_ravel_suffix(u: Seq<int>, st: Seq<usize>, s: Seq<usize>, j: int)
    requires
        0 <= j <= u.len(),
        u.len() == s.len(),
        st.len() == s.len(),
        forall|t: int| j <= t < s.len() ==> u[t] == 0 || st[t] == suffix_size(s, t + 1),
    ensures
        dot_from(u, st, j) == ravel_from(u, s, j),
    decreases s.len() - j,
{
    if j < s.len() {
        lemma_dot_ravel_suffix(u, st, s, j + 1);
        if u[j] == 0 {
            assert(u[j] * (st[j] as int) == 0);
            assert(u[j] * (suffix_size(s, j + 1) as int) == 0);
        }
    }
}

/// A stride vector that follows the row-major strides of `to` on the axes
/// `p..` and is zero before (unit axes aside) maps `l` to `l % |to[p..]|`.
proof fn lemma_tiled_dot(l: int, to: Seq<usize>, st: Seq<usize>, p: int)
    requires
        0 <= l < shape_size(to),
        st.len() == to.len(),
        0 <= p <= to.len(),
        forall|j: int| p <= j < to.len() ==> to[j] == 1 || st[j] == suffix_size(to, j + 1),
        forall|j: int| 0 <= j < p ==> to[j] == 1 || st[j] == 0,
    ensures
        dot_from(unravel(l, to), st, 0) == l % (suffix_size(to, p) as int),
{
    lemma_extents_positive(to);
    let u = unravel(l, to);
    assert forall|j: int| 0 <= j < to.len() && to[j] == 1 implies u[j] == 0 by {
        lemma_mod_bound(l / (suffix_size(to, j + 1) as int), 1);
    }
    lemma_dot_zero_prefix(u, st, 0, p);
    lemma_dot_ravel_suffix(u, st, to, p);
    lemma_ravel_unravel(l, to, p);
}

/// Period of the contiguous block when broadcasting `from` to `to` amounts to
/// repeating the whole buffer of `from` without gaps — exactly when every
/// broadcast axis lies to the left of the preserved ones, as for a bias row
/// `[1, m]` added to a batch `[n, m]`. Returns the period `|from|`, or `None`.
#[verifier::spinoff_prover]
pub fn tiled_period(from: &[usize], to: &[usize]) -> (res: Option<usize>)
    requires
        broadcasts_to(from@, to@),
        shape_fits(from@),
    ensures
        res is Some <==> is_tiled(from@, to@),
        res matches Some(k) ==> {
            &&& k == shape_size(from@)
            &&& shape_size(to@) > 0 ==> k > 0 && shape_size(to@) % (k as nat) == 0
            &&& forall|l: int|
                0 <= l < shape_size(to@) ==> #[trigger] source_index(l, from@, to@) == l % (k as int)
        },
{
    if from.len() > to.len() {
        return None;
    }
    let n = from.len();
    let mut k: usize = 1;
    let mut t: usize = 0;
    while t < n
        invariant
            n == from@.len(),
            t <= n,
            k == range_size(from@, 0, t as int),
            shape_fits(from@),
        decreases n - t,
    {
        proof {
            lemma_range_snoc(from@, 0, t as int);
            assert(range_size(from@, 0, t + 1) <= usize::MAX);
        }
        k = k * from[t];
        t = t + 1;
    }
    let st = broadcast_strides(from, to);
    let mut cum: usize = 1;
    let ghost mut p: int = to@.len() as int;
    let mut i: usize = to.len();
    while i > 0
        invariant
            broadcasts_to(from@, to@),
            shape_fits(from@),
            is_broadcast_strides(st@, from@, to@),
            k == shape_size(from@),
            i <= p <= to@.len(),
            cum == suffix_size(to@, p),
            forall|j: int| p <= j < to@.len() ==> to@[j] == 1 || st@[j] == suffix_size(to@, j + 1),
            forall|j: int| i <= j < p ==> to@[j] == 1 || st@[j] == 0,
            p > i ==> cum >= k,
            is_tiled(from@, to@) == tiled_walk(from@, to@, i as int, cum as int, k as int),
        decreases i,
    {
        let a = i - 1;
        assert(st@[a as int] as int == stride_at(from@, to@, a as int));
        if to[a] == 1 {
            proof {
                if p == i {
                    lemma_suffix_step(to@, a as int);
                    assert(suffix_size(to@, a as int) == suffix_size(to@, i as int));
                    p = a as int;
                }
            }
        } else if cum < k {
            if st[a] != cum {
                return None;
            }
            proof {
                lemma_suffix_step(to@, a as int);
                lemma_mul_is_commutative(cum as int, to@[a as int] as int);
                assert(p == i);
                assert(cum * to@[a as int] == suffix_size(to@, a as int));
                if cum > 0 {
                    let off = to@.len() - from@.len();
                    let j = a - off;
                    assert(a >= off);
                    assert(from@[j] == to@[a as int]);
                    lemma_suffix_step(from@, j);
                    lemma_mul_is_commutative(from@[j] as int, suffix_size(from@, j + 1) as int);
                    assert(range_size(from@, j, from@.len() as int) <= usize::MAX);
                    assert(cum as int == suffix_size(from@, j + 1));
                    assert(cum * to@[a as int] == suffix_size(from@, j));
                } else {
                    assert(cum * to@[a as int] == 0) by (nonlinear_arith)
                        requires
                            cum == 0,
                    ;
                }
                assert(cum * to@[a as int] <= usize::MAX);
                p = a as int;
            }
            cum = cum * to[a];
        } else {
            if st[a] != 0 {
                return None;
            }
        }
        i = a;
    }
    if cum == k {
        proof {
            assert forall|l: int| 0 <= l < shape_size(to@) implies #[trigger] source_index(
                l,
                from@,
                to@,
            ) == l % (k as int) by {
                lemma_tiled_dot(l, to@, st@, p);
                lemma_strides_compute_source(l, from@, to@, st@);
            }
            lemma_range_split(to@, 0, p, to@.len() as int);
            if shape_size(to@) > 0 {
                lemma_extents_positive(to@);
                lemma_suffix_positive(to@, p);
                lemma_mul_is_commutative(
                    range_size(to@, 0, p) as int,
                    suffix_size(to@, p) as int,
                );
                lemma_mod_multiples_basic(range_size(to@, 0, p) as int, k as int);
            }
        }
        Some(k)
    } else {
        None
    }
}

// ----------------------------------------------------------- stepping

/// A multi-index held in machine integers, as a sequence of coordinates.
pub open spec fn coords(v: Seq<usize>) -> Seq<int> {
    v.map_values(|x: usize| x as int)
}

proof fn lemma_ravel_prefix_agree(u1: Seq<int>, u2: Seq<int>, s: Seq<usize>, b: int, a: int)
    requires
        0 <= b <= a <= s.len(),
        u1.len() == s.len(),
        u2.len() == s.len(),
        forall|j: int| b <= j < a ==> u1[j] == u2[j],
    ensures
        ravel_from(u1, s, b) - ravel_from(u1, s, a) == ravel_from(u2, s, b) - ravel_from(u2, s, a),
    decreases a - b,
{
    if b < a {
        lemma_ravel_prefix_agree(u1, u2, s, b + 1, a);
    }
}

pub(crate) proof fn lemma_ravel_zeros(u: Seq<int>, s: Seq<usize>, a: int)
    requires
        0 <= a <= s.len(),
        u.len() == s.len(),
        forall|j: int| a <= j < s.len() ==> u[j] == 0,
    ensures
        ravel_from(u, s, a) == 0,
    decreases s.len() - a,
{
    if a < s.len() {
        lemma_ravel_zeros(u, s, a + 1);
    }
}

proof fn lemma_ravel_max(u: Seq<int>, s: Seq<usize>, a: int)
    requires
        0 <= a <= s.len(),
        u.len() == s.len(),
        forall|j: int| a <= j < s.len() ==> u[j] == s[j] - 1,
    ensures
        ravel_from(u, s, a) == suffix_size(s, a) - 1,
    decreases s.len() - a,
{
    if a < s.len() {
        lemma_ravel_max(u, s, a + 1);
        lemma_suffix_step(s, a);
        let e = s[a] as int;
        let r = suffix_size(s, a + 1) as int;
        assert((e - 1) * r + (r - 1) == e * r - 1) by (nonlinear_arith);
    } else {
        assert(suffix_size(s, a) == 1);
    }
}

/// Advances a multi-index by one position in row-major order; past the last
/// position it wraps around to all zeros.
#[verifier::spinoff_prover]
pub fn bump(idx: &mut [usize], shape: &[usize])
    requires
        valid_index(coords(old(idx)@), shape@),
    ensures
        valid_index(coords(final(idx)@), shape@),
        ravel(coords(final(idx)@), shape@) == (ravel(coords(old(idx)@), shape@) + 1) % (shape_size(
            shape@,
        ) as int),
{
    let ghost u0 = coords(old(idx)@);
    proof {
        lemma_valid_extents(u0, shape@);
        lemma_suffix_positive(shape@, 0);
        lemma_ravel_bound(u0, shape@, 0);
    }
    let n = shape.len();
    let mut ax: usize = n;
    while ax > 0
        invariant
            n == shape@.len(),
            idx@.len() == n,
            valid_index(u0, shape@),
            u0 == coords(old(idx)@),
            shape_size(shape@) > 0,
            0 <= ravel(u0, shape@) < shape_size(shape@),
            ax <= n,
            forall|j: int| 0 <= j < ax ==> #[trigger] idx@[j] as int == u0[j],
            forall|j: int| ax <= j < n ==> #[trigger] idx@[j] == 0,
            forall|j: int| ax <= j < n ==> #[trigger] u0[j] == shape@[j] - 1,
        decreases ax,
    {
        ax = ax - 1;
        assert(idx@[ax as int] as int == u0[ax as int]);
        let v = idx[ax] + 1;
        idx[ax] = v;
        if v < shape[ax] {
            proof {
                let u1 = coords(idx@);
                assert forall|j: int| 0 <= j < n implies 0 <= #[trigger] u1[j] < shape@[j] by {
                    if j > ax {
                        assert(idx@[j] == 0);
                    } else if j < ax {
                        assert(idx@[j] as int == u0[j]);
                        assert(0 <= u0[j] < shape@[j]);
                    } else {
                        assert(u1[j] == v as int);
                    }
                }
                let a = ax as int;
                let r = suffix_size(shape@, a + 1) as int;
                lemma_ravel_prefix_agree(u1, u0, shape@, 0, a);
                lemma_ravel_zeros(u1, shape@, a + 1);
                lemma_ravel_max(u0, shape@, a + 1);
                assert(ravel_from(u1, shape@, a) == u1[a] * r + ravel_from(u1, shape@, a + 1));
                assert(ravel_from(u0, shape@, a) == u0[a] * r + ravel_from(u0, shape@, a + 1));
                assert(u1[a] == u0[a] + 1);
                assert((u0[a] + 1) * r == u0[a] * r + r) by (nonlinear_arith);
                assert(ravel(u1, shape@) == ravel(u0, shape@) + 1);
                lemma_ravel_bound(u1, shape@, 0);
                lemma_small_mod((ravel(u0, shape@) + 1) as nat, shape_size(shape@));
                assert(ravel(u1, shape@) == (ravel(u0, shape@) + 1) % (shape_size(shape@) as int));
            }
            return;
        }
        idx[ax] = 0;
    }
    proof {
        let u1 = coords(idx@);
        lemma_ravel_zeros(u1, shape@, 0);
        lemma_ravel_max(u0, shape@, 0);
        lemma_mod_self_0(shape_size(shape@) as int);
    }
}

/// Broadcasting a column `[r, 1]` across `[r, c]` reads element `l / c`.
pub proof fn lemma_column_source(l: int, r: usize, c: usize)
    requires
        0 <= l < shape_size(seq![r, c]),
    ensures
        source_index(l, seq![r, 1usize], seq![r, c]) == l / (c as int),
{
    let from = seq![r, 1usize];
    let to = seq![r, c];
    lemma_extents_positive(to);
    assert(suffix_size(to, 1) == c as nat) by {
        assert(range_size(to, 2, 2) == 1);
    }
    assert(shape_size(to) == (r as nat) * (c as nat)) by {
        assert(range_size(to, 2, 2) == 1);
    }
    assert(suffix_size(from, 1) == 1) by {
        assert(from.len() == 2);
        assert(from[1] == 1usize);
        assert(range_size(from, 2, 2) == 1);
        assert(range_size(from, 1, 2) == (from[1] as nat) * range_size(from, 2, 2));
    }
    assert(suffix_size(from, 2) == 1);
    lemma_div_pos_is_pos(l, c as int);
    assert(l / (c as int) < r) by {
        lemma_mul_is_commutative(r as int, c as int);
        lemma_multiply_divide_lt(l, c as int, r as int);
    }
    lemma_small_mod((l / (c as int)) as nat, r as nat);
    let src = source_coords(l, from, to);
    assert(ravel_from(src, from, 2) == 0);
    assert(ravel_from(src, from, 1) == src[1] * 1 + 0);
    assert(src[1] == 0);
}


// ---------------------------------------------------------- broadcast laws

/// Broadcasting is symmetric: `a` with `b` gives the same shape as `b` with `a`.
pub proof fn lemma_broadcast_commutes(a: Seq<usize>, b: Seq<usize>)
    requires
        broadcast_compatible(a, b),
    ensures
        broadcast_compatible(b, a),
        broadcast_spec(a, b) == broadcast_spec(b, a),
{
    let r = max_rank(a, b);
    assert(r == max_rank(b, a));
    assert forall|i: int| 0 <= i < r implies {
        let db = #[trigger] aligned_dim(b, max_rank(b, a), i);
        let da = aligned_dim(a, max_rank(b, a), i);
        db == da || db == 1 || da == 1
    } by {
        let da = aligned_dim(a, r, i);
        assert(da == aligned_dim(a, r, i));
    }
    assert(broadcast_spec(a, b) =~= broadcast_spec(b, a));
}

proof fn lemma_broadcast_left(a: Seq<usize>, b: Seq<usize>)
    requires
        broadcast_compatible(a, b),
    ensures
        broadcasts_to(a, broadcast_spec(a, b)),
{
    let s = broadcast_spec(a, b);
    let r = max_rank(a, b);
    assert forall|j: int| 0 <= j < a.len() implies #[trigger] a[j] == 1 || a[j] == s[j + (s.len()
        - a.len())] by {
        let i = j + (r - a.len());
        let da = aligned_dim(a, r, i);
        let db = aligned_dim(b, r, i);
        assert(da == a[j]);
        assert(da == db || da == 1 || db == 1);
    }
}

/// Each operand broadcasts to the shape that broadcasting the two gives.
pub proof fn lemma_broadcast_operands(a: Seq<usize>, b: Seq<usize>)
    requires
        broadcast_compatible(a, b),
    ensures
        broadcasts_to(a, broadcast_spec(a, b)),
        broadcasts_to(b, broadcast_spec(a, b)),
{
    lemma_broadcast_left(a, b);
    lemma_broadcast_commutes(a, b);
    lemma_broadcast_left(b, a);
}

/// Broadcasting a shape to itself reads every element in place.
pub proof fn lemma_source_identity(l: int, s: Seq<usize>)
    requires
        0 <= l < shape_size(s),
    ensures
        source_index(l, s, s) == l,
{
    lemma_extents_positive(s);
    assert forall|j: int| 0 <= j < s.len() implies #[trigger] source_coords(l, s, s)[j] == unravel(
        l,
        s,
    )[j] by {
        if s[j] == 1 {
            lemma_mod_bound(l / (suffix_size(s, j + 1) as int), 1);
        }
    }
    assert(source_coords(l, s, s) =~= unravel(l, s));
    lemma_ravel_unravel(l, s, 0);
    lemma_small_mod(l as nat, shape_size(s));
}

proof fn lemma_dot_nonneg(u: Seq<int>, st: Seq<usize>, a: int)
    requires
        0 <= a,
        forall|j: int| 0 <= j < u.len() ==> 0 <= #[trigger] u[j],
    ensures
        0 <= dot_from(u, st, a),
    decreases u.len() - a,
{
    if a < u.len() {
        lemma_dot_nonneg(u, st, a + 1);
        lemma_mul_nonnegative(u[a], st[a] as int);
    }
}

proof fn lemma_dot_monotone(u: Seq<int>, st: Seq<usize>, a: int, b: int)
    requires
        0 <= a <= b,
        forall|j: int| 0 <= j < u.len() ==> 0 <= #[trigger] u[j],
    ensures
        dot_from(u, st, b) <= dot_from(u, st, a),
    decreases b - a,
{
    if a < b && a < u.len() {
        lemma_dot_monotone(u, st, a + 1, b);
        lemma_mul_nonnegative(u[a], st[a] as int);
    } else if a < b {
        assert(dot_from(u, st, a) == 0);
        assert(dot_from(u, st, b) == 0);
    }
}

/// `Σ_i idx[i]·st[i]`: the buffer offset that a stride vector gives a
/// multi-index.
pub fn dot(idx: &[usize], st: &[usize]) -> (r: usize)
    requires
        idx@.len() == st@.len(),
        dot_from(coords(idx@), st@, 0) <= usize::MAX,
    ensures
        r == dot_from(coords(idx@), st@, 0),
{
    let ghost u = coords(idx@);
    proof {
        assert forall|j: int| 0 <= j < u.len() implies 0 <= #[trigger] u[j] by {
            assert(u[j] == idx@[j] as int);
        }
    }
    let mut acc: usize = 0;
    let mut i: usize = idx.len();
    while i > 0
        invariant
            i <= idx@.len(),
            idx@.len() == st@.len(),
            u == coords(idx@),
            forall|j: int| 0 <= j < u.len() ==> 0 <= #[trigger] u[j],
            acc == dot_from(u, st@, i as int),
            dot_from(u, st@, 0) <= usize::MAX,
        decreases i,
    {
        i = i - 1;
        proof {
            lemma_dot_monotone(u, st@, 0, i as int);
            lemma_dot_nonneg(u, st@, i + 1);
            assert(u[i as int] == idx@[i as int] as int);
        }
        acc = idx[i] * st[i] + acc;
    }
    acc
}

/// `true` when `a` and `b` broadcast together.
pub fn broadcast_ok(a: &[usize], b: &[usize]) -> (r: bool)
    ensures
        r == broadcast_compatible(a@, b@),
{
    let rank = if a.len() >= b.len() {
        a.len()
    } else {
        b.len()
    };
    let mut i: usize = 0;
    while i < rank
        invariant
            rank == max_rank(a@, b@),
            i <= rank,
            forall|j: int|
                0 <= j < i ==> {
                    let da = #[trigger] aligned_dim(a@, rank as int, j);
                    let db = aligned_dim(b@, rank as int, j);
                    da == db || da == 1 || db == 1
                },
        decreases rank - i,
    {
        let da = if i < rank - a.len() {
            1
        } else {
            a[i - (rank - a.len())]
        };
        let db = if i < rank - b.len() {
            1
        } else {
            b[i - (rank - b.len())]
        };
        assert(da == aligned_dim(a@, rank as int, i as int));
        assert(db == aligned_dim(b@, rank as int, i as int));
        if !(da == db || da == 1 || db == 1) {
            return false;
        }
        i = i + 1;
    }
    true
}

/// `true` when `from` broadcasts to `to`.
pub fn broadcasts(from: &[usize], to: &[usize]) -> (r: bool)
    ensures
        r == broadcasts_to(from@, to@),
{
    if from.len() > to.len() {
        return false;
    }
    let off = to.len() - from.len();
    let tl = to.len();
    let mut j: usize = 0;
    while j < from.len()
        invariant
            off == to@.len() - from@.len(),
            tl == to@.len(),
            j <= from@.len(),
            forall|k: int| 0 <= k < j ==> #[trigger] from@[k] == 1 || from@[k] == to@[k + off],
        decreases from@.len() - j,
    {
        if !(from[j] == 1 || from[j] == to[j + off]) {
            return false;
        }
        j = j + 1;
    }
    true
}

} // verus!
