//! Dense N-dimensional tensor in row-major order, with NumPy broadcasting.
//!
//! The tensor is generic over its element type. Everything that depends only
//! on shapes and positions — broadcasting, transposition, row selection,
//! reduction back to a broadcast operand's shape — is done here; the element
//! arithmetic is the closure that the caller passes.

use crate::forma::{
    bump, broadcast_compatible, broadcast_shapes, broadcast_spec, broadcast_strides,
    broadcasts_to, coords, dot, is_broadcast_strides, is_column, lemma_broadcast_commutes, lemma_broadcast_operands,
    lemma_column_source, lemma_extents_positive, lemma_ravel_bound, lemma_source_valid, is_tiled, lemma_range_snoc, lemma_ravel_zeros,
    lemma_source_identity, lemma_strides_compute_source, lemma_unravel_ravel, range_size, ravel,
    prefixo_cabe, shape_fits, shape_size, source_index, tiled_period, valid_index,
};
use vstd::arithmetic::div_mod::*;
use vstd::arithmetic::mul::*;
use vstd::prelude::*;

verus! {

/// Dense tensor: a shape and the row-major buffer of its elements.
#[derive(Clone, Debug, PartialEq)]
pub struct Tensor<T> {
    shape: Vec<usize>,
    data: Vec<T>,
}

/// Element `(i, j)` of a row-major matrix with `c` columns.
pub open spec fn at2<T>(d: Seq<T>, c: int, i: int, j: int) -> T {
    d[i * c + j]
}

/// Shapes compared extent by extent.
pub fn same_shape(a: &[usize], b: &[usize]) -> (r: bool)
    ensures
        r == (a@ == b@),
{
    if a.len() != b.len() {
        return false;
    }
    let mut i: usize = 0;
    while i < a.len()
        invariant
            a@.len() == b@.len(),
            i <= a@.len(),
            forall|j: int| 0 <= j < i ==> a@[j] == b@[j],
        decreases a@.len() - i,
    {
        if a[i] != b[i] {
            return false;
        }
        i = i + 1;
    }
    assert(a@ =~= b@);
    true
}

/// Number of elements of a shape whose leading products fit in a `usize`.
pub fn shape_len(shape: &[usize]) -> (n: usize)
    requires
        prefixo_cabe(shape@),
    ensures
        n == shape_size(shape@),
{
    let mut n: usize = 1;
    let mut t: usize = 0;
    while t < shape.len()
        invariant
            t <= shape@.len(),
            n == range_size(shape@, 0, t as int),
            prefixo_cabe(shape@),
        decreases shape@.len() - t,
    {
        proof {
            lemma_range_snoc(shape@, 0, t as int);
            assert(range_size(shape@, 0, t + 1) <= usize::MAX);
        }
        n = n * shape[t];
        t = t + 1;
    }
    n
}

/// `true` when every product of consecutive extents of `shape` fits in a
/// `usize`, the condition under which a tensor of that shape can be indexed.
pub fn shape_is_indexable(shape: &[usize]) -> (r: bool)
    ensures
        r == shape_fits(shape@),
{
    let n = shape.len();
    let mut a: usize = 0;
    while a < n
        invariant
            n == shape@.len(),
            a <= n,
            forall|x: int, y: int| 0 <= x < a && x <= y <= n ==> #[trigger] range_size(shape@, x, y) <= usize::MAX,
        decreases n - a,
    {
        let mut p: usize = 1;
        let mut b: usize = a;
        while b < n
            invariant
                n == shape@.len(),
                a <= b <= n,
                p == range_size(shape@, a as int, b as int),
                forall|y: int| a <= y <= b ==> #[trigger] range_size(shape@, a as int, y) <= usize::MAX,
            decreases n - b,
        {
            proof {
                lemma_range_snoc(shape@, a as int, b as int);
            }
            match p.checked_mul(shape[b]) {
                Some(q) => {
                    p = q;
                },
                None => {
                    return false;
                },
            }
            b = b + 1;
        }
        a = a + 1;
    }
    proof {
        assert forall|x: int, y: int| 0 <= x <= y <= n implies #[trigger] range_size(shape@, x, y)
            <= usize::MAX by {
            if x == n {
                assert(range_size(shape@, x, y) == 1);
            }
        }
    }
    true
}

/// Copy of a slice into a new vector.
pub fn copy_slice<T: Copy>(s: &[T]) -> (v: Vec<T>)
    ensures
        v@ == s@,
{
    let mut v: Vec<T> = Vec::new();
    let mut i: usize = 0;
    while i < s.len()
        invariant
            i <= s@.len(),
            v@ == s@.subrange(0, i as int),
        decreases s@.len() - i,
    {
        v.push(s[i]);
        i = i + 1;
        assert(v@ =~= s@.subrange(0, i as int));
    }
    assert(v@ =~= s@);
    v
}


/// `c` holds, at every position `l` of the shape `s`, a value that `f` may
/// return for the elements of `a` and `b` that broadcasting reads at `l`.
pub open spec fn zipped<T, F: Fn(T, T) -> T>(
    f: F,
    a: Seq<T>,
    sa: Seq<usize>,
    b: Seq<T>,
    sb: Seq<usize>,
    s: Seq<usize>,
    c: Seq<T>,
) -> bool {
    &&& c.len() == shape_size(s)
    &&& forall|l: int|
        0 <= l < c.len() ==> f.ensures(
            (a[source_index(l, sa, s)], b[source_index(l, sb, s)]),
            #[trigger] c[l],
        )
}

/// Swapping the operands of `zip` and flipping the closure gives the same
/// tensor: for a deterministic `f` and a `g` with `g(y, x) = f(x, y)`, the
/// two results have the same shape and the same elements.
pub proof fn lemma_zip_comuta<T, F: Fn(T, T) -> T, G: Fn(T, T) -> T>(
    f: F,
    g: G,
    a: Seq<T>,
    sa: Seq<usize>,
    b: Seq<T>,
    sb: Seq<usize>,
    c1: Seq<T>,
    c2: Seq<T>,
)
    requires
        broadcast_compatible(sa, sb),
        forall|x: T, y: T, r: T| #[trigger] g.ensures((y, x), r) <==> f.ensures((x, y), r),
        forall|x: T, y: T, r1: T, r2: T|
            #![trigger f.ensures((x, y), r1), f.ensures((x, y), r2)]
            f.ensures((x, y), r1) && f.ensures((x, y), r2) ==> r1 == r2,
        zipped(f, a, sa, b, sb, broadcast_spec(sa, sb), c1),
        zipped(g, b, sb, a, sa, broadcast_spec(sb, sa), c2),
    ensures
        broadcast_spec(sa, sb) == broadcast_spec(sb, sa),
        c1 == c2,
{
    lemma_broadcast_commutes(sa, sb);
    let s = broadcast_spec(sa, sb);
    assert forall|l: int| 0 <= l < c1.len() implies c1[l] == c2[l] by {
        let x = a[source_index(l, sa, s)];
        let y = b[source_index(l, sb, s)];
        assert(f.ensures((x, y), c1[l]));
        assert(g.ensures((y, x), c2[l]));
    }
    assert(c1 =~= c2);
}

/// A rank-2 shape has `rows · cols` elements.
proof fn lemma_shape2(s: Seq<usize>)
    requires
        s.len() == 2,
    ensures
        shape_size(s) == (s[0] as int) * (s[1] as int),
{
    assert(range_size(s, 2, 2) == 1);
    let x = s[1] as int;
    assert(range_size(s, 1, 2) == x * 1);
    assert(x * 1 == x) by (nonlinear_arith);
    assert(range_size(s, 0, 2) == (s[0] as int) * range_size(s, 1, 2));
}

/// Row-major buffer of the transpose of the `[r, c]` matrix `d`: position
/// `k` of the `[c, r]` result holds `d[k % r][k / r]`.
pub open spec fn transposed<T>(d: Seq<T>, r: int, c: int) -> Seq<T> {
    Seq::new((r * c) as nat, |k: int| d[(k % r) * c + k / r])
}

/// The value that the test `z` gives `x`.
pub open spec fn test_of<T, Z: Fn(T) -> bool>(z: Z, x: T) -> bool {
    choose|r: bool| z.ensures((x,), r)
}

/// The value that `ma` gives the accumulator `d` and the factors `x`, `y`.
pub open spec fn mul_add_of<T, M: Fn(T, T, T) -> T>(ma: M, d: T, x: T, y: T) -> T {
    choose|r: T| ma.ensures((d, x, y), r)
}

/// The test `z` can be called on any value, answers it, and answers each
/// value one way.
pub open spec fn total_test<T, Z: Fn(T) -> bool>(z: Z) -> bool {
    &&& forall|x: T| #[trigger] z.requires((x,))
    &&& forall|x: T| #![trigger z.requires((x,))] exists|r: bool| z.ensures((x,), r)
    &&& forall|x: T, r1: bool, r2: bool|
        z.ensures((x,), r1) && z.ensures((x,), r2) ==> r1 == r2
}

/// `ma` can be called on any three values, gives a result, and gives each
/// triple one result.
pub open spec fn total_mul_add<T, M: Fn(T, T, T) -> T>(ma: M) -> bool {
    &&& forall|d: T, x: T, y: T| #[trigger] ma.requires((d, x, y))
    &&& forall|d: T, x: T, y: T|
        #![trigger ma.requires((d, x, y))]
        exists|r: T| ma.ensures((d, x, y), r)
    &&& forall|d: T, x: T, y: T, r1: T, r2: T|
        ma.ensures((d, x, y), r1) && ma.ensures((d, x, y), r2) ==> r1 == r2
}

/// Entry `(i, j)` of the product of the `[·, k]` matrix `a` by the `[k, n]`
/// matrix `b`, over the first `upto` terms: starting at `zero`, for
/// `p = 0, 1, …` each factor `a[i, p]` that `is_zero` does not reject adds
/// `a[i, p] · b[p, j]` through `mul_add`.
pub open spec fn mm_acc<T, Z: Fn(T) -> bool, M: Fn(T, T, T) -> T>(
    is_zero: Z,
    mul_add: M,
    zero: T,
    a: Seq<T>,
    b: Seq<T>,
    k: int,
    n: int,
    i: int,
    j: int,
    upto: int,
) -> T
    decreases upto,
{
    if upto <= 0 {
        zero
    } else {
        let acc = mm_acc(is_zero, mul_add, zero, a, b, k, n, i, j, upto - 1);
        let x = a[i * k + upto - 1];
        if test_of(is_zero, x) {
            acc
        } else {
            mul_add_of(mul_add, acc, x, b[(upto - 1) * n + j])
        }
    }
}

/// Progress of the panel `[j0, j1)` of a product: row `i` of the panel has
/// its first `pr` terms, positions outside the panel are as in `before`.
pub open spec fn panel_state<T, Z: Fn(T) -> bool, M: Fn(T, T, T) -> T>(
    out: Seq<T>,
    before: Seq<T>,
    is_zero: Z,
    mul_add: M,
    zero: T,
    a: Seq<T>,
    b: Seq<T>,
    k: int,
    n: int,
    j0: int,
    j1: int,
    pr: spec_fn(int, int) -> int,
) -> bool {
    &&& out.len() == before.len()
    &&& forall|q: int|
        0 <= q < out.len() ==> #[trigger] out[q] == if j0 <= q % n < j1 {
            mm_acc(is_zero, mul_add, zero, a, b, k, n, q / n, q % n, pr(q / n, q % n))
        } else {
            before[q]
        }
}

/// The value that `f` gives `(x, y)`.
pub open spec fn op_of<T, F: Fn(T, T) -> T>(f: F, x: T, y: T) -> T {
    choose|r: T| f.ensures((x, y), r)
}

/// `f` applied position by position to two sequences of the length of `a`.
pub open spec fn combina_seq<T, F: Fn(T, T) -> T>(f: F, a: Seq<T>, b: Seq<T>) -> Seq<T> {
    Seq::new(a.len(), |i: int| op_of(f, a[i], b[i]))
}

/// `f` can be called on any two values, gives a result, and gives each
/// pair one result.
pub open spec fn total_op<T, F: Fn(T, T) -> T>(f: F) -> bool {
    &&& forall|x: T, y: T| #[trigger] f.requires((x, y))
    &&& forall|x: T, y: T| #![trigger f.requires((x, y))] exists|r: T| f.ensures((x, y), r)
    &&& forall|x: T, y: T, r1: T, r2: T| f.ensures((x, y), r1) && f.ensures((x, y), r2) ==> r1 == r2
}

/// Position `t` of the reduction of `d` (of shape `sh`) back to the shape
/// `target`, over the first `upto` elements of `d`: starting at `zero`, every
/// element that broadcasting `target` to `sh` maps onto `t` is added, in
/// increasing order, through `plus`.
pub open spec fn reduce_acc<T, F: Fn(T, T) -> T>(
    plus: F,
    zero: T,
    d: Seq<T>,
    target: Seq<usize>,
    sh: Seq<usize>,
    t: int,
    upto: int,
) -> T
    decreases upto,
{
    if upto <= 0 {
        zero
    } else {
        let acc = reduce_acc(plus, zero, d, target, sh, t, upto - 1);
        if source_index(upto - 1, target, sh) == t {
            op_of(plus, acc, d[upto - 1])
        } else {
            acc
        }
    }
}

/// The pairs of shapes on which reducing would split a buffer into chunks
/// of zero elements: an empty target repeated as contiguous blocks, or an
/// empty matrix reduced to a column.
pub open spec fn reduce_degenerate(target: Seq<usize>, sh: Seq<usize>) -> bool {
    &&& target != sh
    &&& shape_size(target) != 1
    &&& if is_tiled(target, sh) {
        shape_size(target) == 0
    } else {
        sh.len() == 2 && target == seq![sh[0], 1usize] && sh[1] == 0
    }
}

/// `r` is the only value that `f` gives `(x, y)`.
pub(crate) proof fn lemma_op_value<T, F: Fn(T, T) -> T>(f: F, x: T, y: T, r: T)
    requires
        total_op(f),
        f.ensures((x, y), r),
    ensures
        op_of(f, x, y) == r,
{
    let c = op_of(f, x, y);
    assert(f.ensures((x, y), c));
}

/// Index of the first greatest element among the first `upto` elements of
/// `row`, greater meaning what the test `gt` answers: the scan keeps the
/// current best and moves to a later element only when `gt` puts it above.
pub open spec fn first_best<T, G: Fn(T, T) -> bool>(gt: G, row: Seq<T>, upto: int) -> int
    decreases upto,
{
    if upto <= 1 {
        0
    } else {
        let b = first_best(gt, row, upto - 1);
        if test2_of(gt, row[upto - 1], row[b]) {
            upto - 1
        } else {
            b
        }
    }
}

/// `gt` answers like a strict weak order, as `>` does on numbers: never
/// `gt(x, x)`; `gt(x, y)` and `gt(y, z)` give `gt(x, z)`; and `gt(x, z)`
/// puts every `y` above `z` or below `x`.
pub open spec fn ordem_estrita<T, G: Fn(T, T) -> bool>(gt: G) -> bool {
    &&& forall|x: T| !#[trigger] test2_of(gt, x, x)
    &&& forall|x: T, y: T, z: T|
        #![trigger test2_of(gt, x, y), test2_of(gt, y, z)]
        test2_of(gt, x, y) && test2_of(gt, y, z) ==> test2_of(gt, x, z)
    &&& forall|x: T, y: T, z: T|
        #![trigger test2_of(gt, x, z), test2_of(gt, x, y)]
        #![trigger test2_of(gt, x, z), test2_of(gt, y, z)]
        test2_of(gt, x, z) ==> test2_of(gt, x, y) || test2_of(gt, y, z)
}

/// Under a strict weak order, the scan finds a greatest element of the
/// first `upto`, the first of the elements tied with it: nothing among them
/// is above it, and it is above everything before it.
pub proof fn lemma_maior_da_linha<T, G: Fn(T, T) -> bool>(gt: G, row: Seq<T>, upto: int)
    requires
        ordem_estrita(gt),
        1 <= upto <= row.len(),
    ensures
        0 <= first_best(gt, row, upto) < upto,
        forall|j: int|
            0 <= j < upto ==> !#[trigger] test2_of(gt, row[j], row[first_best(gt, row, upto)]),
        forall|j: int|
            0 <= j < first_best(gt, row, upto) ==> #[trigger] test2_of(
                gt,
                row[first_best(gt, row, upto)],
                row[j],
            ),
    decreases upto,
{
    if upto > 1 {
        lemma_maior_da_linha(gt, row, upto - 1);
        let b = first_best(gt, row, upto - 1);
        let n = upto - 1;
        if test2_of(gt, row[n], row[b]) {
            assert forall|j: int| 0 <= j < upto implies !#[trigger] test2_of(gt, row[j], row[n]) by {
                if j < n {
                    assert(!test2_of(gt, row[j], row[b]));
                    if test2_of(gt, row[j], row[n]) {
                        assert(test2_of(gt, row[j], row[b]));
                    }
                }
            }
            assert forall|j: int| 0 <= j < n implies #[trigger] test2_of(gt, row[n], row[j]) by {
                assert(!test2_of(gt, row[j], row[b]));
            }
        }
    }
}

/// For closures that [`total_test`], [`total_mul_add`], [`total_op`] and
/// [`total_test2`] admit, the values these spec functions name are what the
/// closures give, on any arguments: a caller can unfold the contracts that
/// speak of them without having called the closures.
pub proof fn lemma_valores<T, Z: Fn(T) -> bool, M: Fn(T, T, T) -> T, F: Fn(T, T) -> T, G: Fn(T, T) -> bool>(
    z: Z,
    ma: M,
    f: F,
    g: G,
)
    ensures
        total_test(z) ==> forall|x: T| #[trigger] z.ensures((x,), test_of(z, x)),
        total_mul_add(ma) ==> forall|d: T, x: T, y: T|
            #[trigger] ma.ensures((d, x, y), mul_add_of(ma, d, x, y)),
        total_op(f) ==> forall|x: T, y: T| #[trigger] f.ensures((x, y), op_of(f, x, y)),
        total_test2(g) ==> forall|x: T, y: T| #[trigger] g.ensures((x, y), test2_of(g, x, y)),
{
    if total_test(z) {
        assert forall|x: T| #[trigger] z.ensures((x,), test_of(z, x)) by {
            assert(z.requires((x,)));
        }
    }
    if total_mul_add(ma) {
        assert forall|d: T, x: T, y: T| #[trigger] ma.ensures((d, x, y), mul_add_of(ma, d, x, y)) by {
            assert(ma.requires((d, x, y)));
        }
    }
    if total_op(f) {
        assert forall|x: T, y: T| #[trigger] f.ensures((x, y), op_of(f, x, y)) by {
            assert(f.requires((x, y)));
        }
    }
    if total_test2(g) {
        assert forall|x: T, y: T| #[trigger] g.ensures((x, y), test2_of(g, x, y)) by {
            assert(g.requires((x, y)));
        }
    }
}

/// The value that the binary test `g` gives `(x, y)`.
pub open spec fn test2_of<T, G: Fn(T, T) -> bool>(g: G, x: T, y: T) -> bool {
    choose|r: bool| g.ensures((x, y), r)
}

/// `g` can be called on any two values, answers them, and answers each
/// pair one way.
pub open spec fn total_test2<T, G: Fn(T, T) -> bool>(g: G) -> bool {
    &&& forall|x: T, y: T| #[trigger] g.requires((x, y))
    &&& forall|x: T, y: T| #![trigger g.requires((x, y))] exists|r: bool| g.ensures((x, y), r)
    &&& forall|x: T, y: T, r1: bool, r2: bool|
        g.ensures((x, y), r1) && g.ensures((x, y), r2) ==> r1 == r2
}

/// Transposing twice gives back the matrix: `(Aᵀ)ᵀ = A`.
pub proof fn lemma_transpose_twice<T>(d: Seq<T>, r: int, c: int)
    requires
        r >= 0,
        c >= 0,
        d.len() == r * c,
    ensures
        transposed(transposed(d, r, c), c, r) == d,
{
    let t1 = transposed(d, r, c);
    let t2 = transposed(t1, c, r);
    lemma_mul_is_commutative(r, c);
    assert forall|k: int| 0 <= k < r * c implies #[trigger] t2[k] == d[k] by {
        let i = k / c;
        let j = k % c;
        lemma_fundamental_div_mod(k, c);
        lemma_mod_bound(k, c);
        lemma_div_pos_is_pos(k, c);
        lemma_multiply_divide_lt(k, c, r);
        lemma_block(j, i, r, c);
        lemma_mul_is_commutative(c, i);
        assert(t2[k] == t1[j * r + i]);
    }
    assert(t2 =~= d);
}

/// Entry `(j, i)` of the transpose of an `r × c` matrix is entry `(i, j)`
/// of the matrix, and the transpose has as many entries.
pub proof fn lemma_transposta_entradas<T>(d: Seq<T>, r: int, c: int)
    requires
        r >= 0,
        c >= 0,
        d.len() == r * c,
    ensures
        transposed(d, r, c).len() == d.len(),
        forall|i: int, j: int|
            0 <= i < r && 0 <= j < c ==> #[trigger] transposed(d, r, c)[j * r + i] == d[i * c + j],
{
    lemma_mul_is_commutative(r, c);
    assert forall|i: int, j: int| 0 <= i < r && 0 <= j < c implies #[trigger] transposed(d, r, c)[j
        * r + i] == d[i * c + j] by {
        lemma_block(j, i, r, c);
        lemma_mul_is_commutative(c, r);
    }
}

/// A rank-2 shape whose element count fits in a `usize` can be indexed.
proof fn lemma_fits2(s: Seq<usize>)
    requires
        s.len() == 2,
        (s[0] as int) * (s[1] as int) <= usize::MAX,
    ensures
        shape_fits(s),
{
    lemma_shape2(s);
    assert(range_size(s, 2, 2) == 1);
    assert(range_size(s, 1, 2) == s[1] as int) by {
        let x = s[1] as int;
        assert(x * 1 == x) by (nonlinear_arith);
    }
    assert(range_size(s, 1, 1) == 1);
    assert(range_size(s, 0, 0) == 1);
    assert(range_size(s, 0, 1) == s[0] as int) by {
        let x = s[0] as int;
        assert(range_size(s, 0, 1) == x * range_size(s, 1, 1));
        assert(x * 1 == x) by (nonlinear_arith);
    }
    assert forall|a: int, b: int| 0 <= a <= b <= s.len() implies #[trigger] range_size(s, a, b)
        <= usize::MAX by {
        if a == 0 && b == 2 {
        } else if a == b {
        }
    }
}

/// Position `j` of block `blk` when blocks of `k` elements are laid end to end.
proof fn lemma_block(blk: int, j: int, k: int, reps: int)
    requires
        0 <= blk < reps,
        0 <= j < k,
    ensures
        0 <= blk * k,
        blk * k + j < reps * k,
        (blk * k + j) % k == j,
        (blk * k + j) / k == blk,
        blk * k + k == (blk + 1) * k,
{
    assert(0 <= blk * k) by (nonlinear_arith)
        requires
            0 <= blk,
            0 <= k,
    ;
    assert(blk * k + j < reps * k) by (nonlinear_arith)
        requires
            blk + 1 <= reps,
            0 <= j < k,
            0 <= blk,
    ;
    assert(blk * k + k == (blk + 1) * k) by (nonlinear_arith);
    lemma_fundamental_div_mod_converse(blk * k + j, k, blk, j);
}

/// `r` is the only value the test gives `x`.
proof fn lemma_test_value<T, Z: Fn(T) -> bool>(z: Z, x: T, r: bool)
    requires
        total_test(z),
        z.ensures((x,), r),
    ensures
        test_of(z, x) == r,
{
    let c = test_of(z, x);
    assert(z.ensures((x,), c));
}

/// `r` is the only value that `ma` gives `(d, x, y)`.
proof fn lemma_mul_add_value<T, M: Fn(T, T, T) -> T>(ma: M, d: T, x: T, y: T, r: T)
    requires
        total_mul_add(ma),
        ma.ensures((d, x, y), r),
    ensures
        mul_add_of(ma, d, x, y) == r,
{
    let c = mul_add_of(ma, d, x, y);
    assert(ma.ensures((d, x, y), c));
}

/// One panel of a matrix product: for every row, the terms `p0..p1` of the
/// columns `j0..j1`, in the order `i`, `p`, `j`.
#[verifier::spinoff_prover]
fn mm_panel<T: Copy, Z: Fn(T) -> bool, M: Fn(T, T, T) -> T>(
    out: &mut Vec<T>,
    a: &[T],
    b: &[T],
    m: usize,
    n: usize,
    k: usize,
    j0: usize,
    j1: usize,
    p0: usize,
    p1: usize,
    is_zero: &Z,
    mul_add: &M,
    Ghost(zero): Ghost<T>,
)
    requires
        old(out)@.len() == m * n,
        a@.len() == m * k,
        b@.len() == k * n,
        m * n <= usize::MAX,
        m * k <= usize::MAX,
        k * n <= usize::MAX,
        j0 <= j1 <= n,
        p0 <= p1 <= k,
        total_test(*is_zero),
        total_mul_add(*mul_add),
        panel_state(
            old(out)@,
            old(out)@,
            *is_zero,
            *mul_add,
            zero,
            a@,
            b@,
            k as int,
            n as int,
            j0 as int,
            j1 as int,
            |i2: int, j2: int| p0 as int,
        ),
    ensures
        panel_state(
            final(out)@,
            old(out)@,
            *is_zero,
            *mul_add,
            zero,
            a@,
            b@,
            k as int,
            n as int,
            j0 as int,
            j1 as int,
            |i2: int, j2: int| p1 as int,
        ),
{
    let ghost before = out@;
    let ghost iz = *is_zero;
    let ghost ma = *mul_add;
    let ghost (ka, na) = (k as int, n as int);
    let mut i: usize = 0;
    while i < m
        invariant
            i <= m,
            before == old(out)@,
            iz == *is_zero,
            ma == *mul_add,
            ka == k,
            na == n,
            out@.len() == m * n,
            a@.len() == m * k,
            b@.len() == k * n,
            m * n <= usize::MAX,
            m * k <= usize::MAX,
            k * n <= usize::MAX,
            j0 <= j1 <= n,
            p0 <= p1 <= k,
            total_test(iz),
            total_mul_add(ma),
            panel_state(
                out@,
                before,
                iz,
                ma,
                zero,
                a@,
                b@,
                ka,
                na,
                j0 as int,
                j1 as int,
                |i2: int, j2: int|
                    if i2 < i {
                        p1 as int
                    } else {
                        p0 as int
                    },
            ),
        decreases m - i,
    {
        let mut p: usize = p0;
        while p < p1
            invariant
                i < m,
                p0 <= p <= p1,
                before == old(out)@,
                iz == *is_zero,
                ma == *mul_add,
                ka == k,
                na == n,
                out@.len() == m * n,
                a@.len() == m * k,
                b@.len() == k * n,
                m * n <= usize::MAX,
                m * k <= usize::MAX,
                k * n <= usize::MAX,
                j0 <= j1 <= n,
                p0 <= p1 <= k,
                total_test(iz),
                total_mul_add(ma),
                panel_state(
                    out@,
                    before,
                    iz,
                    ma,
                    zero,
                    a@,
                    b@,
                    ka,
                    na,
                    j0 as int,
                    j1 as int,
                    |i2: int, j2: int|
                        if i2 < i {
                            p1 as int
                        } else if i2 > i {
                            p0 as int
                        } else {
                            p as int
                        },
                ),
            decreases p1 - p,
        {
            proof {
                lemma_block(i as int, p as int, k as int, m as int);
            }
            let x = a[i * k + p];
            let skip = is_zero(x);
            proof {
                lemma_test_value(iz, x, skip);
            }
            if !skip {
                let mut j: usize = j0;
                while j < j1
                    invariant
                        i < m,
                        p0 <= p < p1,
                        j0 <= j <= j1,
                        x == a@[i * k + p],
                        !test_of(iz, x),
                        before == old(out)@,
                        iz == *is_zero,
                        ma == *mul_add,
                        ka == k,
                        na == n,
                        out@.len() == m * n,
                        a@.len() == m * k,
                        b@.len() == k * n,
                        m * n <= usize::MAX,
                        m * k <= usize::MAX,
                        k * n <= usize::MAX,
                        j1 <= n,
                        p1 <= k,
                        total_test(iz),
                        total_mul_add(ma),
                        panel_state(
                            out@,
                            before,
                            iz,
                            ma,
                            zero,
                            a@,
                            b@,
                            ka,
                            na,
                            j0 as int,
                            j1 as int,
                            |i2: int, j2: int|
                                if i2 < i {
                                    p1 as int
                                } else if i2 > i {
                                    p0 as int
                                } else if j2 < j {
                                    p as int + 1
                                } else {
                                    p as int
                                },
                        ),
                    decreases j1 - j,
                {
                    proof {
                        lemma_block(i as int, j as int, n as int, m as int);
                        lemma_block(p as int, j as int, n as int, k as int);
                    }
                    let q = i * n + j;
                    let d = out[q];
                    let y = b[p * n + j];
                    let r = mul_add(d, x, y);
                    let ghost old_out = out@;
                    out.set(q, r);
                    proof {
                        lemma_mul_add_value(ma, d, x, y, r);
                        assert(old_out[q as int] == d);
                        assert forall|q2: int| 0 <= q2 < out@.len() implies #[trigger] out@[q2] == if j0
                            <= q2 % na < j1 {
                            mm_acc(
                                iz,
                                ma,
                                zero,
                                a@,
                                b@,
                                ka,
                                na,
                                q2 / na,
                                q2 % na,
                                if q2 / na < i {
                                    p1 as int
                                } else if q2 / na > i {
                                    p0 as int
                                } else if q2 % na < j + 1 {
                                    p as int + 1
                                } else {
                                    p as int
                                },
                            )
                        } else {
                            before[q2]
                        } by {
                            if q2 != q {
                                assert(old_out[q2] == out@[q2]);
                                if q2 / na == i && q2 % na == j {
                                    lemma_fundamental_div_mod(q2, na);
                                    lemma_mul_is_commutative(na, i as int);
                                }
                            }
                        }
                    }
                    j = j + 1;
                }
            } else {
                proof {
                    assert forall|q2: int| 0 <= q2 < out@.len() implies #[trigger] out@[q2] == if j0
                        <= q2 % na < j1 {
                        mm_acc(
                            iz,
                            ma,
                            zero,
                            a@,
                            b@,
                            ka,
                            na,
                            q2 / na,
                            q2 % na,
                            if q2 / na < i {
                                p1 as int
                            } else if q2 / na > i {
                                p0 as int
                            } else {
                                p as int + 1
                            },
                        )
                    } else {
                        before[q2]
                    } by {
                        if q2 / na == i && j0 <= q2 % na < j1 {
                            assert(mm_acc(iz, ma, zero, a@, b@, ka, na, i as int, q2 % na, p + 1)
                                == mm_acc(iz, ma, zero, a@, b@, ka, na, i as int, q2 % na, p as int));
                        }
                    }
                }
            }
            p = p + 1;
        }
        i = i + 1;
    }
    proof {
        assert forall|q2: int| 0 <= q2 < out@.len() implies #[trigger] out@[q2] == if j0 <= q2 % na
            < j1 {
            mm_acc(iz, ma, zero, a@, b@, ka, na, q2 / na, q2 % na, p1 as int)
        } else {
            before[q2]
        } by {
            if j0 <= q2 % na < j1 {
                lemma_mul_is_commutative(m as int, na);
                lemma_multiply_divide_lt(q2, na, m as int);
            }
        }
    }
}

impl<T: Copy> Tensor<T> {
    /// The shape.
    pub closed spec fn shape_view(&self) -> Seq<usize> {
        self.shape@
    }

    /// The row-major elements.
    pub closed spec fn data_view(&self) -> Seq<T> {
        self.data@
    }

    /// The buffer holds exactly one element per position of the shape, and
    /// the shape can be indexed in machine integers.
    pub open spec fn wf(&self) -> bool {
        &&& shape_fits(self.shape_view())
        &&& self.data_view().len() == shape_size(self.shape_view())
    }

    /// Two tensors of one shape combined element by element:
    /// `C[i] = f(A[i], B[i])`.
    pub fn combinar<F: Fn(T, T) -> T>(&self, other: &Tensor<T>, f: &F) -> (out: Tensor<T>)
        requires
            self.wf(),
            other.wf(),
            other.shape_view() == self.shape_view(),
            total_op(*f),
        ensures
            out.wf(),
            out.shape_view() == self.shape_view(),
            out.data_view() == combina_seq(*f, self.data_view(), other.data_view()),
    {
        let mut data: Vec<T> = Vec::new();
        let mut i: usize = 0;
        while i < self.data.len()
            invariant
                i <= self.data@.len(),
                self.data@.len() == other.data@.len(),
                total_op(*f),
                data@.len() == i,
                forall|j: int|
                    0 <= j < i ==> #[trigger] data@[j] == op_of(*f, self.data@[j], other.data@[j]),
            decreases self.data@.len() - i,
        {
            let x = f(self.data[i], other.data[i]);
            proof {
                lemma_op_value(*f, self.data@[i as int], other.data@[i as int], x);
            }
            data.push(x);
            i = i + 1;
        }
        proof {
            assert(data@ =~= combina_seq(*f, self.data@, other.data@));
        }
        Tensor { shape: copy_slice(self.shape.as_slice()), data }
    }

    /// Tensor of the given shape over the given row-major buffer.
    pub fn new(shape: &[usize], data: Vec<T>) -> (t: Tensor<T>)
        requires
            prefixo_cabe(shape@),
            shape_size(shape@) == data@.len(),
        ensures
            shape_fits(shape@) ==> t.wf(),
            t.shape_view() == shape@,
            t.data_view() == data@,
    {
        Tensor { shape: copy_slice(shape), data }
    }

    /// Rank-0 tensor holding one value.
    pub fn scalar(v: T) -> (t: Tensor<T>)
        ensures
            t.wf(),
            t.shape_view() == Seq::<usize>::empty(),
            t.data_view() == seq![v],
    {
        let mut data: Vec<T> = Vec::new();
        data.push(v);
        let shape: Vec<usize> = Vec::new();
        proof {
            assert forall|a: int, b: int| 0 <= a <= b <= shape@.len() implies #[trigger] range_size(
                shape@,
                a,
                b,
            ) <= usize::MAX by {
                assert(range_size(shape@, a, b) == 1);
            }
            assert(shape_size(shape@) == 1);
            assert(data@ =~= seq![v]);
        }
        Tensor { shape, data }
    }

    /// Tensor of the given shape with every element equal to `v`.
    pub fn full(shape: &[usize], v: T) -> (t: Tensor<T>)
        requires
            prefixo_cabe(shape@),
        ensures
            shape_fits(shape@) ==> t.wf(),
            t.shape_view() == shape@,
            t.data_view() == Seq::new(shape_size(shape@), |i: int| v),
    {
        let n = shape_len(shape);
        let mut data: Vec<T> = Vec::new();
        let mut i: usize = 0;
        while i < n
            invariant
                i <= n,
                data@.len() == i,
                forall|j: int| 0 <= j < i ==> data@[j] == v,
            decreases n - i,
        {
            data.push(v);
            i = i + 1;
        }
        assert(data@ =~= Seq::new(shape_size(shape@), |i: int| v));
        Tensor { shape: copy_slice(shape), data }
    }

    pub fn shape(&self) -> (s: &[usize])
        ensures
            s@ == self.shape_view(),
    {
        self.shape.as_slice()
    }

    pub fn data(&self) -> (d: &[T])
        ensures
            d@ == self.data_view(),
    {
        self.data.as_slice()
    }

    /// Mutable access to the elements; the shape cannot change through it.
    pub fn data_mut(&mut self) -> (d: &mut [T])
        ensures
            d@ == old(self).data_view(),
            final(d)@ == final(self).data_view(),
            final(self).shape_view() == old(self).shape_view(),
    {
        self.data.as_mut_slice()
    }

    pub fn len(&self) -> (n: usize)
        ensures
            n == self.data_view().len(),
    {
        self.data.len()
    }

    pub fn is_empty(&self) -> (b: bool)
        ensures
            b == (self.data_view().len() == 0),
    {
        self.data.len() == 0
    }

    pub fn rank(&self) -> (n: usize)
        ensures
            n == self.shape_view().len(),
    {
        self.shape.len()
    }

    /// A tensor of exactly one element.
    pub fn is_scalar(&self) -> (b: bool)
        ensures
            b == (self.data_view().len() == 1),
    {
        self.data.len() == 1
    }

    /// The value of a one-element tensor.
    pub fn item(&self) -> (v: T)
        requires
            self.data_view().len() == 1,
        ensures
            v == self.data_view()[0],
    {
        self.data[0]
    }

    /// Tiled fast path of [`Tensor::zip`]: both operands repeat their whole
    /// buffer, with periods `ka` and `kb`, along the `n` output positions.
    #[verifier::spinoff_prover]
    fn zip_tiled<F: Fn(T, T) -> T>(&self, other: &Tensor<T>, f: F, n: usize, ka: usize, kb: usize) -> (data: Vec<T>)
        requires
            self.data@.len() == ka,
            other.data@.len() == kb,
            n > 0 ==> ka > 0 && kb > 0 && n % ka == 0 && n % kb == 0,
            forall|x: T, y: T| #[trigger] f.requires((x, y)),
        ensures
            data@.len() == n,
            forall|l: int|
                0 <= l < n ==> f.ensures(
                    (self.data@[l % (ka as int)], other.data@[l % (kb as int)]),
                    #[trigger] data@[l],
                ),
    {
        let mut data: Vec<T> = Vec::new();
        if ka == n && kb == n {
            // Same effective shape: aligned buffers.
            let mut i: usize = 0;
            while i < n
                invariant
                    i <= n,
                    ka == n,
                    kb == n,
                    self.data@.len() == n,
                    other.data@.len() == n,
                    data@.len() == i,
                    forall|x: T, y: T| #[trigger] f.requires((x, y)),
                    forall|l: int|
                        0 <= l < i ==> f.ensures(
                            (self.data@[l % (ka as int)], other.data@[l % (kb as int)]),
                            #[trigger] data@[l],
                        ),
                decreases n - i,
            {
                proof {
                    lemma_small_mod(i as nat, n as nat);
                }
                data.push(f(self.data[i], other.data[i]));
                i = i + 1;
            }
        } else if ka == n {
            // `other` repeated block after block along `self`.
            let reps: usize = if kb == 0 {
                0
            } else {
                n / kb
            };
            proof {
                if kb > 0 {
                    lemma_fundamental_div_mod(n as int, kb as int);
                    lemma_mul_is_commutative(kb as int, reps as int);
                }
            }
            let mut blk: usize = 0;
            while blk < reps
                invariant
                    blk <= reps,
                    reps * kb == n,
                    ka == n,
                    self.data@.len() == n,
                    other.data@.len() == kb,
                    data@.len() == blk * kb,
                    forall|x: T, y: T| #[trigger] f.requires((x, y)),
                    forall|l: int|
                        0 <= l < data@.len() ==> f.ensures(
                            (self.data@[l % (ka as int)], other.data@[l % (kb as int)]),
                            #[trigger] data@[l],
                        ),
                decreases reps - blk,
            {
                proof {
                    lemma_mul_inequality(blk as int, reps as int, kb as int);
                }
                let base = blk * kb;
                let mut j: usize = 0;
                while j < kb
                    invariant
                        j <= kb,
                        blk < reps,
                        reps * kb == n,
                        ka == n,
                        base == blk * kb,
                        self.data@.len() == n,
                        other.data@.len() == kb,
                        data@.len() == base + j,
                        forall|x: T, y: T| #[trigger] f.requires((x, y)),
                        forall|l: int|
                            0 <= l < data@.len() ==> f.ensures(
                                (self.data@[l % (ka as int)], other.data@[l % (kb as int)]),
                                #[trigger] data@[l],
                            ),
                    decreases kb - j,
                {
                    proof {
                        lemma_block(blk as int, j as int, kb as int, reps as int);
                        lemma_small_mod((base + j) as nat, n as nat);
                    }
                    data.push(f(self.data[base + j], other.data[j]));
                    j = j + 1;
                }
                proof {
                    assert(blk * kb + kb == (blk + 1) * kb) by (nonlinear_arith);
                }
                blk = blk + 1;
            }
        } else if kb == n {
            // `self` repeated block after block along `other`.
            let reps: usize = if ka == 0 {
                0
            } else {
                n / ka
            };
            proof {
                if ka > 0 {
                    lemma_fundamental_div_mod(n as int, ka as int);
                    lemma_mul_is_commutative(ka as int, reps as int);
                }
            }
            let mut blk: usize = 0;
            while blk < reps
                invariant
                    blk <= reps,
                    reps * ka == n,
                    kb == n,
                    self.data@.len() == ka,
                    other.data@.len() == n,
                    data@.len() == blk * ka,
                    forall|x: T, y: T| #[trigger] f.requires((x, y)),
                    forall|l: int|
                        0 <= l < data@.len() ==> f.ensures(
                            (self.data@[l % (ka as int)], other.data@[l % (kb as int)]),
                            #[trigger] data@[l],
                        ),
                decreases reps - blk,
            {
                proof {
                    lemma_mul_inequality(blk as int, reps as int, ka as int);
                }
                let base = blk * ka;
                let mut j: usize = 0;
                while j < ka
                    invariant
                        j <= ka,
                        blk < reps,
                        reps * ka == n,
                        kb == n,
                        base == blk * ka,
                        self.data@.len() == ka,
                        other.data@.len() == n,
                        data@.len() == base + j,
                        forall|x: T, y: T| #[trigger] f.requires((x, y)),
                        forall|l: int|
                            0 <= l < data@.len() ==> f.ensures(
                                (self.data@[l % (ka as int)], other.data@[l % (kb as int)]),
                                #[trigger] data@[l],
                            ),
                    decreases ka - j,
                {
                    proof {
                        lemma_block(blk as int, j as int, ka as int, reps as int);
                        lemma_small_mod((base + j) as nat, n as nat);
                    }
                    data.push(f(self.data[j], other.data[base + j]));
                    j = j + 1;
                }
                proof {
                    assert(blk * ka + ka == (blk + 1) * ka) by (nonlinear_arith);
                }
                blk = blk + 1;
            }
        } else {
            // Both periods below `n`.
            let mut i: usize = 0;
            while i < n
                invariant
                    i <= n,
                    n > 0 ==> ka > 0 && kb > 0,
                    self.data@.len() == ka,
                    other.data@.len() == kb,
                    data@.len() == i,
                    forall|x: T, y: T| #[trigger] f.requires((x, y)),
                    forall|l: int|
                        0 <= l < i ==> f.ensures(
                            (self.data@[l % (ka as int)], other.data@[l % (kb as int)]),
                            #[trigger] data@[l],
                        ),
                decreases n - i,
            {
                proof {
                    lemma_mod_bound(i as int, ka as int);
                    lemma_mod_bound(i as int, kb as int);
                }
                data.push(f(self.data[i % ka], other.data[i % kb]));
                i = i + 1;
            }
        }
        data
    }

    /// Each row of the `[r, c]` matrix `m` combined with one element of the
    /// column `col`; `col_first` puts the column element first.
    fn zip_rows<F: Fn(T, T) -> T>(m: &[T], col: &[T], r: usize, c: usize, f: F, col_first: bool) -> (data: Vec<T>)
        requires
            m@.len() == r * c,
            col@.len() == r,
            r * c <= usize::MAX,
            forall|x: T, y: T| #[trigger] f.requires((x, y)),
        ensures
            data@.len() == r * c,
            forall|l: int|
                0 <= l < r * c ==> if col_first {
                    f.ensures((col@[l / (c as int)], m@[l]), #[trigger] data@[l])
                } else {
                    f.ensures((m@[l], col@[l / (c as int)]), data@[l])
                },
    {
        let mut data: Vec<T> = Vec::new();
        let mut i: usize = 0;
        while i < r
            invariant
                i <= r,
                m@.len() == r * c,
                col@.len() == r,
                r * c <= usize::MAX,
                data@.len() == i * c,
                forall|x: T, y: T| #[trigger] f.requires((x, y)),
                forall|l: int|
                    0 <= l < data@.len() ==> if col_first {
                        f.ensures((col@[l / (c as int)], m@[l]), #[trigger] data@[l])
                    } else {
                        f.ensures((m@[l], col@[l / (c as int)]), data@[l])
                    },
            decreases r - i,
        {
            proof {
                lemma_mul_inequality(i as int, r as int, c as int);
            }
            let base = i * c;
            let s = col[i];
            let mut j: usize = 0;
            while j < c
                invariant
                    j <= c,
                    i < r,
                    base == i * c,
                    s == col@[i as int],
                    r * c <= usize::MAX,
                    m@.len() == r * c,
                    col@.len() == r,
                    data@.len() == base + j,
                    forall|x: T, y: T| #[trigger] f.requires((x, y)),
                    forall|l: int|
                        0 <= l < data@.len() ==> if col_first {
                            f.ensures((col@[l / (c as int)], m@[l]), #[trigger] data@[l])
                        } else {
                            f.ensures((m@[l], col@[l / (c as int)]), data@[l])
                        },
                decreases c - j,
            {
                proof {
                    lemma_block(i as int, j as int, c as int, r as int);
                }
                let a = m[base + j];
                if col_first {
                    data.push(f(s, a));
                } else {
                    data.push(f(a, s));
                }
                j = j + 1;
            }
            proof {
                assert(i * c + c == (i + 1) * c) by (nonlinear_arith);
            }
            i = i + 1;
        }
        data
    }

    /// General path of [`Tensor::zip`]: walks the output multi-index and
    /// reads each operand through its broadcast strides.
    #[verifier::spinoff_prover]
    fn zip_strided<F: Fn(T, T) -> T>(&self, other: &Tensor<T>, f: F, shape: &[usize], n: usize) -> (data: Vec<T>)
        requires
            broadcasts_to(self.shape@, shape@),
            broadcasts_to(other.shape@, shape@),
            shape_fits(self.shape@),
            shape_fits(other.shape@),
            self.data@.len() == shape_size(self.shape@),
            other.data@.len() == shape_size(other.shape@),
            n == shape_size(shape@),
            forall|x: T, y: T| #[trigger] f.requires((x, y)),
        ensures
            data@.len() == n,
            forall|l: int|
                0 <= l < n ==> f.ensures(
                    (
                        self.data@[source_index(l, self.shape@, shape@)],
                        other.data@[source_index(l, other.shape@, shape@)],
                    ),
                    #[trigger] data@[l],
                ),
    {
        let ghost sa = self.shape@;
        let ghost sb = other.shape@;
        let ghost s = shape@;
        let st_a = broadcast_strides(self.shape.as_slice(), shape);
        let st_b = broadcast_strides(other.shape.as_slice(), shape);
        let mut idx: Vec<usize> = Vec::new();
        let mut t: usize = 0;
        while t < shape.len()
            invariant
                t <= s.len(),
                s == shape@,
                idx@.len() == t,
                forall|j: int| 0 <= j < t ==> #[trigger] idx@[j] == 0,
            decreases s.len() - t,
        {
            idx.push(0);
            t = t + 1;
        }
        proof {
            if n > 0 {
                let u = coords(idx@);
                lemma_extents_positive(s);
                assert forall|j: int| 0 <= j < s.len() implies 0 <= #[trigger] u[j] < s[j] by {
                    assert(idx@[j] == 0);
                }
                lemma_ravel_zeros(u, s, 0);
            }
        }
        let mut data: Vec<T> = Vec::new();
        let mut l: usize = 0;
        while l < n
            invariant
                l <= n,
                n == shape_size(s),
                s == shape@,
                sa == self.shape@,
                sb == other.shape@,
                broadcasts_to(sa, s),
                broadcasts_to(sb, s),
                shape_fits(sa),
                shape_fits(sb),
                self.data@.len() == shape_size(sa),
                other.data@.len() == shape_size(sb),
                is_broadcast_strides(st_a@, sa, s),
                is_broadcast_strides(st_b@, sb, s),
                idx@.len() == s.len(),
                l < n ==> valid_index(coords(idx@), s) && ravel(coords(idx@), s) == l,
                data@.len() == l,
                forall|x: T, y: T| #[trigger] f.requires((x, y)),
                forall|m: int|
                    0 <= m < l ==> f.ensures(
                        (self.data@[source_index(m, sa, s)], other.data@[source_index(m, sb, s)]),
                        #[trigger] data@[m],
                    ),
            decreases n - l,
        {
            proof {
                lemma_unravel_ravel(coords(idx@), s);
                lemma_strides_compute_source(l as int, sa, s, st_a@);
                lemma_strides_compute_source(l as int, sb, s, st_b@);
                assert(range_size(sa, 0, sa.len() as int) <= usize::MAX);
                assert(range_size(sb, 0, sb.len() as int) <= usize::MAX);
            }
            let ia = dot(idx.as_slice(), st_a.as_slice());
            let ib = dot(idx.as_slice(), st_b.as_slice());
            data.push(f(self.data[ia], other.data[ib]));
            bump(idx.as_mut_slice(), shape);
            proof {
                if l + 1 < n {
                    lemma_small_mod((l + 1) as nat, n as nat);
                }
            }
            l = l + 1;
        }
        data
    }

    /// Combines two tensors element by element under broadcasting:
    /// `C[l] = f(A[σ_A(l)], B[σ_B(l)])`, with `σ` the broadcast index map.
    ///
    /// Operands that repeat their buffer as contiguous blocks, and a column
    /// against a matrix, take fast paths; every other pair of shapes walks
    /// the output multi-index with stride arithmetic.
    pub fn zip<F: Fn(T, T) -> T>(&self, other: &Tensor<T>, f: F) -> (out: Tensor<T>)
        requires
            self.wf(),
            other.wf(),
            broadcast_compatible(self.shape_view(), other.shape_view()),
            shape_fits(broadcast_spec(self.shape_view(), other.shape_view())),
            forall|x: T, y: T| #[trigger] f.requires((x, y)),
        ensures
            out.wf(),
            out.shape_view() == broadcast_spec(self.shape_view(), other.shape_view()),
            zipped(
                f,
                self.data_view(),
                self.shape_view(),
                other.data_view(),
                other.shape_view(),
                out.shape_view(),
                out.data_view(),
            ),
    {
        let shape = broadcast_shapes(self.shape.as_slice(), other.shape.as_slice());
        let ghost sa = self.shape@;
        let ghost sb = other.shape@;
        let ghost s = shape@;
        proof {
            lemma_broadcast_operands(sa, sb);
        }
        let n = shape_len(shape.as_slice());
        let pa = tiled_period(self.shape.as_slice(), shape.as_slice());
        let pb = tiled_period(other.shape.as_slice(), shape.as_slice());
        if let Some(ka) = pa {
            if let Some(kb) = pb {
                let data = self.zip_tiled(other, f, n, ka, kb);
                proof {
                    assert forall|l: int| 0 <= l < n implies f.ensures(
                        (self.data@[source_index(l, sa, s)], other.data@[source_index(l, sb, s)]),
                        #[trigger] data@[l],
                    ) by {
                        assert(source_index(l, sa, s) == l % (ka as int));
                        assert(source_index(l, sb, s) == l % (kb as int));
                    }
                }
                return Tensor { shape, data };
            }
        }
        if shape.len() == 2 {
            let r = shape[0];
            let c = shape[1];
            proof {
                lemma_shape2(s);
                assert(s =~= seq![r, c]);
            }
            if same_shape(self.shape.as_slice(), shape.as_slice()) && is_column(
                other.shape.as_slice(),
                r,
            ) {
                proof {
                    assert(sb =~= seq![r, 1usize]);
                    lemma_shape2(sb);
                }
                let data = Self::zip_rows(self.data.as_slice(), other.data.as_slice(), r, c, f, false);
                proof {
                    assert forall|l: int| 0 <= l < n implies f.ensures(
                        (self.data@[source_index(l, sa, s)], other.data@[source_index(l, sb, s)]),
                        #[trigger] data@[l],
                    ) by {
                        lemma_source_identity(l, s);
                        lemma_column_source(l, r, c);
                    }
                }
                return Tensor { shape, data };
            }
            if same_shape(other.shape.as_slice(), shape.as_slice()) && is_column(
                self.shape.as_slice(),
                r,
            ) {
                proof {
                    assert(sa =~= seq![r, 1usize]);
                    lemma_shape2(sa);
                }
                let data = Self::zip_rows(other.data.as_slice(), self.data.as_slice(), r, c, f, true);
                proof {
                    assert forall|l: int| 0 <= l < n implies f.ensures(
                        (self.data@[source_index(l, sa, s)], other.data@[source_index(l, sb, s)]),
                        #[trigger] data@[l],
                    ) by {
                        lemma_source_identity(l, s);
                        lemma_column_source(l, r, c);
                    }
                }
                return Tensor { shape, data };
            }
        }
        let data = self.zip_strided(other, f, shape.as_slice(), n);
        Tensor { shape, data }
    }

    /// Pointwise application: `Y[i] = f(X[i])`.
    pub fn map<F: Fn(T) -> T>(&self, f: F) -> (out: Tensor<T>)
        requires
            forall|x: T| #[trigger] f.requires((x,)),
        ensures
            self.wf() ==> out.wf(),
            out.shape_view() == self.shape_view(),
            out.data_view().len() == self.data_view().len(),
            forall|i: int|
                0 <= i < self.data_view().len() ==> f.ensures(
                    (self.data_view()[i],),
                    #[trigger] out.data_view()[i],
                ),
    {
        let mut data: Vec<T> = Vec::new();
        let mut i: usize = 0;
        while i < self.data.len()
            invariant
                i <= self.data@.len(),
                data@.len() == i,
                forall|x: T| #[trigger] f.requires((x,)),
                forall|j: int| 0 <= j < i ==> f.ensures((self.data@[j],), #[trigger] data@[j]),
            decreases self.data@.len() - i,
        {
            data.push(f(self.data[i]));
            i = i + 1;
        }
        Tensor { shape: copy_slice(self.shape.as_slice()), data }
    }

    /// Transpose of a matrix: `A ∈ [r, c] ↦ Aᵀ ∈ [c, r]`, `Aᵀ[j, i] = A[i, j]`.
    ///
    /// Works on `32 × 32` tiles, so that each cache line loaded on either
    /// side is used by a whole tile row before it is evicted.
    #[verifier::spinoff_prover]
    pub fn t(&self) -> (out: Tensor<T>)
        requires
            self.wf(),
            self.shape_view().len() == 2,
        ensures
            out.wf(),
            out.shape_view() == seq![self.shape_view()[1], self.shape_view()[0]],
            out.data_view() == transposed(
                self.data_view(),
                self.shape_view()[0] as int,
                self.shape_view()[1] as int,
            ),
            forall|i: int, j: int|
                0 <= i < self.shape_view()[0] && 0 <= j < self.shape_view()[1] ==> #[trigger] out.data_view()[j
                    * self.shape_view()[0] + i] == self.data_view()[i * self.shape_view()[1] + j],
    {
        let r = self.shape[0];
        let c = self.shape[1];
        let ghost a = self.data@;
        proof {
            lemma_shape2(self.shape@);
            lemma_mul_is_commutative(r as int, c as int);
        }
        let n = self.data.len();
        let mut out = copy_slice(self.data.as_slice());
        let mut i0: usize = 0;
        while i0 < r
            invariant
                i0 <= r,
                n == r * c,
                a.len() == n,
                a == self.data@,
                out@.len() == n,
                forall|k: int|
                    0 <= k < n && k % (r as int) < i0 ==> #[trigger] out@[k] == a[(k % (r as int))
                        * c + k / (r as int)],
            decreases r - i0,
        {
            let i1 = if r - i0 > 32 {
                i0 + 32
            } else {
                r
            };
            let mut j0: usize = 0;
            while j0 < c
                invariant
                    i0 < i1 <= r,
                    j0 <= c,
                    n == r * c,
                    a.len() == n,
                    a == self.data@,
                    out@.len() == n,
                    forall|k: int|
                        0 <= k < n && (k % (r as int) < i0 || (k % (r as int) < i1 && k / (r as int)
                            < j0)) ==> #[trigger] out@[k] == a[(k % (r as int)) * c + k / (r as int)],
                decreases c - j0,
            {
                let j1 = if c - j0 > 32 {
                    j0 + 32
                } else {
                    c
                };
                let mut i: usize = i0;
                while i < i1
                    invariant
                        i0 <= i <= i1 <= r,
                        j0 < j1 <= c,
                        n == r * c,
                        a.len() == n,
                        a == self.data@,
                        out@.len() == n,
                        forall|k: int|
                            0 <= k < n && (k % (r as int) < i0 || (k % (r as int) < i1 && k / (
                            r as int) < j0) || (k % (r as int) < i && k / (r as int) < j1))
                                ==> #[trigger] out@[k] == a[(k % (r as int)) * c + k / (r as int)],
                    decreases i1 - i,
                {
                    let mut jj: usize = j0;
                    while jj < j1
                        invariant
                            i0 <= i < i1 <= r,
                            j0 <= jj <= j1 <= c,
                            n == r * c,
                            a.len() == n,
                            a == self.data@,
                            out@.len() == n,
                            forall|k: int|
                                0 <= k < n && (k % (r as int) < i0 || (k % (r as int) < i1 && k / (
                                r as int) < j0) || (k % (r as int) < i && k / (r as int) < j1) || (k
                                    % (r as int) == i && k / (r as int) < jj)) ==> #[trigger] out@[k]
                                    == a[(k % (r as int)) * c + k / (r as int)],
                        decreases j1 - jj,
                    {
                        proof {
                            lemma_block(jj as int, i as int, r as int, c as int);
                            lemma_block(i as int, jj as int, c as int, r as int);
                            lemma_mul_is_commutative(r as int, c as int);
                        }
                        let p = jj * r + i;
                        let v = self.data[i * c + jj];
                        let ghost before = out@;
                        out.set(p, v);
                        proof {
                            assert forall|k: int|
                                0 <= k < n && (k % (r as int) < i0 || (k % (r as int) < i1 && k / (
                                r as int) < j0) || (k % (r as int) < i && k / (r as int) < j1) || (k
                                    % (r as int) == i && k / (r as int) < jj + 1)) implies #[trigger] out@[k]
                                    == a[(k % (r as int)) * c + k / (r as int)] by {
                                if k == p {
                                    assert((p as int) % (r as int) == i);
                                    assert((p as int) / (r as int) == jj);
                                } else {
                                    lemma_fundamental_div_mod(k, r as int);
                                    lemma_mul_is_commutative(r as int, jj as int);
                                    assert(before[k] == out@[k]);
                                }
                            }
                        }
                        jj = jj + 1;
                    }
                    i = i + 1;
                }
                j0 = j1;
            }
            proof {
                assert forall|k: int| 0 <= k < n && k % (r as int) < i1 implies #[trigger] out@[k]
                    == a[(k % (r as int)) * c + k / (r as int)] by {
                    lemma_mul_is_commutative(r as int, c as int);
                    lemma_multiply_divide_lt(k, r as int, c as int);
                }
            }
            i0 = i1;
        }
        proof {
            assert forall|k: int| 0 <= k < n implies #[trigger] out@[k] == transposed(
                a,
                r as int,
                c as int,
            )[k] by {
                lemma_mod_bound(k, r as int);
            }
            assert(out@ =~= transposed(a, r as int, c as int));
            lemma_fits2(seq![c, r]);
            lemma_shape2(seq![c, r]);
        }
        let mut shape: Vec<usize> = Vec::new();
        shape.push(c);
        shape.push(r);
        proof {
            assert(shape@ =~= seq![c, r]);
            lemma_transposta_entradas(a, r as int, c as int);
        }
        Tensor { shape, data: out }
    }

    /// Rows `start..end` of a matrix: `X[start:end, :]`, a contiguous slice
    /// of the row-major buffer.
    pub fn rows(&self, start: usize, end: usize) -> (out: Tensor<T>)
        requires
            self.wf(),
            self.shape_view().len() == 2,
            start <= end <= self.shape_view()[0],
        ensures
            out.wf(),
            out.shape_view() == seq![(end - start) as usize, self.shape_view()[1]],
            out.data_view() == self.data_view().subrange(
                start * self.shape_view()[1],
                end * self.shape_view()[1],
            ),
    {
        let r = self.shape[0];
        let c = self.shape[1];
        proof {
            lemma_shape2(self.shape@);
            lemma_mul_inequality(end as int, r as int, c as int);
            lemma_mul_inequality(start as int, end as int, c as int);
            lemma_mul_inequality((end - start) as int, r as int, c as int);
            assert((end - start) * c == end * c - start * c) by (nonlinear_arith);
        }
        let lo = start * c;
        let hi = end * c;
        let mut data: Vec<T> = Vec::new();
        let mut p: usize = lo;
        while p < hi
            invariant
                lo <= p <= hi <= self.data@.len(),
                data@ == self.data@.subrange(lo as int, p as int),
            decreases hi - p,
        {
            data.push(self.data[p]);
            p = p + 1;
            assert(data@ =~= self.data@.subrange(lo as int, p as int));
        }
        let mut shape: Vec<usize> = Vec::new();
        shape.push(end - start);
        shape.push(c);
        proof {
            assert(shape@ =~= seq![(end - start) as usize, c]);
            lemma_fits2(shape@);
            lemma_shape2(shape@);
        }
        Tensor { shape, data }
    }

    /// Rows picked in the order `order`: row `t` of the result is row
    /// `order[t]` of the matrix. Used to shuffle a dataset.
    pub fn take_rows(&self, order: &[usize]) -> (out: Tensor<T>)
        requires
            self.wf(),
            self.shape_view().len() == 2,
            self.shape_view()[1] == 0 || forall|t: int|
                0 <= t < order@.len() ==> #[trigger] order@[t] < self.shape_view()[0],
            order@.len() * self.shape_view()[1] <= usize::MAX,
        ensures
            out.wf(),
            out.shape_view() == seq![order@.len() as usize, self.shape_view()[1]],
            forall|t: int, j: int|
                0 <= t < order@.len() && 0 <= j < self.shape_view()[1] ==> #[trigger] at2(
                    out.data_view(),
                    self.shape_view()[1] as int,
                    t,
                    j,
                ) == at2(self.data_view(), self.shape_view()[1] as int, order@[t] as int, j),
    {
        let r = self.shape[0];
        let c = self.shape[1];
        let m = order.len();
        proof {
            lemma_shape2(self.shape@);
            assert(range_size(self.shape@, 0, 2) <= usize::MAX);
        }
        let mut data: Vec<T> = Vec::new();
        let mut t: usize = 0;
        while t < m
            invariant
                t <= m,
                m == order@.len(),
                m * c <= usize::MAX,
                r == self.shape@[0],
                c == self.shape@[1],
                self.data@.len() == r * c,
                r * c <= usize::MAX,
                c == 0 || forall|q: int| 0 <= q < m ==> #[trigger] order@[q] < r,
                data@.len() == t * c,
                forall|q: int, j: int|
                    0 <= q < t && 0 <= j < c ==> #[trigger] at2(data@, c as int, q, j) == at2(
                        self.data@,
                        c as int,
                        order@[q] as int,
                        j,
                    ),
            decreases m - t,
        {
            let src = order[t];
            let mut j: usize = 0;
            while j < c
                invariant
                    t < m,
                    j <= c,
                    m == order@.len(),
                    m * c <= usize::MAX,
                    src == order@[t as int],
                    c == self.shape@[1],
                    self.data@.len() == r * c,
                    r * c <= usize::MAX,
                    c > 0 ==> src < r,
                    data@.len() == t * c + j,
                    forall|q: int, jj: int|
                        (0 <= q < t && 0 <= jj < c) || (q == t && 0 <= jj < j)
                            ==> #[trigger] at2(data@, c as int, q, jj) == at2(
                            self.data@,
                            c as int,
                            order@[q] as int,
                            jj,
                        ),
                decreases c - j,
            {
                proof {
                    lemma_block(src as int, j as int, c as int, r as int);
                    lemma_block(t as int, j as int, c as int, m as int);
                }
                let ghost before = data@;
                data.push(self.data[src * c + j]);
                proof {
                    assert forall|q: int, jj: int|
                        (0 <= q < t && 0 <= jj < c) || (q == t && 0 <= jj < j + 1)
                            implies #[trigger] at2(data@, c as int, q, jj) == at2(
                            self.data@,
                            c as int,
                            order@[q] as int,
                            jj,
                        ) by {
                        if q < t {
                            lemma_block(q, jj, c as int, t as int);
                            assert(at2(before, c as int, q, jj) == at2(
                                self.data@,
                                c as int,
                                order@[q] as int,
                                jj,
                            ));
                        } else if jj < j {
                            lemma_block(q, jj, c as int, m as int);
                            assert(at2(before, c as int, q, jj) == at2(
                                self.data@,
                                c as int,
                                order@[q] as int,
                                jj,
                            ));
                        }
                    }
                }
                j = j + 1;
            }
            proof {
                assert(t * c + c == (t + 1) * c) by (nonlinear_arith);
            }
            t = t + 1;
        }
        let mut shape: Vec<usize> = Vec::new();
        shape.push(m);
        shape.push(c);
        proof {
            assert(shape@ =~= seq![m, c]);
            lemma_fits2(shape@);
            lemma_shape2(shape@);
        }
        Tensor { shape, data }
    }

    /// Matrix product `C = AB` of `A ∈ [m, k]` and `B ∈ [k, n]`:
    /// `C[i, j] = Σ_p A[i, p] · B[p, j]`, accumulated from `zero` for
    /// `p = 0, 1, …` through `mul_add(c, a, b) = c + a·b`, skipping the factors
    /// `A[i, p]` that `is_zero` accepts.
    ///
    /// The loops run in the order `i`, `p`, `j` (one `axpy` per element of
    /// `A`), so that both `B[p, :]` and `C[i, :]` are read contiguously. When
    /// `B` is large, the columns are taken in panels of 256 and the depth in
    /// blocks of 128, so that the active panel stays in cache for all rows;
    /// the terms of each entry are still added in increasing `p`.
    pub fn matmul<Z: Fn(T) -> bool, M: Fn(T, T, T) -> T>(
        &self,
        other: &Tensor<T>,
        zero: T,
        is_zero: Z,
        mul_add: M,
    ) -> (out: Tensor<T>)
        requires
            self.wf(),
            other.wf(),
            self.shape_view().len() == 2,
            other.shape_view().len() == 2,
            self.shape_view()[1] == other.shape_view()[0],
            self.shape_view()[0] * other.shape_view()[1] <= usize::MAX,
            total_test(is_zero),
            total_mul_add(mul_add),
        ensures
            out.wf(),
            out.shape_view() == seq![self.shape_view()[0], other.shape_view()[1]],
            forall|i: int, j: int|
                0 <= i < self.shape_view()[0] && 0 <= j < other.shape_view()[1] ==> #[trigger] at2(
                    out.data_view(),
                    other.shape_view()[1] as int,
                    i,
                    j,
                ) == mm_acc(
                    is_zero,
                    mul_add,
                    zero,
                    self.data_view(),
                    other.data_view(),
                    self.shape_view()[1] as int,
                    other.shape_view()[1] as int,
                    i,
                    j,
                    self.shape_view()[1] as int,
                ),
    {
        let m = self.shape[0];
        let k = self.shape[1];
        let n = other.shape[1];
        let ghost (ka, na) = (k as int, n as int);
        let ghost (ad, bd) = (self.data@, other.data@);
        proof {
            lemma_shape2(self.shape@);
            lemma_shape2(other.shape@);
            assert(range_size(self.shape@, 0, 2) <= usize::MAX);
            assert(range_size(other.shape@, 0, 2) <= usize::MAX);
        }
        let mut out: Vec<T> = Vec::new();
        let mut t: usize = 0;
        while t < m * n
            invariant
                t <= m * n,
                m * n <= usize::MAX,
                out@.len() == t,
                forall|q: int| 0 <= q < t ==> #[trigger] out@[q] == zero,
            decreases m * n - t,
        {
            out.push(zero);
            t = t + 1;
        }
        let mut shape: Vec<usize> = Vec::new();
        shape.push(m);
        shape.push(n);
        proof {
            assert(shape@ =~= seq![m, n]);
            lemma_fits2(shape@);
            lemma_shape2(shape@);
        }
        if m == 0 || n == 0 || k == 0 {
            proof {
                assert forall|i: int, j: int| 0 <= i < m && 0 <= j < n implies #[trigger] at2(
                    out@,
                    na,
                    i,
                    j,
                ) == mm_acc(is_zero, mul_add, zero, ad, bd, ka, na, i, j, ka) by {
                    lemma_block(i, j, na, m as int);
                }
            }
            return Tensor { shape, data: out };
        }
        if k * n <= 32768 {
            // Small `B`: a single sweep, with no blocking overhead.
            mm_panel(
                &mut out,
                self.data.as_slice(),
                other.data.as_slice(),
                m,
                n,
                k,
                0,
                n,
                0,
                k,
                &is_zero,
                &mul_add,
                Ghost(zero),
            );
        } else {
            let mut j0: usize = 0;
            while j0 < n
                invariant
                    j0 <= n,
                    n > 0,
                    ka == k,
                    na == n,
                    ad == self.data@,
                    bd == other.data@,
                    out@.len() == m * n,
                    ad.len() == m * k,
                    bd.len() == k * n,
                    m * n <= usize::MAX,
                    m * k <= usize::MAX,
                    k * n <= usize::MAX,
                    total_test(is_zero),
                    total_mul_add(mul_add),
                    forall|q: int|
                        0 <= q < out@.len() ==> #[trigger] out@[q] == mm_acc(
                            is_zero,
                            mul_add,
                            zero,
                            ad,
                            bd,
                            ka,
                            na,
                            q / na,
                            q % na,
                            if q % na < j0 {
                                ka
                            } else {
                                0
                            },
                        ),
                decreases n - j0,
            {
                let j1 = if n - j0 > 256 {
                    j0 + 256
                } else {
                    n
                };
                let mut p0: usize = 0;
                while p0 < k
                    invariant
                        j0 < j1 <= n,
                        p0 <= k,
                        ka == k,
                        na == n,
                        ad == self.data@,
                        bd == other.data@,
                        out@.len() == m * n,
                        ad.len() == m * k,
                        bd.len() == k * n,
                        m * n <= usize::MAX,
                        m * k <= usize::MAX,
                        k * n <= usize::MAX,
                        total_test(is_zero),
                        total_mul_add(mul_add),
                        forall|q: int|
                            0 <= q < out@.len() ==> #[trigger] out@[q] == mm_acc(
                                is_zero,
                                mul_add,
                                zero,
                                ad,
                                bd,
                                ka,
                                na,
                                q / na,
                                q % na,
                                if q % na < j0 {
                                    ka
                                } else if q % na < j1 {
                                    p0 as int
                                } else {
                                    0
                                },
                            ),
                    decreases k - p0,
                {
                    let p1 = if k - p0 > 128 {
                        p0 + 128
                    } else {
                        k
                    };
                    let ghost before = out@;
                    mm_panel(
                        &mut out,
                        self.data.as_slice(),
                        other.data.as_slice(),
                        m,
                        n,
                        k,
                        j0,
                        j1,
                        p0,
                        p1,
                        &is_zero,
                        &mul_add,
                        Ghost(zero),
                    );
                    proof {
                        assert forall|q: int| 0 <= q < out@.len() implies #[trigger] out@[q] == mm_acc(
                            is_zero,
                            mul_add,
                            zero,
                            ad,
                            bd,
                            ka,
                            na,
                            q / na,
                            q % na,
                            if q % na < j0 {
                                ka
                            } else if q % na < j1 {
                                p1 as int
                            } else {
                                0
                            },
                        ) by {
                            assert(before[q] == before[q]);
                        }
                    }
                    p0 = p1;
                }
                j0 = j1;
            }
        }
        proof {
            assert forall|i: int, j: int| 0 <= i < m && 0 <= j < n implies #[trigger] at2(
                out@,
                na,
                i,
                j,
            ) == mm_acc(is_zero, mul_add, zero, ad, bd, ka, na, i, j, ka) by {
                lemma_block(i, j, na, m as int);
                assert(out@[i * na + j] == out@[i * na + j]);
            }
        }
        Tensor { shape, data: out }
    }

    /// Sums the tensor back to the shape `target`, undoing a broadcast: each
    /// position of `target` gets, from `zero` and through `plus`, the elements
    /// that broadcasting `target` to this shape maps onto it.
    ///
    /// `[n, m] → [1, m]` sums the rows (the gradient of a bias row),
    /// `[n, m] → [n, 1]` sums each row, and a one-element target sums all.
    /// A target equal to the shape returns the tensor unchanged.
    #[verifier::spinoff_prover]
    pub fn reduce_to<F: Fn(T, T) -> T>(&self, target: &[usize], zero: T, plus: F) -> (out: Tensor<T>)
        requires
            self.wf(),
            broadcasts_to(target@, self.shape_view()),
            shape_fits(target@),
            !reduce_degenerate(target@, self.shape_view()),
            total_op(plus),
        ensures
            out.wf(),
            out.shape_view() == target@,
            target@ == self.shape_view() ==> out.data_view() == self.data_view(),
            target@ != self.shape_view() ==> forall|t: int|
                0 <= t < shape_size(target@) ==> #[trigger] out.data_view()[t] == reduce_acc(
                    plus,
                    zero,
                    self.data_view(),
                    target@,
                    self.shape_view(),
                    t,
                    self.data_view().len() as int,
                ),
    {
        let ghost sh = self.shape@;
        let ghost d = self.data@;
        let ghost tg = target@;
        if same_shape(self.shape.as_slice(), target) {
            return Tensor { shape: copy_slice(target), data: copy_slice(self.data.as_slice()) };
        }
        let n = shape_len(target);
        let len = self.data.len();
        if n == 1 {
            // Total reduction: every element lands on the single position.
            let mut acc = zero;
            let mut lin: usize = 0;
            while lin < len
                invariant
                    lin <= len,
                    len == d.len(),
                    d == self.data@,
                    d.len() == shape_size(sh),
                    sh == self.shape@,
                    tg == target@,
                    broadcasts_to(tg, sh),
                    shape_size(tg) == 1,
                    total_op(plus),
                    acc == reduce_acc(plus, zero, d, tg, sh, 0, lin as int),
                decreases len - lin,
            {
                proof {
                    lemma_source_valid(lin as int, tg, sh);
                    lemma_ravel_bound(crate::forma::source_coords(lin as int, tg, sh), tg, 0);
                }
                let v = plus(acc, self.data[lin]);
                proof {
                    lemma_op_value(plus, acc, d[lin as int], v);
                }
                acc = v;
                lin = lin + 1;
            }
            let mut data: Vec<T> = Vec::new();
            data.push(acc);
            return Tensor { shape: copy_slice(target), data };
        }
        let per = tiled_period(target, self.shape.as_slice());
        if let Some(k) = per {
            // Broadcast axes all on the left: one contiguous accumulator of
            // `k` elements swept once per block.
            let mut out: Vec<T> = Vec::new();
            let mut t: usize = 0;
            while t < k
                invariant
                    t <= k,
                    out@.len() == t,
                    forall|q: int| 0 <= q < t ==> #[trigger] out@[q] == zero,
                decreases k - t,
            {
                out.push(zero);
                t = t + 1;
            }
            let reps: usize = if k == 0 {
                0
            } else {
                len / k
            };
            proof {
                if k > 0 {
                    lemma_fundamental_div_mod(len as int, k as int);
                    lemma_mul_is_commutative(k as int, reps as int);
                }
            }
            let mut blk: usize = 0;
            while blk < reps
                invariant
                    blk <= reps,
                    reps * k == len,
                    k == n,
                    n == shape_size(tg),
                    len == d.len(),
                    d == self.data@,
                    sh == self.shape@,
                    tg == target@,
                    out@.len() == k,
                    total_op(plus),
                    forall|l: int|
                        0 <= l < len ==> #[trigger] source_index(l, tg, sh) == l % (k as int),
                    forall|q: int|
                        0 <= q < k ==> #[trigger] out@[q] == reduce_acc(
                            plus,
                            zero,
                            d,
                            tg,
                            sh,
                            q,
                            blk * k,
                        ),
                decreases reps - blk,
            {
                proof {
                    lemma_mul_inequality(blk as int, reps as int, k as int);
                }
                let base = blk * k;
                let mut j: usize = 0;
                while j < k
                    invariant
                        j <= k,
                        blk < reps,
                        reps * k == len,
                        base == blk * k,
                        len == d.len(),
                        d == self.data@,
                        out@.len() == k,
                        total_op(plus),
                        forall|l: int|
                            0 <= l < len ==> #[trigger] source_index(l, tg, sh) == l % (k as int),
                        forall|q: int|
                            0 <= q < k ==> #[trigger] out@[q] == reduce_acc(
                                plus,
                                zero,
                                d,
                                tg,
                                sh,
                                q,
                                base + j,
                            ),
                    decreases k - j,
                {
                    proof {
                        lemma_block(blk as int, j as int, k as int, reps as int);
                    }
                    let v = plus(out[j], self.data[base + j]);
                    let ghost before = out@;
                    proof {
                        lemma_op_value(plus, before[j as int], d[base + j], v);
                        assert(source_index(base + j, tg, sh) == j);
                    }
                    out.set(j, v);
                    proof {
                        assert forall|q: int| 0 <= q < k implies #[trigger] out@[q] == reduce_acc(
                            plus,
                            zero,
                            d,
                            tg,
                            sh,
                            q,
                            base + j + 1,
                        ) by {
                            if q != j {
                                assert(before[q] == out@[q]);
                            }
                        }
                    }
                    j = j + 1;
                }
                proof {
                    assert(blk * k + k == (blk + 1) * k) by (nonlinear_arith);
                }
                blk = blk + 1;
            }
            return Tensor { shape: copy_slice(target), data: out };
        }
        if self.shape.len() == 2 && is_column(target, self.shape[0]) {
            // Last axis broadcast in a matrix: the sum of each row.
            let r = self.shape[0];
            let c = self.shape[1];
            proof {
                lemma_shape2(sh);
                assert(sh =~= seq![r, c]);
                assert(tg =~= seq![r, 1usize]);
                lemma_shape2(tg);
            }
            let mut out: Vec<T> = Vec::new();
            let mut i: usize = 0;
            while i < r
                invariant
                    i <= r,
                    c > 0,
                    sh == seq![r, c],
                    tg == seq![r, 1usize],
                    shape_size(sh) == r * c,
                    len == r * c,
                    len == d.len(),
                    d == self.data@,
                    out@.len() == i,
                    total_op(plus),
                    forall|t: int|
                        0 <= t < r ==> #[trigger] reduce_acc(plus, zero, d, tg, sh, t, i * c) == if t
                            < i {
                            out@[t]
                        } else {
                            zero
                        },
                decreases r - i,
            {
                proof {
                    lemma_mul_inequality(i as int, r as int, c as int);
                }
                let base = i * c;
                let mut acc = zero;
                let mut j: usize = 0;
                while j < c
                    invariant
                        i < r,
                        j <= c,
                        base == i * c,
                        sh == seq![r, c],
                        tg == seq![r, 1usize],
                        shape_size(sh) == r * c,
                        len == r * c,
                        len == d.len(),
                        d == self.data@,
                        out@.len() == i,
                        total_op(plus),
                        forall|t: int|
                            0 <= t < r ==> #[trigger] reduce_acc(plus, zero, d, tg, sh, t, base + j)
                                == if t < i {
                                out@[t]
                            } else if t == i {
                                acc
                            } else {
                                zero
                            },
                    decreases c - j,
                {
                    proof {
                        lemma_block(i as int, j as int, c as int, r as int);
                        lemma_column_source(base + j, r, c);
                    }
                    let v = plus(acc, self.data[base + j]);
                    proof {
                        lemma_op_value(plus, acc, d[base + j], v);
                        assert forall|t: int| 0 <= t < r implies #[trigger] reduce_acc(
                            plus,
                            zero,
                            d,
                            tg,
                            sh,
                            t,
                            base + j + 1,
                        ) == if t < i {
                            out@[t]
                        } else if t == i {
                            v
                        } else {
                            zero
                        } by {
                            assert(reduce_acc(plus, zero, d, tg, sh, t, base + j) == if t < i {
                                out@[t]
                            } else if t == i {
                                acc
                            } else {
                                zero
                            });
                        }
                    }
                    acc = v;
                    let ghost jo = j;
                    j = j + 1;
                    proof {
                        assert forall|t: int| 0 <= t < r implies #[trigger] reduce_acc(
                            plus,
                            zero,
                            d,
                            tg,
                            sh,
                            t,
                            base + j,
                        ) == if t < i {
                            out@[t]
                        } else if t == i {
                            acc
                        } else {
                            zero
                        } by {
                            assert(base + j == base + jo + 1);
                            assert(reduce_acc(plus, zero, d, tg, sh, t, base + jo + 1) == if t < i {
                                out@[t]
                            } else if t == i {
                                acc
                            } else {
                                zero
                            });
                        }
                    }
                }
                out.push(acc);
                proof {
                    assert(i * c + c == (i + 1) * c) by (nonlinear_arith);
                    assert forall|t: int| 0 <= t < r implies #[trigger] reduce_acc(
                        plus,
                        zero,
                        d,
                        tg,
                        sh,
                        t,
                        (i + 1) * c,
                    ) == if t < i + 1 {
                        out@[t]
                    } else {
                        zero
                    } by {
                        assert(reduce_acc(plus, zero, d, tg, sh, t, base + c) == if t < i {
                            out@[t]
                        } else if t == i {
                            acc
                        } else {
                            zero
                        });
                    }
                }
                i = i + 1;
            }
            proof {
                assert forall|t: int| 0 <= t < r implies #[trigger] out@[t] == reduce_acc(
                    plus,
                    zero,
                    d,
                    tg,
                    sh,
                    t,
                    len as int,
                ) by {
                    assert(reduce_acc(plus, zero, d, tg, sh, t, r * c) == if t < r {
                        out@[t]
                    } else {
                        zero
                    });
                }
            }
            return Tensor { shape: copy_slice(target), data: out };
        }
        // General path: walk the multi-index of the source, plus each element
        // at the position that its strides give in the target.
        let data = self.reduce_strided(target, zero, plus, n);
        Tensor { shape: copy_slice(target), data }
    }

    /// General path of [`Tensor::reduce_to`].
    #[verifier::spinoff_prover]
    fn reduce_strided<F: Fn(T, T) -> T>(&self, target: &[usize], zero: T, plus: F, n: usize) -> (data: Vec<T>)
        requires
            self.wf(),
            broadcasts_to(target@, self.shape_view()),
            shape_fits(target@),
            n == shape_size(target@),
            total_op(plus),
        ensures
            data@.len() == n,
            forall|t: int|
                0 <= t < n ==> #[trigger] data@[t] == reduce_acc(
                    plus,
                    zero,
                    self.data_view(),
                    target@,
                    self.shape_view(),
                    t,
                    self.data_view().len() as int,
                ),
    {
        let ghost sh = self.shape@;
        let ghost d = self.data@;
        let ghost tg = target@;
        let len = self.data.len();
        let mut out: Vec<T> = Vec::new();
        let mut t: usize = 0;
        while t < n
            invariant
                t <= n,
                out@.len() == t,
                forall|q: int| 0 <= q < t ==> #[trigger] out@[q] == zero,
            decreases n - t,
        {
            out.push(zero);
            t = t + 1;
        }
        let st = broadcast_strides(target, self.shape.as_slice());
        let mut idx: Vec<usize> = Vec::new();
        let mut t2: usize = 0;
        while t2 < self.shape.len()
            invariant
                t2 <= sh.len(),
                sh == self.shape@,
                idx@.len() == t2,
                forall|j: int| 0 <= j < t2 ==> #[trigger] idx@[j] == 0,
            decreases sh.len() - t2,
        {
            idx.push(0);
            t2 = t2 + 1;
        }
        proof {
            if len > 0 {
                let u = coords(idx@);
                lemma_extents_positive(sh);
                assert forall|j: int| 0 <= j < sh.len() implies 0 <= #[trigger] u[j] < sh[j] by {
                    assert(idx@[j] == 0);
                }
                lemma_ravel_zeros(u, sh, 0);
            }
        }
        let mut lin: usize = 0;
        while lin < len
            invariant
                lin <= len,
                len == d.len(),
                d == self.data@,
                len == shape_size(sh),
                sh == self.shape@,
                tg == target@,
                broadcasts_to(tg, sh),
                shape_fits(tg),
                n == shape_size(tg),
                is_broadcast_strides(st@, tg, sh),
                idx@.len() == sh.len(),
                lin < len ==> valid_index(coords(idx@), sh) && ravel(coords(idx@), sh) == lin,
                out@.len() == n,
                total_op(plus),
                forall|q: int|
                    0 <= q < n ==> #[trigger] out@[q] == reduce_acc(plus, zero, d, tg, sh, q, lin as int),
            decreases len - lin,
        {
            proof {
                lemma_unravel_ravel(coords(idx@), sh);
                lemma_strides_compute_source(lin as int, tg, sh, st@);
                assert(range_size(tg, 0, tg.len() as int) <= usize::MAX);
            }
            let it = dot(idx.as_slice(), st.as_slice());
            let v = plus(out[it], self.data[lin]);
            let ghost before = out@;
            proof {
                lemma_op_value(plus, before[it as int], d[lin as int], v);
            }
            out.set(it, v);
            proof {
                assert forall|q: int| 0 <= q < n implies #[trigger] out@[q] == reduce_acc(
                    plus,
                    zero,
                    d,
                    tg,
                    sh,
                    q,
                    lin + 1,
                ) by {
                    if q != it {
                        assert(before[q] == out@[q]);
                    }
                }
            }
            bump(idx.as_mut_slice(), self.shape.as_slice());
            proof {
                if lin + 1 < len {
                    lemma_small_mod((lin + 1) as nat, len as nat);
                }
            }
            lin = lin + 1;
        }
        out
    }

    /// Index of the greatest value of each row, the first one on ties;
    /// `gt(x, y)` says whether `x` is greater than `y`. A matrix without
    /// columns has no rows to scan.
    pub fn argmax_rows<G: Fn(T, T) -> bool>(&self, gt: G) -> (out: Vec<usize>)
        requires
            self.wf(),
            self.shape_view().len() == 2,
            total_test2(gt),
        ensures
            out@.len() == if self.shape_view()[1] == 0 {
                0
            } else {
                self.shape_view()[0] as int
            },
            forall|i: int|
                0 <= i < out@.len() ==> #[trigger] out@[i] == first_best(
                    gt,
                    self.data_view().subrange(
                        i * self.shape_view()[1],
                        (i + 1) * self.shape_view()[1],
                    ),
                    self.shape_view()[1] as int,
                ),
            forall|i: int| 0 <= i < out@.len() ==> #[trigger] out@[i] < self.shape_view()[1],
            ordem_estrita(gt) ==> forall|i: int, j: int|
                0 <= i < out@.len() && 0 <= j < self.shape_view()[1] ==> !test2_of(
                    gt,
                    #[trigger] self.data_view()[i * self.shape_view()[1] + j],
                    self.data_view()[i * self.shape_view()[1] + out@[i]],
                ),
            ordem_estrita(gt) ==> forall|i: int, j: int|
                0 <= i < out@.len() && 0 <= j < out@[i] ==> test2_of(
                    gt,
                    self.data_view()[i * self.shape_view()[1] + out@[i]],
                    #[trigger] self.data_view()[i * self.shape_view()[1] + j],
                ),
    {
        let r = self.shape[0];
        let c = self.shape[1];
        let ghost d = self.data@;
        proof {
            lemma_shape2(self.shape@);
            assert(range_size(self.shape@, 0, 2) <= usize::MAX);
        }
        let mut out: Vec<usize> = Vec::new();
        if c == 0 {
            return out;
        }
        let mut i: usize = 0;
        while i < r
            invariant
                i <= r,
                c > 0,
                d == self.data@,
                d.len() == r * c,
                r * c <= usize::MAX,
                total_test2(gt),
                out@.len() == i,
                forall|q: int|
                    0 <= q < i ==> #[trigger] out@[q] == first_best(
                        gt,
                        d.subrange(q * c, (q + 1) * c),
                        c as int,
                    ),
                forall|q: int| 0 <= q < i ==> #[trigger] out@[q] < c,
                ordem_estrita(gt) ==> forall|q: int, j: int|
                    0 <= q < i && 0 <= j < c ==> !test2_of(
                        gt,
                        #[trigger] d[q * c + j],
                        d[q * c + out@[q]],
                    ),
                ordem_estrita(gt) ==> forall|q: int, j: int|
                    0 <= q < i && 0 <= j < out@[q] ==> test2_of(
                        gt,
                        d[q * c + out@[q]],
                        #[trigger] d[q * c + j],
                    ),
            decreases r - i,
        {
            proof {
                lemma_block(i as int, 0, c as int, r as int);
                lemma_mul_inequality(i as int + 1, r as int, c as int);
                assert((i + 1) * c == i * c + c) by (nonlinear_arith);
            }
            let base = i * c;
            let ghost row = d.subrange(base as int, base + c);
            let mut best: usize = 0;
            let mut bv = self.data[base];
            let mut j: usize = 1;
            while j < c
                invariant
                    1 <= j <= c,
                    base + c <= d.len(),
                    d.len() <= usize::MAX,
                    d == self.data@,
                    row == d.subrange(base as int, base + c),
                    total_test2(gt),
                    best < j,
                    bv == row[best as int],
                    best == first_best(gt, row, j as int),
                decreases c - j,
            {
                let v = self.data[base + j];
                let up = gt(v, bv);
                proof {
                    let cq = test2_of(gt, v, bv);
                    assert(gt.ensures((v, bv), cq));
                    assert(row[j as int] == v);
                }
                if up {
                    bv = v;
                    best = j;
                }
                j = j + 1;
            }
            proof {
                if ordem_estrita(gt) {
                    lemma_maior_da_linha(gt, row, c as int);
                    assert forall|j: int| 0 <= j < c implies #[trigger] row[j] == d[base + j] by {}
                }
            }
            out.push(best);
            proof {
                if ordem_estrita(gt) {
                    assert forall|q: int, j: int|
                        0 <= q < i + 1 && 0 <= j < c implies !test2_of(
                        gt,
                        #[trigger] d[q * c + j],
                        d[q * c + out@[q]],
                    ) by {
                        if q == i {
                            assert(row[j] == d[base + j]);
                            assert(row[best as int] == d[base + best]);
                            assert(!test2_of(gt, row[j], row[best as int]));
                        }
                    }
                    assert forall|q: int, j: int|
                        0 <= q < i + 1 && 0 <= j < out@[q] implies test2_of(
                        gt,
                        d[q * c + out@[q]],
                        #[trigger] d[q * c + j],
                    ) by {
                        if q == i {
                            assert(row[j] == d[base + j]);
                            assert(row[best as int] == d[base + best]);
                            assert(test2_of(gt, row[best as int], row[j]));
                        }
                    }
                }
            }
            i = i + 1;
        }
        out
    }

    /// The same elements under another shape with as many positions.
    pub fn reshape(&self, shape: &[usize]) -> (t: Tensor<T>)
        requires
            prefixo_cabe(shape@),
            shape_size(shape@) == self.data_view().len(),
        ensures
            shape_fits(shape@) ==> t.wf(),
            t.shape_view() == shape@,
            t.data_view() == self.data_view(),
    {
        Tensor::new(shape, copy_slice(self.data.as_slice()))
    }
}

} // verus!
