//! Index arithmetic of gates over several qubits.
//!
//! A gate on the qubits `alvos` is a `2ᵏ × 2ᵏ` matrix whose basis is ordered
//! by `Σ bᵢ·2ⁱ`, `bᵢ` being the bit of qubit `alvos[i]`. Two gates on
//! different sets are composed on the union of their sets; each is first
//! expanded over the larger set, which is its Kronecker product with the
//! identity, computed index by index. The complex entries are the caller's:
//! this module says which entry of the unexpanded matrix lands where.

use vstd::arithmetic::div_mod::*;
use vstd::arithmetic::mul::*;
use vstd::arithmetic::power2::*;
use vstd::bits::*;
use crate::qubit::{lemma_base_props, lemma_de_props, par_base, par_de};
use vstd::prelude::*;

verus! {

// ------------------------------------------------------------ target sets

/// `novos` begins with `a` and then holds the qubits of `b` that were not
/// there yet, each once, in the order they come in `b`.
pub open spec fn uniao(a: Seq<usize>, b: Seq<usize>) -> Seq<usize>
    decreases b.len(),
{
    if b.len() == 0 {
        a
    } else {
        let u = uniao(a, b.drop_last());
        if u.contains(b.last()) {
            u
        } else {
            u.push(b.last())
        }
    }
}

proof fn lemma_uniao(a: Seq<usize>, b: Seq<usize>)
    ensures
        uniao(a, b).len() >= a.len(),
        uniao(a, b).subrange(0, a.len() as int) == a,
        forall|x: usize| uniao(a, b).contains(x) <==> a.contains(x) || b.contains(x),
        a.no_duplicates() ==> uniao(a, b).no_duplicates(),
    decreases b.len(),
{
    if b.len() > 0 {
        let c = b.drop_last();
        lemma_uniao(a, c);
        let u = uniao(a, c);
        assert(u.push(b.last()).subrange(0, a.len() as int) == u.subrange(0, a.len() as int));
        let v = b.last();
        assert forall|x: usize| b.contains(x) <==> c.contains(x) || x == v by {
            if b.contains(x) {
                let j = choose|j: int| 0 <= j < b.len() && b[j] == x;
                if j < c.len() {
                    assert(c[j] == x);
                }
            }
            if c.contains(x) {
                let j = choose|j: int| 0 <= j < c.len() && c[j] == x;
                assert(b[j] == x);
            }
            if x == v {
                assert(b[b.len() - 1] == x);
            }
        }
        if !u.contains(v) {
            let w = u.push(v);
            assert forall|x: usize| w.contains(x) <==> u.contains(x) || x == v by {
                if w.contains(x) {
                    let j = choose|j: int| 0 <= j < w.len() && w[j] == x;
                    if j < u.len() {
                        assert(u[j] == x);
                    }
                }
                if u.contains(x) {
                    let j = choose|j: int| 0 <= j < u.len() && u[j] == x;
                    assert(w[j] == x);
                }
                if x == v {
                    assert(w[u.len() as int] == x);
                }
            }
        }
    }
}

/// The union of two target lists: `a`, then the qubits of `b` not yet
/// present, in order.
pub fn uniao_alvos(a: &[usize], b: &[usize]) -> (u: Vec<usize>)
    ensures
        u@ == uniao(a@, b@),
        u@.subrange(0, a@.len() as int) == a@,
        forall|x: usize| u@.contains(x) <==> a@.contains(x) || b@.contains(x),
        a@.no_duplicates() ==> u@.no_duplicates(),
{
    let mut u: Vec<usize> = Vec::new();
    let mut i: usize = 0;
    while i < a.len()
        invariant
            i <= a@.len(),
            u@ == a@.subrange(0, i as int),
        decreases a@.len() - i,
    {
        u.push(a[i]);
        i = i + 1;
    }
    assert(a@.subrange(0, a@.len() as int) == a@);
    let mut j: usize = 0;
    while j < b.len()
        invariant
            j <= b@.len(),
            u@ == uniao(a@, b@.subrange(0, j as int)),
        decreases b@.len() - j,
    {
        let q = b[j];
        let mut tem = false;
        let mut t: usize = 0;
        while t < u.len()
            invariant
                t <= u@.len(),
                tem <==> exists|s: int| 0 <= s < t && u@[s] == q,
            decreases u@.len() - t,
        {
            if u[t] == q {
                tem = true;
            }
            t = t + 1;
        }
        let ghost c = b@.subrange(0, j as int + 1);
        assert(c.drop_last() == b@.subrange(0, j as int));
        assert(c.last() == q);
        if !tem {
            u.push(q);
        }
        j = j + 1;
    }
    assert(b@.subrange(0, b@.len() as int) == b@);
    proof {
        lemma_uniao(a@, b@);
    }
    u
}

/// Where each target sits in `novos`: for each `alvos[i]`, the position of
/// its first occurrence in `novos`; nothing when some target is missing.
pub fn posicoes_em(alvos: &[usize], novos: &[usize]) -> (r: Option<Vec<usize>>)
    ensures
        r is None <==> exists|i: int| 0 <= i < alvos@.len() && !novos@.contains(#[trigger] alvos@[i]),
        r matches Some(p) ==> {
            &&& p@.len() == alvos@.len()
            &&& forall|i: int|
                0 <= i < alvos@.len() ==> {
                    &&& #[trigger] p@[i] < novos@.len()
                    &&& novos@[p@[i] as int] == alvos@[i]
                    &&& forall|j: int| 0 <= j < p@[i] ==> novos@[j] != alvos@[i]
                }
        },
{
    let mut p: Vec<usize> = Vec::new();
    let mut i: usize = 0;
    while i < alvos.len()
        invariant
            i <= alvos@.len(),
            p@.len() == i,
            forall|s: int|
                0 <= s < i ==> {
                    &&& #[trigger] p@[s] < novos@.len()
                    &&& novos@[p@[s] as int] == alvos@[s]
                    &&& forall|j: int| 0 <= j < p@[s] ==> novos@[j] != alvos@[s]
                },
        decreases alvos@.len() - i,
    {
        let q = alvos[i];
        let mut t: usize = 0;
        while t < novos.len() && novos[t] != q
            invariant
                t <= novos@.len(),
                forall|j: int| 0 <= j < t ==> novos@[j] != q,
            decreases novos@.len() - t,
        {
            t = t + 1;
        }
        if t == novos.len() {
            proof {
                assert(!novos@.contains(alvos@[i as int]));
            }
            return None;
        }
        p.push(t);
        i = i + 1;
    }
    proof {
        assert forall|i: int| 0 <= i < alvos@.len() implies novos@.contains(#[trigger] alvos@[i]) by {
            assert(novos@[p@[i] as int] == alvos@[i]);
        }
    }
    Some(p)
}

// ------------------------------------------------------------ expansion

/// Bit `b` of `x`.
pub open spec fn bit(x: int, b: nat) -> int {
    (x / (pow2(b) as int)) % 2
}

/// The bits of `x` at the positions `pos`, packed: bit `pos[i]` of `x`
/// becomes bit `i`.
pub open spec fn compacta(x: int, pos: Seq<usize>) -> int
    decreases pos.len(),
{
    if pos.len() == 0 {
        0
    } else {
        compacta(x, pos.drop_last()) + bit(x, pos.last() as nat) * (pow2((pos.len() - 1) as nat) as int)
    }
}

/// Row `linha` and column `col` of a `k`-qubit matrix agree on every bit
/// outside `pos`.
pub open spec fn fora_iguais(linha: int, col: int, pos: Seq<usize>, k: nat) -> bool {
    forall|b: nat| b < k && !pos.contains(b as usize) ==> #[trigger] bit(linha, b) == bit(col, b)
}

/// Which entry of a `2^|pos| × 2^|pos|` matrix sits at row `linha` and
/// column `col` of its expansion over `k` qubits, the matrix's own qubits
/// being at `pos`: none when the two indices differ outside `pos` (a zero
/// there), else the bits of row and column at `pos`, compacted, as a flat
/// index in row order.
pub open spec fn fonte(pos: Seq<usize>, k: nat, linha: int, col: int) -> Option<int> {
    if fora_iguais(linha, col, pos, k) {
        Some(compacta(linha, pos) * (pow2(pos.len()) as int) + compacta(col, pos))
    } else {
        None
    }
}

proof fn lemma_bit(x: int, b: nat)
    ensures
        0 <= bit(x, b) <= 1,
{
    lemma_pow2_pos(b);
    lemma_mod_bound(x / (pow2(b) as int), 2);
}

proof fn lemma_compacta_limite(x: int, pos: Seq<usize>)
    ensures
        0 <= compacta(x, pos) < pow2(pos.len()),
    decreases pos.len(),
{
    if pos.len() == 0 {
        lemma2_to64();
    } else {
        lemma_compacta_limite(x, pos.drop_last());
        lemma_bit(x, pos.last() as nat);
        lemma_pow2_unfold(pos.len());
        lemma_pow2_pos((pos.len() - 1) as nat);
        let p = pow2((pos.len() - 1) as nat) as int;
        assert(bit(x, pos.last() as nat) * p <= p) by (nonlinear_arith)
            requires
                0 <= bit(x, pos.last() as nat) <= 1,
                p > 0,
        ;
        assert(0 <= bit(x, pos.last() as nat) * p) by (nonlinear_arith)
            requires
                0 <= bit(x, pos.last() as nat),
                p > 0,
        ;
    }
}

proof fn lemma_bit_e(y: usize)
    by (bit_vector)
    ensures
        y & 1 == y % 2,
{
}

proof fn lemma_ou_soma(li: usize, v: usize, i: usize)
    by (bit_vector)
    requires
        i < usize::BITS,
        v <= 1,
        li < (1usize << i),
    ensures
        li | (v << i) == li + (v << i),
{
}

/// An exponent whose power of two fits a `usize` is below its width, and so
/// is every smaller one.
proof fn lemma_cabe(i: nat, n: nat)
    requires
        i <= n,
        pow2(n) <= usize::MAX,
    ensures
        i < usize::BITS,
        pow2(i) <= usize::MAX,
{
    vstd::layout::unsigned_int_max_values();
    if i < n {
        lemma_pow2_strictly_increases(i, n);
    }
    if i >= usize::BITS {
        if i > usize::BITS {
            lemma_pow2_strictly_increases(usize::BITS as nat, i);
        }
    }
}

/// Bit `b` of `x`, as the shifts of the kernel compute it.
fn bit_de(x: usize, b: usize) -> (r: usize)
    requires
        b < usize::BITS,
    ensures
        r == bit(x as int, b as nat),
        r <= 1,
{
    proof {
        lemma_usize_shr_is_div(x, b);
        lemma_bit_e(x >> b);
    }
    (x >> b) & 1
}

/// The bits of `x` at `pos`, packed to the low end.
fn compactar(x: usize, pos: &[usize]) -> (r: usize)
    requires
        forall|i: int| 0 <= i < pos@.len() ==> #[trigger] pos@[i] < usize::BITS,
        pow2(pos@.len()) <= usize::MAX,
    ensures
        r == compacta(x as int, pos@),
{
    let mut r: usize = 0;
    let mut i: usize = 0;
    proof {
        lemma2_to64();
        assert(pos@.subrange(0, 0).len() == 0);
    }
    while i < pos.len()
        invariant
            i <= pos@.len(),
            forall|j: int| 0 <= j < pos@.len() ==> #[trigger] pos@[j] < usize::BITS,
            pow2(pos@.len()) <= usize::MAX,
            r == compacta(x as int, pos@.subrange(0, i as int)),
            r < pow2(i as nat),
        decreases pos@.len() - i,
    {
        let v = bit_de(x, pos[i]);
        proof {
            lemma_cabe(i as nat + 1, pos@.len());
            lemma_pow2_strictly_increases(i as nat, i as nat + 1);
            assert(v * pow2(i as nat) <= pow2(i as nat)) by (nonlinear_arith)
                requires
                    v <= 1,
            ;
            lemma_usize_shl_is_mul(1, i);
            lemma_ou_soma(r, v, i);
            lemma_usize_shl_is_mul(v, i);
            let s = pos@.subrange(0, i as int + 1);
            assert(s.drop_last() == pos@.subrange(0, i as int));
            assert(s.last() == pos@[i as int]);
            lemma_pow2_unfold(i as nat + 1);
        }
        r = r | (v << i);
        i = i + 1;
    }
    assert(pos@.subrange(0, pos@.len() as int) == pos@);
    r
}

/// Whether `linha` and `col` agree on every bit below `k` outside `pos`.
fn iguais_fora(linha: usize, col: usize, pos: &[usize], k: usize) -> (r: bool)
    requires
        k <= usize::BITS,
    ensures
        r == fora_iguais(linha as int, col as int, pos@, k as nat),
{
    let mut b: usize = 0;
    while b < k
        invariant
            b <= k,
            k <= usize::BITS,
            forall|c: nat|
                c < b && !pos@.contains(c as usize) ==> #[trigger] bit(linha as int, c) == bit(
                    col as int,
                    c,
                ),
        decreases k - b,
    {
        let mut tem = false;
        let mut t: usize = 0;
        while t < pos.len()
            invariant
                t <= pos@.len(),
                tem <==> exists|s: int| 0 <= s < t && pos@[s] == b,
            decreases pos@.len() - t,
        {
            if pos[t] == b {
                tem = true;
            }
            t = t + 1;
        }
        if !tem && bit_de(linha, b) != bit_de(col, b) {
            proof {
                assert(!pos@.contains(b));
                assert(bit(linha as int, b as nat) != bit(col as int, b as nat));
            }
            return false;
        }
        proof {
            assert forall|c: nat|
                c < b + 1 && !pos@.contains(c as usize) implies #[trigger] bit(linha as int, c) == bit(
                col as int,
                c,
            ) by {
                if c == b {
                    if tem {
                        let s = choose|s: int| 0 <= s < pos@.len() && pos@[s] == b;
                        assert(pos@.contains(c as usize));
                    }
                }
            }
        }
        b = b + 1;
    }
    true
}

/// An entry index of the unexpanded matrix, as a machine word.
pub open spec fn em_usize(o: Option<int>) -> Option<usize> {
    match o {
        Some(s) => Some(s as usize),
        None => None,
    }
}

/// Where each entry of a gate expanded over `k` qubits comes from, when its
/// own targets sit at the positions `pos` of the new set: entry `t` of the
/// `2ᵏ × 2ᵏ` result, in row order, is entry `fonte(..)` of the unexpanded
/// matrix, or zero when there is none. This is the Kronecker product with
/// the identity on the other qubits, index by index.
pub fn mapa_expansao(pos: &[usize], k: usize) -> (r: Vec<Option<usize>>)
    requires
        forall|i: int| 0 <= i < pos@.len() ==> #[trigger] pos@[i] < k,
        pow2(k as nat) * pow2(k as nat) <= usize::MAX,
        pow2(pos@.len()) * pow2(pos@.len()) <= usize::MAX,
    ensures
        r@.len() == pow2(k as nat) * pow2(k as nat),
        forall|t: int|
            0 <= t < r@.len() ==> #[trigger] r@[t] == em_usize(
                fonte(pos@, k as nat, t / (pow2(k as nat) as int), t % (pow2(k as nat) as int)),
            ),
        forall|t: int|
            0 <= t < r@.len() ==> (#[trigger] r@[t] matches Some(s) ==> s < pow2(pos@.len()) * pow2(
                pos@.len(),
            )),
{
    let ghost d = pow2(k as nat) as int;
    let ghost dl = pow2(pos@.len()) as int;
    proof {
        lemma_pow2_pos(k as nat);
        lemma_pow2_pos(pos@.len());
        assert(d <= d * d) by (nonlinear_arith)
            requires
                d >= 1,
        ;
        assert(dl <= dl * dl) by (nonlinear_arith)
            requires
                dl >= 1,
        ;
        lemma_cabe(k as nat, k as nat);
        lemma_cabe(pos@.len(), pos@.len());
        lemma_usize_shl_is_mul(1, k);
        lemma_usize_shl_is_mul(1, pos.len());
    }
    let dim: usize = 1usize << k;
    let dim_l: usize = 1usize << pos.len();
    let mut r: Vec<Option<usize>> = Vec::new();
    let mut linha: usize = 0;
    while linha < dim
        invariant
            dim == d,
            dim_l == dl,
            d >= 1,
            dl >= 1,
            d * d <= usize::MAX,
            dl * dl <= usize::MAX,
            k < usize::BITS,
            forall|i: int| 0 <= i < pos@.len() ==> #[trigger] pos@[i] < k,
            d == pow2(k as nat),
            dl == pow2(pos@.len()),
            linha <= dim,
            r@.len() == linha * dim,
            forall|t: int|
                0 <= t < r@.len() ==> #[trigger] r@[t] == em_usize(fonte(pos@, k as nat, t / d, t % d)),
            forall|t: int| 0 <= t < r@.len() ==> (#[trigger] r@[t] matches Some(s) ==> s < dl * dl),
        decreases dim - linha,
    {
        let mut col: usize = 0;
        while col < dim
            invariant
                dim == d,
                dim_l == dl,
                d >= 1,
                dl >= 1,
                d * d <= usize::MAX,
                dl * dl <= usize::MAX,
                k < usize::BITS,
                forall|i: int| 0 <= i < pos@.len() ==> #[trigger] pos@[i] < k,
                d == pow2(k as nat),
                dl == pow2(pos@.len()),
                linha < dim,
                col <= dim,
                r@.len() == linha * dim + col,
                forall|t: int|
                    0 <= t < r@.len() ==> #[trigger] r@[t] == em_usize(
                        fonte(pos@, k as nat, t / d, t % d),
                    ),
                forall|t: int| 0 <= t < r@.len() ==> (#[trigger] r@[t] matches Some(s) ==> s < dl * dl),
            decreases dim - col,
        {
            let ghost t = linha * dim + col;
            proof {
                assert(linha * dim + col < dim * dim) by (nonlinear_arith)
                    requires
                        linha < dim,
                        col < dim,
                ;
                lemma_fundamental_div_mod_converse(t, d, linha as int, col as int);
            }
            let iguais = iguais_fora(linha, col, pos, k);
            let e = if iguais {
                proof {
                    assert forall|i: int| 0 <= i < pos@.len() implies #[trigger] pos@[i]
                        < usize::BITS by {
                        assert(pos@[i] < k);
                    }
                }
                let li = compactar(linha, pos);
                let ci = compactar(col, pos);
                proof {
                    lemma_compacta_limite(linha as int, pos@);
                    lemma_compacta_limite(col as int, pos@);
                    assert(li * dl + ci < dl * dl) by (nonlinear_arith)
                        requires
                            li < dl,
                            ci < dl,
                    ;
                }
                Some(li * dim_l + ci)
            } else {
                None
            };
            r.push(e);
            proof {
                assert(r@[t] == em_usize(fonte(pos@, k as nat, t / d, t % d)));
            }
            col = col + 1;
        }
        proof {
            assert(linha * dim + dim == (linha + 1) * dim) by (nonlinear_arith);
        }
        linha = linha + 1;
    }
    r
}

/// The positions `0, 1, …, k − 1`.
pub open spec fn identidade(k: nat) -> Seq<usize> {
    Seq::new(k, |i: int| i as usize)
}

proof fn lemma_compacta_baixos(x: int, j: nat)
    requires
        x >= 0,
        j <= usize::MAX,
    ensures
        compacta(x, identidade(j)) == x % (pow2(j) as int),
    decreases j,
{
    lemma2_to64();
    if j > 0 {
        let s = identidade(j);
        assert(s.drop_last() == identidade((j - 1) as nat));
        lemma_compacta_baixos(x, (j - 1) as nat);
        lemma_pow2_unfold(j);
        lemma_pow2_pos((j - 1) as nat);
        lemma_mod_breakdown(x, pow2((j - 1) as nat) as int, 2);
        assert(s.last() as nat == (j - 1) as nat);
        assert(pow2((j - 1) as nat) * 2 == pow2(j));
        assert(bit(x, (j - 1) as nat) * (pow2((j - 1) as nat) as int) == (pow2((j - 1) as nat) as int)
            * bit(x, (j - 1) as nat)) by (nonlinear_arith);
    } else {
        assert(x % 1 == 0);
    }
}

/// Expanding a gate over its own targets changes nothing: when the targets
/// are the first `k` of a set of `k` qubits, in order, every entry comes
/// from the same row and column of the unexpanded matrix. And the union of a
/// gate's targets with any others starts with them, in order, so the first
/// occurrence of each is its own position.
pub proof fn lemma_expansao_propria(k: usize, linha: int, col: int, a: Seq<usize>, b: Seq<usize>)
    requires
        0 <= linha < pow2(k as nat),
        0 <= col < pow2(k as nat),
        a.no_duplicates(),
    ensures
        fonte(identidade(k as nat), k as nat, linha, col) == Some(linha * (pow2(k as nat) as int) + col),
        forall|i: int|
            0 <= i < a.len() ==> #[trigger] uniao(a, b)[i] == a[i] && forall|j: int|
                0 <= j < i ==> uniao(a, b)[j] != a[i],
{
    let pos = identidade(k as nat);
    assert forall|c: nat| c < k && !pos.contains(c as usize) implies #[trigger] bit(linha, c) == bit(
        col,
        c,
    ) by {
        assert(pos[c as int] == c as usize);
    }
    lemma_compacta_baixos(linha, k as nat);
    lemma_compacta_baixos(col, k as nat);
    lemma_small_mod(linha as nat, pow2(k as nat));
    lemma_small_mod(col as nat, pow2(k as nat));
    lemma_uniao(a, b);
    assert forall|i: int| 0 <= i < a.len() implies #[trigger] uniao(a, b)[i] == a[i] && forall|j: int|
        0 <= j < i ==> uniao(a, b)[j] != a[i] by {
        let u = uniao(a, b);
        assert(u.subrange(0, a.len() as int)[i] == a[i]);
        assert forall|j: int| 0 <= j < i implies u[j] != a[i] by {
            assert(u.subrange(0, a.len() as int)[j] == a[j]);
        }
    }
}

// ------------------------------------------------------------ groups

/// Targets of `s` below `p`.
pub open spec fn abaixo(s: Seq<usize>, p: int) -> int
    decreases s.len(),
{
    if s.len() == 0 {
        0
    } else {
        abaixo(s.drop_last(), p) + if s.last() < p {
            1int
        } else {
            0int
        }
    }
}

proof fn lemma_abaixo_passo(s: Seq<usize>, p: usize)
    requires
        s.no_duplicates(),
    ensures
        abaixo(s, p + 1) == abaixo(s, p as int) + if s.contains(p) {
            1int
        } else {
            0int
        },
        0 <= abaixo(s, p as int) <= s.len(),
    decreases s.len(),
{
    if s.len() > 0 {
        let t = s.drop_last();
        assert(t.no_duplicates()) by {
            assert forall|i: int, j: int| 0 <= i < t.len() && 0 <= j < t.len() && i != j implies t[i]
                != t[j] by {
                assert(t[i] == s[i] && t[j] == s[j]);
            }
        }
        lemma_abaixo_passo(t, p);
        if s.last() == p {
            if t.contains(p) {
                let i = choose|i: int| 0 <= i < t.len() && t[i] == p;
                assert(s[i] == s[s.len() - 1]);
            }
            assert(s.contains(p)) by {
                assert(s[s.len() - 1] == p);
            }
        } else {
            assert(s.contains(p) <==> t.contains(p)) by {
                if s.contains(p) {
                    let i = choose|i: int| 0 <= i < s.len() && s[i] == p;
                    if i < t.len() {
                        assert(t[i] == p);
                    }
                }
                if t.contains(p) {
                    let i = choose|i: int| 0 <= i < t.len() && t[i] == p;
                    assert(s[i] == p);
                }
            }
        }
    }
}

proof fn lemma_abaixo_todos(s: Seq<usize>, p: int)
    requires
        forall|i: int| 0 <= i < s.len() ==> #[trigger] s[i] < p,
    ensures
        abaixo(s, p) == s.len(),
    decreases s.len(),
{
    if s.len() > 0 {
        lemma_abaixo_todos(s.drop_last(), p);
        assert(s[s.len() - 1] < p);
    }
}

/// Distinct targets below `n` leave at least `p` positions of their own
/// below every `p`: at most `n − p` of them sit at `p` or above.
proof fn lemma_abaixo_cabe(s: Seq<usize>, p: usize, n: usize)
    requires
        s.no_duplicates(),
        forall|i: int| 0 <= i < s.len() ==> #[trigger] s[i] < n,
        p <= n,
    ensures
        s.len() - abaixo(s, p as int) <= n - p,
    decreases n - p,
{
    if p == n {
        lemma_abaixo_todos(s, n as int);
    } else {
        lemma_abaixo_cabe(s, (p + 1) as usize, n);
        lemma_abaixo_passo(s, p);
    }
}

/// Where `q` sits in `s`, when it does.
pub open spec fn posicao(s: Seq<usize>, q: usize) -> int {
    choose|b: int| 0 <= b < s.len() && s[b] == q
}

/// Amplitude index with the bit `v` inserted at position `q` of `x`.
pub open spec fn insere_bit(x: int, q: nat, v: int) -> int {
    par_base(x, q) + v * (pow2(q) as int)
}

/// Index in the state vector of amplitude `m` of group `g` of a gate on
/// `alvos`, with the positions below `p` placed: going up from bit zero,
/// each target position receives the bit of `m` that belongs to that
/// target, inserted there, and the bits of `g` move up past it.
pub open spec fn indice_grupo(g: int, alvos: Seq<usize>, m: int, p: nat) -> int
    decreases p,
{
    if p == 0 {
        g
    } else {
        let x = indice_grupo(g, alvos, m, (p - 1) as nat);
        if alvos.contains((p - 1) as usize) {
            insere_bit(x, (p - 1) as nat, bit(m, posicao(alvos, (p - 1) as usize) as nat))
        } else {
            x
        }
    }
}

/// Targets distinct and below `n`, and a state of `2ⁿ` amplitudes that a
/// machine word can index.
pub open spec fn alvos_validos(alvos: Seq<usize>, n: nat) -> bool {
    &&& alvos.no_duplicates()
    &&& forall|i: int| 0 <= i < alvos.len() ==> #[trigger] alvos[i] < n
    &&& alvos.len() <= n
    &&& pow2(n) <= usize::MAX
}

proof fn lemma_indice_limite(g: int, alvos: Seq<usize>, m: int, p: usize, n: usize)
    requires
        alvos_validos(alvos, n as nat),
        p <= n,
        0 <= g < pow2((n - alvos.len()) as nat),
    ensures
        0 <= indice_grupo(g, alvos, m, p as nat) < pow2((n - alvos.len() + abaixo(alvos, p as int)) as nat),
    decreases p,
{
    if p > 0 {
        let q = (p - 1) as usize;
        lemma_indice_limite(g, alvos, m, q, n);
        lemma_abaixo_passo(alvos, q);
        lemma_abaixo_cabe(alvos, q, n);
        assert(((p as nat) - 1) as usize == q);
        if alvos.contains(q) {
            let e = (n - alvos.len() + abaixo(alvos, q as int)) as nat;
            let x = indice_grupo(g, alvos, m, q as nat);
            assert(q < e + 1);
            lemma_base_props(x, q as nat, e + 1);
            let v = bit(m, posicao(alvos, q) as nat);
            lemma_bit(m, posicao(alvos, q) as nat);
            lemma_pow2_pos(q as nat);
            assert(0 <= v * (pow2(q as nat) as int) <= pow2(q as nat)) by (nonlinear_arith)
                requires
                    0 <= v <= 1,
                    pow2(q as nat) > 0,
            ;
            assert(indice_grupo(g, alvos, m, p as nat) == insere_bit(x, q as nat, v));
            assert(((e + 1) as nat) == (n - alvos.len() + abaixo(alvos, p as int)) as nat);
        } else {
            assert(indice_grupo(g, alvos, m, p as nat) == indice_grupo(g, alvos, m, q as nat));
        }
    } else {
        assert(abaixo(alvos, 0) == 0) by {
            lemma_abaixo_zero(alvos);
        }
    }
}

/// The `2ᵏ` amplitude indices of group `g` of a gate on the `k` qubits
/// `alvos`, in a register of `n` qubits: entry `m` is the index whose bit at
/// target `alvos[b]` is bit `b` of `m`, the bits of `g` filling the other
/// positions from the bottom up.
pub fn indices_do_grupo(g: usize, alvos: &[usize], n: usize) -> (r: Vec<usize>)
    requires
        alvos_validos(alvos@, n as nat),
        g < pow2((n - alvos@.len()) as nat),
    ensures
        r@.len() == pow2(alvos@.len()),
        forall|m: int|
            0 <= m < r@.len() ==> #[trigger] r@[m] == indice_grupo(g as int, alvos@, m, n as nat),
        forall|m: int| 0 <= m < r@.len() ==> #[trigger] r@[m] < pow2(n as nat),
{
    let k = alvos.len();
    proof {
        lemma_cabe(n as nat, n as nat);
        lemma_cabe(k as nat, n as nat);
        lemma_usize_shl_is_mul(1, k);
        vstd::layout::unsigned_int_max_values();
        lemma_abaixo_todos(alvos@, n as int);
    }
    let dim: usize = 1usize << k;
    let mut r: Vec<usize> = Vec::new();
    let mut m: usize = 0;
    while m < dim
        invariant
            alvos_validos(alvos@, n as nat),
            g < pow2((n - alvos@.len()) as nat),
            k == alvos@.len(),
            n < usize::BITS,
            abaixo(alvos@, n as int) == k,
            dim == pow2(k as nat),
            m <= dim,
            r@.len() == m,
            forall|j: int|
                0 <= j < m ==> #[trigger] r@[j] == indice_grupo(g as int, alvos@, j, n as nat),
            forall|j: int| 0 <= j < m ==> #[trigger] r@[j] < pow2(n as nat),
        decreases dim - m,
    {
        let mut x: u64 = g as u64;
        let mut p: usize = 0;
        proof {
            lemma_indice_limite(g as int, alvos@, m as int, 0, n);
        }
        while p < n
            invariant
                alvos_validos(alvos@, n as nat),
                g < pow2((n - alvos@.len()) as nat),
                k == alvos@.len(),
                n < usize::BITS,
                m < dim,
                dim == pow2(k as nat),
                p <= n,
                x == indice_grupo(g as int, alvos@, m as int, p as nat),
            decreases n - p,
        {
            let mut t: usize = 0;
            while t < k && alvos[t] != p
                invariant
                    t <= k,
                    k == alvos@.len(),
                    forall|j: int| 0 <= j < t ==> alvos@[j] != p,
                decreases k - t,
            {
                t = t + 1;
            }
            proof {
                lemma_indice_limite(g as int, alvos@, m as int, p, n);
                lemma_abaixo_passo(alvos@, p);
                lemma_abaixo_cabe(alvos@, (p + 1) as usize, n);
                assert(((p + 1) as nat - 1) as usize == p);
            }
            if t < k {
                proof {
                    assert(alvos@.contains(p));
                    let b = posicao(alvos@, p);
                    assert(alvos@[b] == p);
                    assert(b == t) by {
                        if b != t {
                            assert(alvos@[b] != alvos@[t as int]);
                        }
                    }
                    lemma_cabe(k as nat, n as nat);
                    lemma_abaixo_passo(alvos@, (p + 1) as usize);
                    let e = (n - k + abaixo(alvos@, p as int)) as nat;
                    assert(e <= n - 1);
                    if e < n - 1 {
                        lemma_pow2_strictly_increases(e, (n - 1) as nat);
                    }
                    if n - 1 < 62 {
                        lemma_pow2_strictly_increases((n - 1) as nat, 62);
                    }
                    lemma2_to64();
                    lemma2_to64_rest();
                }
                let v = bit_de(m, t);
                let (i0, i1) = crate::qubit::indices_do_par(x, p as u64);
                x = if v == 1 {
                    i1
                } else {
                    i0
                };
                proof {
                    assert(v == 0 || v == 1);
                    if v == 0 {
                        assert(v * pow2(p as nat) == 0) by (nonlinear_arith)
                            requires
                                v == 0,
                        ;
                    } else {
                        assert(v * pow2(p as nat) == pow2(p as nat)) by (nonlinear_arith)
                            requires
                                v == 1,
                        ;
                    }
                }
            } else {
                proof {
                    assert(!alvos@.contains(p)) by {
                        if alvos@.contains(p) {
                            let j = choose|j: int| 0 <= j < alvos@.len() && alvos@[j] == p;
                            assert(alvos@[j] != p);
                        }
                    }
                }
            }
            p = p + 1;
        }
        proof {
            lemma_indice_limite(g as int, alvos@, m as int, n, n);
            assert(x < pow2(n as nat));
        }
        r.push(x as usize);
        m = m + 1;
    }
    r
}

proof fn lemma_bit_metade(a: int, b: nat)
    requires
        a >= 0,
    ensures
        bit(a, b + 1) == bit(a / 2, b),
        bit(a, 0) == a % 2,
{
    lemma2_to64();
    lemma_pow2_unfold(b + 1);
    lemma_pow2_pos(b);
    lemma_div_denominator(a, 2, pow2(b) as int);
    assert(2 * pow2(b) == pow2(b) * 2) by (nonlinear_arith);
}

/// Two numbers below `2ᵏ` with the same `k` low bits are equal.
proof fn lemma_bits_iguais(a: int, c: int, k: nat)
    requires
        0 <= a < pow2(k),
        0 <= c < pow2(k),
        forall|b: nat| b < k ==> #[trigger] bit(a, b) == bit(c, b),
    ensures
        a == c,
    decreases k,
{
    lemma2_to64();
    if k > 0 {
        lemma_pow2_unfold(k);
        assert forall|b: nat| b < (k - 1) as nat implies #[trigger] bit(a / 2, b) == bit(c / 2, b) by {
            lemma_bit_metade(a, b);
            lemma_bit_metade(c, b);
            assert(bit(a, b + 1) == bit(c, b + 1));
        }
        lemma_bit_metade(a, 0);
        lemma_bit_metade(c, 0);
        assert(bit(a, 0) == bit(c, 0));
        lemma_fundamental_div_mod(a, 2);
        lemma_fundamental_div_mod(c, 2);
        lemma_bits_iguais(a / 2, c / 2, (k - 1) as nat);
    }
}

/// Going back down from equal indices: equal groups, and equal bits of the
/// two amplitudes at every target below `p`.
proof fn lemma_desce(
    g1: int,
    g2: int,
    m1: int,
    m2: int,
    alvos: Seq<usize>,
    n: usize,
    p: usize,
)
    requires
        alvos_validos(alvos, n as nat),
        0 <= g1 < pow2((n - alvos.len()) as nat),
        0 <= g2 < pow2((n - alvos.len()) as nat),
        p <= n,
        indice_grupo(g1, alvos, m1, p as nat) == indice_grupo(g2, alvos, m2, p as nat),
    ensures
        g1 == g2,
        forall|b: int|
            0 <= b < alvos.len() && alvos[b] < p ==> #[trigger] bit(m1, b as nat) == bit(m2, b as nat),
    decreases p,
{
    if p > 0 {
        let q = (p - 1) as usize;
        assert(((p as nat) - 1) as usize == q);
        let x1 = indice_grupo(g1, alvos, m1, q as nat);
        let x2 = indice_grupo(g2, alvos, m2, q as nat);
        if alvos.contains(q) {
            lemma_indice_limite(g1, alvos, m1, q, n);
            lemma_indice_limite(g2, alvos, m2, q, n);
            lemma_abaixo_cabe(alvos, q, n);
            let e = (n - alvos.len() + abaixo(alvos, q as int)) as nat;
            lemma_base_props(x1, q as nat, e + 1);
            lemma_base_props(x2, q as nat, e + 1);
            let c = posicao(alvos, q);
            let v1 = bit(m1, c as nat);
            let v2 = bit(m2, c as nat);
            lemma_bit(m1, c as nat);
            lemma_bit(m2, c as nat);
            let w = pow2(q as nat) as int;
            assert(v1 * w == (if v1 == 0 { 0 } else { w })) by (nonlinear_arith)
                requires
                    0 <= v1 <= 1,
            ;
            assert(v2 * w == (if v2 == 0 { 0 } else { w })) by (nonlinear_arith)
                requires
                    0 <= v2 <= 1,
            ;
            assert(x1 == x2);
            lemma_pow2_pos(q as nat);
            assert(v1 == v2);
            lemma_desce(g1, g2, m1, m2, alvos, n, q);
            assert forall|b: int|
                0 <= b < alvos.len() && alvos[b] < p implies #[trigger] bit(m1, b as nat) == bit(
                m2,
                b as nat,
            ) by {
                if alvos[b] == q {
                    assert(b == c) by {
                        if b != c {
                            assert(alvos[b] != alvos[c]);
                        }
                    }
                }
            }
        } else {
            lemma_desce(g1, g2, m1, m2, alvos, n, q);
            assert forall|b: int|
                0 <= b < alvos.len() && alvos[b] < p implies #[trigger] bit(m1, b as nat) == bit(
                m2,
                b as nat,
            ) by {
                assert(alvos[b] != q);
            }
        }
    }
}

/// Distinct amplitudes of distinct groups never share an index: for
/// distinct targets below `n`, groups `g < 2ⁿ⁻ᵏ` and amplitudes `m < 2ᵏ`,
/// the index of amplitude `m` of group `g` determines both, and lies below
/// `2ⁿ`.
pub proof fn lemma_grupos_disjuntos(g1: int, g2: int, m1: int, m2: int, alvos: Seq<usize>, n: usize)
    requires
        alvos_validos(alvos, n as nat),
        0 <= g1 < pow2((n - alvos.len()) as nat),
        0 <= g2 < pow2((n - alvos.len()) as nat),
        0 <= m1 < pow2(alvos.len()),
        0 <= m2 < pow2(alvos.len()),
    ensures
        0 <= indice_grupo(g1, alvos, m1, n as nat) < pow2(n as nat),
        indice_grupo(g1, alvos, m1, n as nat) == indice_grupo(g2, alvos, m2, n as nat) ==> g1 == g2
            && m1 == m2,
{
    lemma_indice_limite(g1, alvos, m1, n, n);
    lemma_abaixo_todos(alvos, n as int);
    if indice_grupo(g1, alvos, m1, n as nat) == indice_grupo(g2, alvos, m2, n as nat) {
        lemma_desce(g1, g2, m1, m2, alvos, n, n);
        assert forall|b: nat| b < alvos.len() implies #[trigger] bit(m1, b) == bit(m2, b) by {
            let c = b as int;
            assert(alvos[c] < n);
            assert(bit(m1, c as nat) == bit(m2, c as nat));
        }
        lemma_bits_iguais(m1, m2, alvos.len());
    }
}

/// The index depends on the amplitude only through its bits at the
/// targets already placed.
proof fn lemma_congruencia(g: int, m: int, m2: int, alvos: Seq<usize>, p: nat)
    requires
        alvos.no_duplicates(),
        forall|b: int|
            0 <= b < alvos.len() && alvos[b] < p ==> #[trigger] bit(m, b as nat) == bit(m2, b as nat),
    ensures
        indice_grupo(g, alvos, m, p) == indice_grupo(g, alvos, m2, p),
    decreases p,
{
    if p > 0 {
        let q = (p - 1) as nat;
        lemma_congruencia(g, m, m2, alvos, q);
        if alvos.contains(q as usize) {
            let c = posicao(alvos, q as usize);
            assert(alvos[c] < p);
            assert(bit(m, c as nat) == bit(m2, c as nat));
        }
    }
}

/// `m` with bit `b` replaced by `v`, the other bits kept.
proof fn troca_bit(m: int, b: nat, v: int, k: nat) -> (r: int)
    requires
        0 <= m < pow2(k),
        b < k,
        0 <= v <= 1,
    ensures
        0 <= r < pow2(k),
        bit(r, b) == v,
        forall|c: nat| c < k && c != b ==> #[trigger] bit(r, c) == bit(m, c),
    decreases k,
{
    lemma2_to64();
    lemma_pow2_unfold(k);
    lemma_fundamental_div_mod(m, 2);
    let lo = m % 2;
    let hi = m / 2;
    lemma_mod_bound(m, 2);
    let r = if b == 0 {
        let r = 2 * hi + v;
        lemma_fundamental_div_mod_converse(r, 2, hi, v);
        r
    } else {
        let t = troca_bit(hi, (b - 1) as nat, v, (k - 1) as nat);
        let r = 2 * t + lo;
        lemma_fundamental_div_mod_converse(r, 2, t, lo);
        assert forall|c: nat| c < (k - 1) as nat && c != (b - 1) as nat implies #[trigger] bit(t, c)
            == bit(hi, c) by {}
        r
    };
    lemma_bit_metade(r, 0);
    lemma_bit_metade(m, 0);
    assert forall|c: nat| c < k && c != b implies #[trigger] bit(r, c) == bit(m, c) by {
        if c > 0 {
            lemma_bit_metade(r, (c - 1) as nat);
            lemma_bit_metade(m, (c - 1) as nat);
        }
    }
    if b > 0 {
        lemma_bit_metade(r, (b - 1) as nat);
    }
    r
}

/// Every index below `2^(n − k + targets below p)` is reached from some
/// group and amplitude with the positions below `p` placed.
proof fn lemma_sobe(x: int, alvos: Seq<usize>, n: usize, p: usize) -> (r: (int, int))
    requires
        alvos_validos(alvos, n as nat),
        p <= n,
        0 <= x < pow2((n - alvos.len() + abaixo(alvos, p as int)) as nat),
    ensures
        0 <= r.0 < pow2((n - alvos.len()) as nat),
        0 <= r.1 < pow2(alvos.len()),
        indice_grupo(r.0, alvos, r.1, p as nat) == x,
    decreases p,
{
    lemma_pow2_pos(alvos.len());
    if p == 0 {
        lemma_abaixo_zero(alvos);
        (x, 0)
    } else {
        let q = (p - 1) as usize;
        assert(((p as nat) - 1) as usize == q);
        lemma_abaixo_passo(alvos, q);
        if alvos.contains(q) {
            lemma_abaixo_cabe(alvos, q, n);
            let e = (n - alvos.len() + abaixo(alvos, q as int)) as nat;
            lemma_de_props(x, q as nat, e + 1);
            let y = par_de(x, q as nat);
            let v: int = if x == par_base(y, q as nat) {
                0
            } else {
                1
            };
            let (g, m2) = lemma_sobe(y, alvos, n, q);
            let c = posicao(alvos, q);
            assert(alvos[c] == q);
            let m = troca_bit(m2, c as nat, v, alvos.len());
            assert forall|b: int|
                0 <= b < alvos.len() && alvos[b] < q implies #[trigger] bit(m, b as nat) == bit(
                m2,
                b as nat,
            ) by {
                assert(b != c);
            }
            lemma_congruencia(g, m, m2, alvos, q as nat);
            assert(v * (pow2(q as nat) as int) == (if v == 0 { 0 } else { pow2(q as nat) as int }))
                by (nonlinear_arith)
                requires
                    0 <= v <= 1,
            ;
            (g, m)
        } else {
            lemma_sobe(x, alvos, n, q)
        }
    }
}

/// The groups of a gate cover the register: every index below `2ⁿ` is
/// amplitude `m < 2ᵏ` of some group `g < 2ⁿ⁻ᵏ`.
pub proof fn lemma_grupos_cobrem(i: int, alvos: Seq<usize>, n: usize)
    requires
        alvos_validos(alvos, n as nat),
        0 <= i < pow2(n as nat),
    ensures
        exists|g: int, m: int|
            0 <= g < pow2((n - alvos.len()) as nat) && 0 <= m < pow2(alvos.len())
                && #[trigger] indice_grupo(g, alvos, m, n as nat) == i,
{
    lemma_abaixo_todos(alvos, n as int);
    let (g, m) = lemma_sobe(i, alvos, n, n);
    assert(indice_grupo(g, alvos, m, n as nat) == i);
}

proof fn lemma_abaixo_zero(s: Seq<usize>)
    ensures
        abaixo(s, 0) == 0,
    decreases s.len(),
{
    if s.len() > 0 {
        lemma_abaixo_zero(s.drop_last());
    }
}

} // verus!
