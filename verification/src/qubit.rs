//! Index arithmetic of a state-vector quantum simulator.
//!
//! A register of `n` qubits is a vector of `2ⁿ` complex amplitudes. A gate
//! on qubit `q` mixes the amplitudes in pairs: the two indices that differ
//! only in bit `q`. Pair `p` is `p` with a zero bit inserted at position `q`,
//! and its partner has that bit set; [`lemma_pares_particionam`] proves that
//! the `2ⁿ⁻¹` pairs cover every index exactly once. This module also sizes
//! the state buffer against the binding limit of WebGPU, lays out its initial
//! contents, and decodes half-precision amplitudes.

use vstd::arithmetic::div_mod::*;
use vstd::arithmetic::mul::*;
use vstd::arithmetic::power2::*;
use vstd::bits::*;
use crate::leitura::{palavras32, palavras_u32, ErroLeitura};
use crate::plano::{div_teto, grade, grade_spec, teto_div};
use vstd::prelude::*;

verus! {

// ------------------------------------------------------------ pair map

/// First index of pair `p` for a gate on qubit `q`: `p` with a zero bit
/// inserted at position `q`.
pub open spec fn par_base(p: int, q: nat) -> int {
    (p / (pow2(q) as int)) * (pow2(q + 1) as int) + p % (pow2(q) as int)
}

/// Pair of the index `i` for a gate on qubit `q`: `i` with bit `q` removed.
pub open spec fn par_de(i: int, q: nat) -> int {
    (i / (pow2(q + 1) as int)) * (pow2(q) as int) + i % (pow2(q) as int)
}

pub(crate) proof fn lemma_pow2_facts(n: nat, q: nat)
    requires
        q < n,
    ensures
        pow2(q) > 0,
        pow2(q + 1) == 2 * pow2(q),
        pow2((n - 1) as nat) == pow2(q) * pow2((n - 1 - q) as nat),
        pow2(n) == 2 * pow2((n - 1) as nat),
        pow2((n - 1 - q) as nat) > 0,
{
    lemma_pow2_pos(q);
    lemma_pow2_pos((n - 1 - q) as nat);
    lemma_pow2_unfold(q + 1);
    lemma_pow2_unfold(n);
    lemma_pow2_adds(q, (n - 1 - q) as nat);
}

pub(crate) proof fn lemma_base_props(p: int, q: nat, n: nat)
    requires
        q < n,
        0 <= p < pow2((n - 1) as nat),
    ensures
        0 <= par_base(p, q),
        par_base(p, q) + pow2(q) < pow2(n),
        par_de(par_base(p, q), q) == p,
        par_de(par_base(p, q) + pow2(q), q) == p,
{
    lemma_pow2_facts(n, q);
    let qq = pow2(q) as int;
    let d = pow2(q + 1) as int;
    let m = pow2((n - 1 - q) as nat) as int;
    let x = p / qq;
    let r = p % qq;
    lemma_fundamental_div_mod(p, qq);
    lemma_mod_bound(p, qq);
    lemma_div_pos_is_pos(p, qq);
    lemma_mul_is_commutative(qq, m);
    lemma_multiply_divide_lt(p, qq, m);
    let base = x * d + r;
    assert(base == par_base(p, q));
    assert(x * d == (2 * x) * qq) by (nonlinear_arith)
        requires
            d == 2 * qq,
    ;
    assert(0 <= x * d) by (nonlinear_arith)
        requires
            x >= 0,
            d >= 0,
    ;
    assert((x + 1) * d <= m * d) by (nonlinear_arith)
        requires
            x + 1 <= m,
            d >= 0,
    ;
    assert(m * d == 2 * (qq * m)) by (nonlinear_arith)
        requires
            d == 2 * qq,
    ;
    assert((x + 1) * d == x * d + d) by (nonlinear_arith);
    // par_de(base)
    lemma_fundamental_div_mod_converse(base, d, x, r);
    lemma_fundamental_div_mod_converse(base, qq, 2 * x, r);
    assert(x * qq == qq * x) by (nonlinear_arith);
    // par_de(base + qq)
    lemma_fundamental_div_mod_converse(base + qq, d, x, r + qq);
    assert((2 * x + 1) * qq == (2 * x) * qq + qq) by (nonlinear_arith);
    lemma_fundamental_div_mod_converse(base + qq, qq, 2 * x + 1, r);
}

pub(crate) proof fn lemma_de_props(i: int, q: nat, n: nat)
    requires
        q < n,
        0 <= i < pow2(n),
    ensures
        0 <= par_de(i, q) < pow2((n - 1) as nat),
        i == par_base(par_de(i, q), q) || i == par_base(par_de(i, q), q) + pow2(q),
{
    lemma_pow2_facts(n, q);
    let qq = pow2(q) as int;
    let d = pow2(q + 1) as int;
    let m = pow2((n - 1 - q) as nat) as int;
    let a = i / d;
    let s = i % d;
    lemma_fundamental_div_mod(i, d);
    lemma_mod_bound(i, d);
    lemma_div_pos_is_pos(i, d);
    assert(pow2(n) == d * m) by (nonlinear_arith)
        requires
            pow2(n) == 2 * pow2((n - 1) as nat),
            pow2((n - 1) as nat) == qq * m,
            d == 2 * qq,
    ;
    lemma_multiply_divide_lt(i, d, m);
    let b = s / qq;
    let t = s % qq;
    lemma_fundamental_div_mod(s, qq);
    lemma_mod_bound(s, qq);
    lemma_div_pos_is_pos(s, qq);
    assert(b < 2) by {
        lemma_multiply_divide_lt(s, qq, 2);
    }
    assert(i == (2 * a + b) * qq + t) by (nonlinear_arith)
        requires
            i == d * a + s,
            s == qq * b + t,
            d == 2 * qq,
    ;
    lemma_fundamental_div_mod_converse(i, qq, 2 * a + b, t);
    let p = a * qq + t;
    assert(p == par_de(i, q));
    assert(0 <= a * qq) by (nonlinear_arith)
        requires
            a >= 0,
            qq >= 0,
    ;
    assert(a * qq + qq <= m * qq) by (nonlinear_arith)
        requires
            a + 1 <= m,
            qq >= 0,
    ;
    assert(m * qq == qq * m) by (nonlinear_arith);
    lemma_fundamental_div_mod_converse(p, qq, a, t);
    assert(par_base(p, q) == a * d + t);
    assert(a * d == d * a) by (nonlinear_arith);
    if b == 0 {
        assert(qq * b == 0) by (nonlinear_arith)
            requires
                b == 0,
        ;
        assert(i == par_base(p, q));
    } else {
        assert(qq * b == qq) by (nonlinear_arith)
            requires
                b == 1,
        ;
        assert(i == par_base(p, q) + qq);
    }
}

/// The pairs of a gate on qubit `q` of an `n`-qubit register run over every
/// index without repetition or gap: each pair `p < 2ⁿ⁻¹` gives two indices
/// below `2ⁿ`, `2^q` apart, that both lead back to `p`; and every index below
/// `2ⁿ` is one of the two indices of its pair.
pub proof fn lemma_pares_particionam(n: nat, q: nat)
    requires
        q < n,
    ensures
        forall|p: int|
            0 <= p < pow2((n - 1) as nat) ==> {
                &&& 0 <= #[trigger] par_base(p, q)
                &&& par_base(p, q) + pow2(q) < pow2(n)
                &&& par_de(par_base(p, q), q) == p
                &&& par_de(par_base(p, q) + pow2(q), q) == p
            },
        forall|i: int|
            0 <= i < pow2(n) ==> {
                &&& 0 <= #[trigger] par_de(i, q) < pow2((n - 1) as nat)
                &&& i == par_base(par_de(i, q), q) || i == par_base(par_de(i, q), q) + pow2(q)
            },
{
    assert forall|p: int| 0 <= p < pow2((n - 1) as nat) implies {
        &&& 0 <= #[trigger] par_base(p, q)
        &&& par_base(p, q) + pow2(q) < pow2(n)
        &&& par_de(par_base(p, q), q) == p
        &&& par_de(par_base(p, q) + pow2(q), q) == p
    } by {
        lemma_base_props(p, q, n);
    }
    assert forall|i: int| 0 <= i < pow2(n) implies {
        &&& 0 <= #[trigger] par_de(i, q) < pow2((n - 1) as nat)
        &&& i == par_base(par_de(i, q), q) || i == par_base(par_de(i, q), q) + pow2(q)
    } by {
        lemma_de_props(i, q, n);
    }
}


proof fn lemma_insere_bit(x: u64, m: u64, q: u64, s: u64)
    by (bit_vector)
    requires
        q < 63,
        s == q + 1,
        m < (1u64 << q),
    ensures
        ((x << s) | m) == (x << s) + m,
        (((x << s) | m) | (1u64 << q)) == ((x << s) | m) + (1u64 << q),
{
}

/// The two indices of pair `par` for a gate on qubit `qubit`:
/// `i₀ = ((par >> q) << (q + 1)) | (par & (2^q − 1))` and `i₁ = i₀ | 2^q`.
pub fn indices_do_par(par: u64, qubit: u64) -> (r: (u64, u64))
    requires
        qubit < 63,
        par < 0x4000_0000_0000_0000,
    ensures
        r.0 == par_base(par as int, qubit as nat),
        r.1 == par_base(par as int, qubit as nat) + pow2(qubit as nat),
{
    let ghost qq = pow2(qubit as nat) as int;
    proof {
        lemma_u64_pow2_no_overflow(qubit as nat);
        lemma_u64_pow2_no_overflow((qubit + 1) as nat);
        lemma_pow2_unfold((qubit + 1) as nat);
        lemma_u64_shl_is_mul(1u64, qubit);
        lemma_u64_shr_is_div(par, qubit);
    }
    let bit = 1u64 << qubit;
    let mascara = bit - 1;
    proof {
        assert(mascara == low_bits_mask(qubit as nat) as u64);
        lemma_u64_low_bits_mask_is_mod(par, qubit as nat);
    }
    let x = par >> qubit;
    let m = par & mascara;
    proof {
        lemma_fundamental_div_mod(par as int, qq);
        lemma_mod_bound(par as int, qq);
        lemma_div_pos_is_pos(par as int, qq);
        assert(x * pow2((qubit + 1) as nat) <= 2 * par) by (nonlinear_arith)
            requires
                pow2((qubit + 1) as nat) == 2 * qq,
                par == qq * x + (par as int) % qq,
                (par as int) % qq >= 0,
                x >= 0,
        ;
    }
    let s = qubit + 1;
    proof {
        lemma_u64_shl_is_mul(x, s);
        lemma_insere_bit(x, m, qubit, s);
    }
    let i0 = (x << s) | m;
    let i1 = i0 | bit;
    (i0, i1)
}


// ------------------------------------------------------------ the register

/// How the amplitudes are stored: two `f32`, or two `f16` packed in one
/// word. Arithmetic on them is done in `f32` either way.
#[derive(Clone, Copy, Debug, PartialEq, Eq, Structural)]
pub enum Precisao {
    /// Two `f32` per amplitude: 8 bytes.
    F32,
    /// Two `f16` packed in one 32-bit word: 4 bytes.
    F16,
}

impl Precisao {
    /// Bytes per amplitude.
    pub open spec fn bytes(self) -> nat {
        match self {
            Precisao::F32 => 8,
            Precisao::F16 => 4,
        }
    }

    /// Largest register whose state fits in one WebGPU binding, whose limit
    /// is 4 bytes short of 2 GB: 27 qubits in single precision, 28 in half.
    pub open spec fn teto(self) -> nat {
        match self {
            Precisao::F32 => 27,
            Precisao::F16 => 28,
        }
    }

    pub fn bytes_por_amplitude(&self) -> (b: usize)
        ensures
            b == self.bytes(),
    {
        match self {
            Precisao::F32 => 8,
            Precisao::F16 => 4,
        }
    }

    pub fn max_qubits(&self) -> (q: usize)
        ensures
            q == self.teto(),
    {
        match self {
            Precisao::F32 => 27,
            Precisao::F16 => 28,
        }
    }
}

/// Bytes of the largest storage binding that WebGPU accepts: 4 bytes short
/// of 2 GB.
pub const LIMITE_BINDING: u64 = 2147483644;

/// The qubit ceiling of each precision is exactly what one binding holds:
/// the state of `teto` qubits fits, the state of one qubit more does not.
/// Half precision buys one qubit, not two.
pub proof fn lemma_teto_e_o_limite(p: Precisao)
    ensures
        pow2(p.teto()) * p.bytes() <= LIMITE_BINDING,
        pow2(p.teto() + 1) * p.bytes() > LIMITE_BINDING,
        Precisao::F16.teto() == Precisao::F32.teto() + 1,
{
    lemma2_to64();
    match p {
        Precisao::F32 => {
            assert(pow2(27) * 8 == 1073741824);
            assert(pow2(28) * 8 == 2147483648);
        },
        Precisao::F16 => {
            assert(pow2(28) * 4 == 1073741824);
            assert(pow2(29) * 4 == 2147483648);
        },
    }
}

/// Why a state vector cannot be created.
#[derive(Clone, Copy, Debug, PartialEq, Eq, Structural)]
pub enum ErroEstado {
    /// A register needs at least one qubit.
    SemQubits,
    /// The state would not fit in one binding: `gb` is its size in whole
    /// gigabytes and `teto` the largest register that fits.
    AlemDoTeto { qubits: usize, precisao: Precisao, gb: usize, teto: usize },
}

/// Bit pattern of the amplitude 1 in the first word of a state buffer: the
/// single-precision 1.0, or the half-precision 1.0 in the low half.
pub open spec fn palavra_um(p: Precisao) -> u32 {
    match p {
        Precisao::F32 => 0x3F80_0000,
        Precisao::F16 => 0x3C00,
    }
}

/// Parameters of one dispatch of the one-qubit gate kernel.
#[derive(Clone, Copy, Debug, PartialEq, Eq, Structural)]
pub struct DespachoPorta {
    /// Number of amplitude pairs, one per invocation.
    pub pares: u32,
    pub qubit: u32,
    /// Workgroups along `x`, also passed to the kernel.
    pub gx: u32,
    pub gy: u32,
}

/// Threads per workgroup when a one-qubit operation is dispatched.
pub const GRUPO_PORTA: usize = 256;

/// Shape of the state vector of a register: how many qubits, and how the
/// amplitudes are stored.
#[derive(Clone, Copy, Debug, PartialEq, Eq, Structural)]
pub struct Estado {
    qubits: usize,
    precisao: Precisao,
}

impl Estado {
    /// Largest register in single precision.
    pub const MAX_QUBITS: usize = 27;

    pub closed spec fn num_qubits(&self) -> nat {
        self.qubits as nat
    }

    pub closed spec fn modo(&self) -> Precisao {
        self.precisao
    }

    /// At least one qubit, and no more than fit in one binding.
    pub open spec fn wf(&self) -> bool {
        1 <= self.num_qubits() <= self.modo().teto()
    }

    /// The register `|0…0⟩` of `qubits` qubits in single precision.
    pub fn novo(qubits: usize) -> (r: Result<Estado, ErroEstado>)
        requires
            pow2(qubits as nat) * 8 <= usize::MAX,
        ensures
            qubits == 0 ==> r == Err::<Estado, ErroEstado>(ErroEstado::SemQubits),
            qubits > 27 ==> r == Err::<Estado, ErroEstado>(
                ErroEstado::AlemDoTeto {
                    qubits,
                    precisao: Precisao::F32,
                    gb: (pow2(qubits as nat) * 8 / pow2(30)) as usize,
                    teto: 27,
                },
            ),
            1 <= qubits <= 27 ==> (r matches Ok(e) && e.wf() && e.num_qubits() == qubits
                && e.modo() == Precisao::F32),
    {
        Estado::novo_com(qubits, Precisao::F32)
    }

    /// The register `|0…0⟩` of `qubits` qubits stored in `precisao`; fails
    /// without qubits, or when the state would exceed one binding.
    pub fn novo_com(qubits: usize, precisao: Precisao) -> (r: Result<Estado, ErroEstado>)
        requires
            pow2(qubits as nat) * precisao.bytes() <= usize::MAX,
        ensures
            qubits == 0 ==> r == Err::<Estado, ErroEstado>(ErroEstado::SemQubits),
            qubits > precisao.teto() ==> r == Err::<Estado, ErroEstado>(
                ErroEstado::AlemDoTeto {
                    qubits,
                    precisao,
                    gb: (pow2(qubits as nat) * precisao.bytes() / pow2(30)) as usize,
                    teto: precisao.teto() as usize,
                },
            ),
            1 <= qubits <= precisao.teto() ==> (r matches Ok(e) && e.wf() && e.num_qubits()
                == qubits && e.modo() == precisao),
    {
        if qubits == 0 {
            return Err(ErroEstado::SemQubits);
        }
        let teto = precisao.max_qubits();
        if qubits > teto {
            let b = precisao.bytes_por_amplitude();
            proof {
                lemma_pow2_pos(qubits as nat);
                assert(pow2(qubits as nat) <= usize::MAX) by (nonlinear_arith)
                    requires
                        pow2(qubits as nat) * b <= usize::MAX,
                        b >= 4,
                        pow2(qubits as nat) > 0,
                ;
                assert(qubits < usize::BITS) by {
                    lemma2_to64();
                    assert(usize::BITS == 32 || usize::BITS == 64);
                    assert(usize::BITS == 32 ==> usize::MAX == 0xffff_ffff);
                    assert(usize::BITS == 64 ==> usize::MAX == 0xffff_ffff_ffff_ffff);
                    if qubits > usize::BITS {
                        lemma_pow2_strictly_increases(usize::BITS as nat, qubits as nat);
                    }
                }
                lemma_usize_shl_is_mul(1usize, qubits);
                lemma2_to64();
                lemma_usize_shl_is_mul(1usize, 30usize);
            }
            let gb = (1usize << qubits) * b / (1usize << 30);
            return Err(ErroEstado::AlemDoTeto { qubits, precisao, gb, teto });
        }
        Ok(Estado { qubits, precisao })
    }

    pub fn qubits(&self) -> (q: usize)
        ensures
            q == self.num_qubits(),
    {
        self.qubits
    }

    pub fn precisao(&self) -> (p: Precisao)
        ensures
            p == self.modo(),
    {
        self.precisao
    }

    /// `2ⁿ` amplitudes.
    pub fn amplitudes(&self) -> (a: usize)
        requires
            self.wf(),
        ensures
            a == pow2(self.num_qubits()),
    {
        proof {
            lemma2_to64();
            lemma_pow2_strictly_increases(self.qubits as nat, 32);
            lemma_usize_shl_is_mul(1usize, self.qubits);
        }
        1usize << self.qubits
    }

    /// Bytes taken by the state vector.
    pub fn bytes(&self) -> (b: usize)
        requires
            self.wf(),
        ensures
            b == pow2(self.num_qubits()) * self.modo().bytes(),
    {
        let a = self.amplitudes();
        proof {
            lemma2_to64();
            lemma_pow2_strictly_increases(self.qubits as nat, 29);
        }
        a * self.precisao.bytes_por_amplitude()
    }

    /// 32-bit words of the state buffer.
    pub fn palavras(&self) -> (w: usize)
        requires
            self.wf(),
        ensures
            w == pow2(self.num_qubits()) * self.modo().bytes() / 4,
    {
        self.bytes() / 4
    }

    /// Contents of the state buffer for `|0…0⟩`: the amplitude 1 at index
    /// 0 and zero everywhere else. In half precision 1.0 is `0x3C00` in the
    /// low half of the first word; no conversion is needed.
    pub fn palavras_iniciais(&self) -> (v: Vec<u32>)
        requires
            self.wf(),
        ensures
            v@.len() == pow2(self.num_qubits()) * self.modo().bytes() / 4,
            v@[0] == palavra_um(self.modo()),
            forall|i: int| 1 <= i < v@.len() ==> #[trigger] v@[i] == 0,
    {
        let n = self.palavras();
        proof {
            lemma_pow2_pos(self.qubits as nat);
        }
        let mut v: Vec<u32> = Vec::new();
        v.push(match self.precisao {
            Precisao::F32 => 0x3F80_0000,
            Precisao::F16 => 0x3C00,
        });
        let mut i: usize = 1;
        while i < n
            invariant
                1 <= i <= n,
                v@.len() == i,
                v@[0] == palavra_um(self.modo()),
                forall|j: int| 1 <= j < i ==> #[trigger] v@[j] == 0,
            decreases n - i,
        {
            v.push(0);
            i = i + 1;
        }
        v
    }

    /// Dispatch of a one-qubit gate on `qubit`: one invocation per pair of
    /// amplitudes, in workgroups of [`GRUPO_PORTA`], folded by [`grade`].
    pub fn despacho(&self, qubit: usize) -> (d: DespachoPorta)
        requires
            self.wf(),
            qubit < self.num_qubits(),
        ensures
            d.pares == pow2(self.num_qubits()) / 2,
            d.qubit == qubit,
            (d.gx, d.gy) == grade_spec(teto_div(d.pares as int, GRUPO_PORTA as int)),
            d.gx as int * d.gy as int * GRUPO_PORTA >= d.pares,
    {
        let pares = self.amplitudes() / 2;
        let grupos = div_teto(pares, GRUPO_PORTA);
        let (gx, gy) = grade(grupos);
        proof {
            lemma2_to64();
            lemma_pow2_strictly_increases(self.qubits as nat, 32);
            lemma_div_is_ordered(pares as int + 255, 0x8000_00ff, 256);
        }
        DespachoPorta { pares: pares as u32, qubit: qubit as u32, gx, gy }
    }
}


// ------------------------------------------------------ half precision

/// Sign bit of a half-precision pattern.
pub open spec fn h_sinal(h: u16) -> u16 {
    (h >> 15u16) & 1u16
}

/// Exponent field of a half-precision pattern.
pub open spec fn h_expo(h: u16) -> u16 {
    (h >> 10u16) & 0x1fu16
}

/// Fraction field of a half-precision pattern.
pub open spec fn h_frac(h: u16) -> u16 {
    h & 0x3ffu16
}

/// Magnitude of a finite half-precision number times `2¹⁵⁰`: the fraction
/// times `2⁻²⁴` when subnormal, `(1 + frac/2¹⁰)·2^(expo−15)` otherwise.
pub open spec fn h_escalado(h: u16) -> int {
    if h_expo(h) == 0 {
        (h_frac(h) as int) * (pow2(126) as int)
    } else {
        (1024 + h_frac(h) as int) * (pow2((h_expo(h) + 125) as nat) as int)
    }
}

/// Sign bit of a single-precision pattern.
pub open spec fn f_sinal(b: u32) -> u32 {
    b >> 31u32
}

/// Exponent field of a single-precision pattern.
pub open spec fn f_expo(b: u32) -> u32 {
    (b >> 23u32) & 0xffu32
}

/// Mantissa field of a single-precision pattern.
pub open spec fn f_mant(b: u32) -> u32 {
    b & 0x7f_ffffu32
}

/// Magnitude of a finite single-precision number times `2¹⁵⁰`: the
/// mantissa times `2⁻¹⁴⁹` when subnormal, `(1 + m/2²³)·2^(E−127)` otherwise.
pub open spec fn f_escalado(b: u32) -> int {
    if f_expo(b) == 0 {
        2 * (f_mant(b) as int)
    } else {
        (0x80_0000 + f_mant(b) as int) * (pow2(f_expo(b) as nat) as int)
    }
}

proof fn lemma_campos_h(h: u16)
    by (bit_vector)
    ensures
        h_sinal(h) < 2,
        h_expo(h) < 32,
        h_frac(h) < 1024,
        h >> 15u16 == h_sinal(h),
{
}

proof fn lemma_campos_f(sinal: u32, ex: u32, man: u32)
    by (bit_vector)
    requires
        sinal < 2,
        ex < 256,
        man < 0x80_0000,
    ensures
        f_sinal((sinal << 31u32) | (ex << 23u32) | man) == sinal,
        f_expo((sinal << 31u32) | (ex << 23u32) | man) == ex,
        f_mant((sinal << 31u32) | (ex << 23u32) | man) == man,
{
}

proof fn lemma_normaliza(f: u32)
    by (bit_vector)
    requires
        0 < f < 0x800,
    ensures
        (f & 0x400u32 == 0) == (f < 0x400),
        f >= 0x400 ==> (f & 0x3ffu32) == f - 0x400,
        f < 0x400 ==> (f << 1u32) == 2 * f,
        (f & 0x3ffu32) << 13u32 == (f & 0x3ffu32) * 8192,
        (f & 0x3ffu32) < 0x400,
{
}

proof fn lemma_desloca(x: u32)
    by (bit_vector)
    requires
        x < 0x400,
    ensures
        x << 13u32 == x * 8192,
{
}

/// `b` is the single-precision pattern of the half-precision pattern `h`:
/// the same sign, the same finite magnitude, and infinities and NaNs kept
/// as such with their payload. Exactly one `b` fits each `h`.
pub open spec fn converte(h: u16, b: u32) -> bool {
    &&& f_sinal(b) == h_sinal(h)
    &&& h_expo(h) != 31 ==> f_expo(b) != 255 && f_escalado(b) == h_escalado(h)
    &&& h_expo(h) == 31 ==> f_expo(b) == 255 && f_mant(b) == (h_frac(h) as u32) * 8192
}

/// Single-precision bit pattern of the value of a half-precision pattern,
/// subnormals included: the same sign, the same finite magnitude, and
/// infinities and NaNs kept as such with their payload.
pub fn f16_para_f32_bits(h: u16) -> (b: u32)
    ensures
        converte(h, b),
{
    proof {
        lemma_campos_h(h);
        lemma2_to64();
    }
    let sinal = (h >> 15) as u32;
    let expo = ((h >> 10) & 0x1f) as u32;
    let frac = (h & 0x3ff) as u32;
    proof {
        lemma_desloca(frac);
    }
    if expo == 0 {
        if frac == 0 {
            proof {
                lemma_campos_f(sinal, 0, 0);
                assert((sinal << 31u32) | (0u32 << 23u32) | 0u32 == sinal << 31u32) by (bit_vector);
            }
            sinal << 31
        } else {
            // Subnormal: shift until the implicit bit appears, lowering the
            // exponent once per shift.
            let mut e: u32 = 113;
            let mut f: u32 = frac;
            proof {
                lemma_normaliza(f);
                assert(frac * pow2(0) == frac) by (nonlinear_arith)
                    requires
                        pow2(0) == 1,
                ;
            }
            while f & 0x400 == 0
                invariant
                    0 < frac < 0x400,
                    103 <= e <= 113,
                    0 < f < 0x800,
                    f == frac * pow2((113 - e) as nat),
                decreases 0x800 - f,
            {
                proof {
                    lemma_normaliza(f);
                    lemma2_to64();
                    lemma_pow2_unfold((114 - e) as nat);
                    if e == 103 {
                        lemma_pow2_strictly_increases(0, 10);
                        assert(f >= 1024) by (nonlinear_arith)
                            requires
                                f == frac * pow2(10),
                                frac >= 1,
                                pow2(10) == 1024,
                        ;
                    }
                }
                f = f << 1;
                e = e - 1;
                proof {
                    assert(f == frac * pow2((113 - e) as nat)) by (nonlinear_arith)
                        requires
                            f == 2 * (frac * pow2((112 - e) as nat)),
                            pow2((113 - e) as nat) == 2 * pow2((112 - e) as nat),
                    ;
                }
            }
            proof {
                lemma_normaliza(f);
                lemma_campos_f(sinal, e, (f & 0x3ff) << 13);
                lemma_pow2_adds((113 - e) as nat, e as nat);
                lemma_pow2_adds(13, 113);
                let m = (f - 1024) * 8192;
                assert((0x80_0000 + m) * pow2(e as nat) == (frac as int) * pow2(126)) by (
                nonlinear_arith)
                    requires
                        m == (f - 1024) * 8192,
                        f == frac * pow2((113 - e) as nat),
                        pow2(113) == pow2((113 - e) as nat) * pow2(e as nat),
                        pow2(126) == pow2(13) * pow2(113),
                        pow2(13) == 8192,
                ;
            }
            (sinal << 31) | (e << 23) | ((f & 0x3ff) << 13)
        }
    } else if expo == 31 {
        proof {
            lemma_campos_f(sinal, 255, frac << 13);
            assert(0x7f80_0000u32 == 255u32 << 23u32) by (bit_vector);
        }
        (sinal << 31) | 0x7f80_0000 | (frac << 13)
    } else {
        let ex = expo + 112;
        proof {
            lemma_campos_f(sinal, ex, frac << 13);
            lemma_pow2_adds(13, (expo + 112) as nat);
            assert((0x80_0000 + frac * 8192) * pow2((expo + 112) as nat) == (1024 + frac)
                * pow2((expo + 125) as nat)) by (nonlinear_arith)
                requires
                    pow2((expo + 125) as nat) == pow2(13) * pow2((expo + 112) as nat),
                    pow2(13) == 8192,
            ;
        }
        (sinal << 31) | (ex << 23) | (frac << 13)
    }
}

/// The two halves of a packed half-precision amplitude, real part in the
/// low half and imaginary part in the high half, as single-precision
/// patterns.
pub fn f16_par_para_f32_bits(w: u32) -> (r: (u32, u32))
    ensures
        converte(w as u16, r.0),
        converte((w >> 16u32) as u16, r.1),
{
    (f16_para_f32_bits(w as u16), f16_para_f32_bits((w >> 16) as u16))
}


/// `r` are the amplitudes, as single-precision bit patterns `(re, im)`, that
/// the words `w` of a state buffer stored in `p` hold: pairs of words in
/// single precision, packed halves of each word in half precision.
pub open spec fn amplitudes_de_palavras(p: Precisao, w: Seq<u32>, r: Seq<(u32, u32)>) -> bool {
    match p {
        Precisao::F32 => {
            &&& r.len() == w.len() / 2
            &&& forall|k: int| 0 <= k < r.len() ==> #[trigger] r[k] == (w[2 * k], w[2 * k + 1])
        },
        Precisao::F16 => {
            &&& r.len() == w.len()
            &&& forall|k: int|
                0 <= k < r.len() ==> converte(w[k] as u16, #[trigger] r[k].0) && converte(
                    (w[k] >> 16u32) as u16,
                    r[k].1,
                )
        },
    }
}

impl Estado {
    /// The amplitudes that the words of the state buffer hold, as pairs of
    /// single-precision bit patterns; half precision is widened.
    pub fn amplitudes_de(&self, palavras: &[u32]) -> (r: Vec<(u32, u32)>)
        ensures
            amplitudes_de_palavras(self.modo(), palavras@, r@),
    {
        let mut r: Vec<(u32, u32)> = Vec::new();
        match self.precisao {
            Precisao::F32 => {
                let len = palavras.len();
                let n = len / 2;
                let mut k: usize = 0;
                while k < n
                    invariant
                        k <= n,
                        len == palavras@.len(),
                        n == len / 2,
                        r@.len() == k,
                        forall|q: int|
                            0 <= q < k ==> #[trigger] r@[q] == (palavras@[2 * q], palavras@[2 * q
                                + 1]),
                    decreases n - k,
                {
                    r.push((palavras[2 * k], palavras[2 * k + 1]));
                    k = k + 1;
                }
            },
            Precisao::F16 => {
                let mut k: usize = 0;
                while k < palavras.len()
                    invariant
                        k <= palavras@.len(),
                        r@.len() == k,
                        forall|q: int|
                            0 <= q < k ==> converte(palavras@[q] as u16, #[trigger] r@[q].0)
                                && converte((palavras@[q] >> 16u32) as u16, r@[q].1),
                    decreases palavras@.len() - k,
                {
                    r.push(f16_par_para_f32_bits(palavras[k]));
                    k = k + 1;
                }
            },
        }
        r
    }

    /// The amplitudes that a mapped copy of the state buffer holds. Fails
    /// when the bytes do not make whole aligned words.
    pub fn baixar_de(&self, bytes: &[u8]) -> (r: Result<Vec<(u32, u32)>, ErroLeitura>)
        ensures
            r matches Ok(v) ==> exists|w: Seq<u32>|
                palavras32(bytes@, w) && amplitudes_de_palavras(self.modo(), w, v@),
            bytes@.len() % 4 != 0 ==> r is Err,
    {
        match palavras_u32(bytes) {
            Ok(w) => {
                let v = self.amplitudes_de(w.as_slice());
                Ok(v)
            },
            Err(e) => Err(e),
        }
    }
}

} // verus!
