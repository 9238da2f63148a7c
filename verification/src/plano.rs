//! Dispatch geometry of the GPU kernels, and the execution plan of a
//! multilayer perceptron trained on the GPU.
//!
//! A kernel needs a number of workgroups, folded into a grid whose
//! dimensions stay within the WebGPU limit of 65535. The training step of
//! an MLP is a fixed list of dispatches — forward pass, loss and backward
//! pass, Adam update — built once from the layer shapes: for each dispatch
//! the kernel, its uniform parameters, the buffers it binds and its grid.
//! The caller creates the buffers and bind groups that the plan names.

use vstd::prelude::*;

verus! {

/// Largest `x` dimension of a grid; larger counts fold into `y`.
pub const TETO_GRADE: usize = 32768;

/// `⌈a / b⌉`.
pub open spec fn teto_div(a: int, b: int) -> int {
    (a + b - 1) / b
}

/// `⌈a / b⌉` in machine integers.
pub fn div_teto(a: usize, b: usize) -> (r: usize)
    requires
        b > 0,
    ensures
        r == teto_div(a as int, b as int),
        r * b >= a,
        r * b < a + b,
{
    proof {
        vstd::arithmetic::div_mod::lemma_fundamental_div_mod(a + b - 1, b as int);
        vstd::arithmetic::div_mod::lemma_mod_bound(a + b - 1, b as int);
        let t = teto_div(a as int, b as int);
        assert(t * b >= a && t * b < a + b) by (nonlinear_arith)
            requires
                a + b - 1 == b * t + (a + b - 1) % (b as int),
                0 <= (a + b - 1) % (b as int) < b,
        ;
    }
    let q = a / b;
    if a % b == 0 {
        proof {
            vstd::arithmetic::div_mod::lemma_fundamental_div_mod(a as int, b as int);
            vstd::arithmetic::div_mod::lemma_fundamental_div_mod_converse(
                a + b - 1,
                b as int,
                q as int,
                b - 1,
            );
        }
        q
    } else {
        proof {
            vstd::arithmetic::div_mod::lemma_fundamental_div_mod(a as int, b as int);
            assert(b * (q + 1) == b * q + b) by (nonlinear_arith);
            vstd::arithmetic::mul::lemma_mul_is_commutative(b as int, (q + 1) as int);
            vstd::arithmetic::div_mod::lemma_fundamental_div_mod_converse(
                a + b - 1,
                b as int,
                q + 1,
                a % b - 1,
            );
            assert(q < usize::MAX) by (nonlinear_arith)
                requires
                    a == b * q + a % b,
                    a % b > 0,
                    b >= 1,
                    q >= 0,
                    a <= usize::MAX,
            ;
        }
        q + 1
    }
}

/// The grid of [`grade`].
pub open spec fn grade_spec(grupos: int) -> (u32, u32) {
    if grupos <= TETO_GRADE {
        (grupos as u32, 1u32)
    } else {
        (TETO_GRADE as u32, teto_div(grupos, TETO_GRADE as int) as u32)
    }
}

/// Splits `grupos` workgroups into a 2-D grid `(x, y)`: `x` alone up to
/// [`TETO_GRADE`], otherwise `x = TETO_GRADE` and `y = ⌈grupos / x⌉`. The
/// kernels receive `x` to rebuild the linear workgroup index.
pub fn grade(grupos: usize) -> (g: (u32, u32))
    ensures
        g == grade_spec(grupos as int),
        grupos <= TETO_GRADE * 65535 ==> {
            &&& g.0 <= 65535
            &&& g.1 <= 65535
            &&& g.0 * g.1 >= grupos
            &&& grupos > 0 ==> g.0 * g.1 < grupos + g.0
        },
{
    if grupos <= TETO_GRADE {
        (grupos as u32, 1)
    } else {
        let y = div_teto(grupos, TETO_GRADE);
        proof {
            let t = TETO_GRADE as int;
            vstd::arithmetic::div_mod::lemma_fundamental_div_mod(grupos + t - 1, t);
            vstd::arithmetic::div_mod::lemma_mod_bound(grupos + t - 1, t);
            if grupos <= TETO_GRADE * 65535 {
                vstd::arithmetic::div_mod::lemma_div_is_ordered(grupos + t - 1, t * 65536 - 1, t);
                vstd::arithmetic::div_mod::lemma_fundamental_div_mod_converse(
                    t * 65536 - 1,
                    t,
                    65535,
                    t - 1,
                );
            }
        }
        (TETO_GRADE as u32, y as u32)
    }
}


// ------------------------------------------------------------ the plan

/// A compiled compute kernel.
#[derive(Clone, Copy, Debug, PartialEq, Eq, Structural)]
pub enum Kernel {
    Mm,
    MmAtb,
    MmAbt,
    MmF,
    MmAtbF,
    MmAbtF,
    BiasAdd,
    Relu,
    ReluBwd,
    Xent,
    Colsum,
    Adam,
}

/// A buffer of the training plan; the index is the layer.
#[derive(Clone, Copy, Debug, PartialEq, Eq, Structural)]
pub enum Buf {
    /// The input batch `[lote, entradas]`.
    Entrada,
    /// The labels, one `u32` per row of the batch.
    Rotulos,
    /// The loss of each row, `[lote]`.
    Perda,
    W(usize),
    B(usize),
    Mw(usize),
    Vw(usize),
    Mb(usize),
    Vb(usize),
    Dw(usize),
    Db(usize),
    /// Partial column sums of the first reduction stage.
    Dbp(usize),
    Z(usize),
    A(usize),
    Delta(usize),
}

/// The uniform block of a dispatch. The floating-point fields of the Adam
/// block (learning rate, moments, bias correction) are the caller's.
#[derive(Clone, Copy, Debug, PartialEq, Eq, Structural)]
pub enum Uniforme {
    Dims { m: u32, n: u32, k: u32 },
    P4 { a: u32, b: u32, c: u32, d: u32 },
    Adam { n: u32, gx: u32 },
}

/// What a dispatch does, as reported by the profiler.
#[derive(Clone, Copy, Debug, PartialEq, Eq, Structural)]
pub enum Rotulo {
    Matmul,
    MatmulAtB,
    MatmulABt,
    BiasAdd,
    Relu,
    ReluBwd,
    SoftmaxXent,
    Colsum,
    Colsum1,
    Colsum2,
    Adam,
}

impl Rotulo {
    /// The characters of the label's text.
    pub open spec fn nome(self) -> Seq<char> {
        match self {
            Rotulo::Matmul => "matmul"@,
            Rotulo::MatmulAtB => "matmul_at_b"@,
            Rotulo::MatmulABt => "matmul_a_bt"@,
            Rotulo::BiasAdd => "bias_add"@,
            Rotulo::Relu => "relu"@,
            Rotulo::ReluBwd => "relu_bwd"@,
            Rotulo::SoftmaxXent => "softmax_xent"@,
            Rotulo::Colsum => "colsum"@,
            Rotulo::Colsum1 => "colsum_1"@,
            Rotulo::Colsum2 => "colsum_2"@,
            Rotulo::Adam => "adam"@,
        }
    }

    /// The label's text.
    pub fn texto(&self) -> (t: &'static str)
        ensures
            t@ == self.nome(),
    {
        match self {
            Rotulo::Matmul => "matmul",
            Rotulo::MatmulAtB => "matmul_at_b",
            Rotulo::MatmulABt => "matmul_a_bt",
            Rotulo::BiasAdd => "bias_add",
            Rotulo::Relu => "relu",
            Rotulo::ReluBwd => "relu_bwd",
            Rotulo::SoftmaxXent => "softmax_xent",
            Rotulo::Colsum => "colsum",
            Rotulo::Colsum1 => "colsum_1",
            Rotulo::Colsum2 => "colsum_2",
            Rotulo::Adam => "adam",
        }
    }
}

/// One dispatch: the uniform block is bound first, then the buffers in
/// order. `B` names a buffer: a [`Buf`] of a plan, or a handle of the
/// caller's.
#[derive(Clone, Debug)]
pub struct OpPlano<B> {
    pub kernel: Kernel,
    pub uniforme: Uniforme,
    pub buffers: Vec<B>,
    pub gx: u32,
    pub gy: u32,
    pub rotulo: Rotulo,
}

impl<B> View for OpPlano<B> {
    type V = (Kernel, Uniforme, Seq<B>, u32, u32, Rotulo);

    open spec fn view(&self) -> Self::V {
        (self.kernel, self.uniforme, self.buffers@, self.gx, self.gy, self.rotulo)
    }
}

/// Elementwise kernels run 256 invocations per workgroup.
pub const GRUPO_VETOR: usize = 256;

/// Rows summed by each invocation in the first stage of a column sum.
pub const BLOCO_REDUCAO: usize = 32;

/// Matrix product `C = op(A)·op(B)` of `[m, k]` by `[k, n]`: the tiled kernel
/// on `64 × 64` output tiles, or the plain one on `16 × 16`.
pub open spec fn mm_desc<B>(
    rapido: bool,
    lento: Kernel,
    veloz: Kernel,
    a: B,
    b: B,
    c: B,
    m: int,
    n: int,
    k: int,
    rotulo: Rotulo,
) -> (Kernel, Uniforme, Seq<B>, u32, u32, Rotulo) {
    let tile = if rapido {
        64int
    } else {
        16int
    };
    (
        if rapido {
            veloz
        } else {
            lento
        },
        Uniforme::Dims { m: m as u32, n: n as u32, k: k as u32 },
        seq![a, b, c],
        teto_div(n, tile) as u32,
        teto_div(m, tile) as u32,
        rotulo,
    )
}

/// An elementwise dispatch over `len` elements with the uniform
/// `(len, b, gx, 0)`.
pub open spec fn vetor_desc<B>(
    kernel: Kernel,
    len: int,
    b: int,
    bufs: Seq<B>,
    rotulo: Rotulo,
) -> (Kernel, Uniforme, Seq<B>, u32, u32, Rotulo) {
    let g = grade_spec(teto_div(len, GRUPO_VETOR as int));
    (kernel, Uniforme::P4 { a: len as u32, b: b as u32, c: g.0, d: 0 }, bufs, g.0, g.1, rotulo)
}

/// One stage of a column sum of `[rows, cols]`, each invocation summing
/// `chunk` rows of one column.
pub open spec fn colsum_desc<B>(
    src: B,
    dst: B,
    rows: int,
    cols: int,
    chunk: int,
    rotulo: Rotulo,
) -> (Kernel, Uniforme, Seq<B>, u32, u32, Rotulo) {
    (
        Kernel::Colsum,
        Uniforme::P4 { a: rows as u32, b: cols as u32, c: chunk as u32, d: 0 },
        seq![src, dst],
        teto_div(cols, 64) as u32,
        teto_div(rows, chunk) as u32,
        rotulo,
    )
}

/// An Adam update of a parameter of `len` elements.
pub open spec fn adam_desc<B>(
    g: B,
    theta: B,
    m: B,
    v: B,
    len: int,
) -> (Kernel, Uniforme, Seq<B>, u32, u32, Rotulo) {
    let gr = grade_spec(teto_div(len, GRUPO_VETOR as int));
    (
        Kernel::Adam,
        Uniforme::Adam { n: len as u32, gx: gr.0 },
        seq![g, theta, m, v],
        gr.0,
        gr.1,
        Rotulo::Adam,
    )
}

fn vec3<B: Copy>(a: B, b: B, c: B) -> (v: Vec<B>)
    ensures
        v@ == seq![a, b, c],
{
    let mut v: Vec<B> = Vec::new();
    v.push(a);
    v.push(b);
    v.push(c);
    proof {
        assert(v@ =~= seq![a, b, c]);
    }
    v
}

fn vec2<B: Copy>(a: B, b: B) -> (v: Vec<B>)
    ensures
        v@ == seq![a, b],
{
    let mut v: Vec<B> = Vec::new();
    v.push(a);
    v.push(b);
    proof {
        assert(v@ =~= seq![a, b]);
    }
    v
}

fn vec4<B: Copy>(a: B, b: B, c: B, d: B) -> (v: Vec<B>)
    ensures
        v@ == seq![a, b, c, d],
{
    let mut v: Vec<B> = Vec::new();
    v.push(a);
    v.push(b);
    v.push(c);
    v.push(d);
    proof {
        assert(v@ =~= seq![a, b, c, d]);
    }
    v
}

/// Dispatch of a matrix product of `[m, k]` by `[k, n]` into `c`.
pub fn op_mm<B: Copy>(
    rapido: bool,
    lento: Kernel,
    veloz: Kernel,
    a: B,
    b: B,
    c: B,
    m: usize,
    n: usize,
    k: usize,
    rotulo: Rotulo,
) -> (o: OpPlano<B>)
    ensures
        o@ == mm_desc(rapido, lento, veloz, a, b, c, m as int, n as int, k as int, rotulo),
{
    let (kernel, tile) = if rapido {
        (veloz, 64usize)
    } else {
        (lento, 16usize)
    };
    OpPlano {
        kernel,
        uniforme: Uniforme::Dims { m: m as u32, n: n as u32, k: k as u32 },
        buffers: vec3(a, b, c),
        gx: div_teto(n, tile) as u32,
        gy: div_teto(m, tile) as u32,
        rotulo,
    }
}

/// `C = A·B`, with `A` in `[m, k]` and `B` in `[k, n]`.
pub fn op_matmul<B: Copy>(rapido: bool, a: B, forma_a: (usize, usize), b: B, forma_b: (usize, usize), c: B) -> (o: OpPlano<B>)
    ensures
        o@ == mm_desc(
            rapido,
            Kernel::Mm,
            Kernel::MmF,
            a,
            b,
            c,
            forma_a.0 as int,
            forma_b.1 as int,
            forma_a.1 as int,
            Rotulo::Matmul,
        ),
{
    op_mm(rapido, Kernel::Mm, Kernel::MmF, a, b, c, forma_a.0, forma_b.1, forma_a.1, Rotulo::Matmul)
}

/// `C = Aᵀ·B`, with `A` stored as `[k, m]`: the weight gradient `Xᵀδ`.
pub fn op_matmul_at_b<B: Copy>(rapido: bool, a: B, forma_a: (usize, usize), b: B, forma_b: (usize, usize), c: B) -> (o: OpPlano<B>)
    ensures
        o@ == mm_desc(
            rapido,
            Kernel::MmAtb,
            Kernel::MmAtbF,
            a,
            b,
            c,
            forma_a.1 as int,
            forma_b.1 as int,
            forma_a.0 as int,
            Rotulo::MatmulAtB,
        ),
{
    op_mm(
        rapido,
        Kernel::MmAtb,
        Kernel::MmAtbF,
        a,
        b,
        c,
        forma_a.1,
        forma_b.1,
        forma_a.0,
        Rotulo::MatmulAtB,
    )
}

/// `C = A·Bᵀ`, with `B` stored as `[n, k]`: the input gradient `δWᵀ`.
pub fn op_matmul_a_bt<B: Copy>(rapido: bool, a: B, forma_a: (usize, usize), b: B, forma_b: (usize, usize), c: B) -> (o: OpPlano<B>)
    ensures
        o@ == mm_desc(
            rapido,
            Kernel::MmAbt,
            Kernel::MmAbtF,
            a,
            b,
            c,
            forma_a.0 as int,
            forma_b.0 as int,
            forma_a.1 as int,
            Rotulo::MatmulABt,
        ),
{
    op_mm(
        rapido,
        Kernel::MmAbt,
        Kernel::MmAbtF,
        a,
        b,
        c,
        forma_a.0,
        forma_b.0,
        forma_a.1,
        Rotulo::MatmulABt,
    )
}

fn op_vetor<B: Copy>(kernel: Kernel, len: usize, b: usize, buffers: Vec<B>, rotulo: Rotulo) -> (o: OpPlano<B>)
    ensures
        o@ == vetor_desc(kernel, len as int, b as int, buffers@, rotulo),
{
    let (gx, gy) = grade(div_teto(len, GRUPO_VETOR));
    OpPlano { kernel, uniforme: Uniforme::P4 { a: len as u32, b: b as u32, c: gx, d: 0 }, buffers, gx, gy, rotulo }
}

/// `Z ← Z + 1ₙb`, for `Z` of `len_z` elements and the row `b` of `len_b`.
pub fn op_bias_add<B: Copy>(z: B, len_z: usize, b: B, len_b: usize) -> (o: OpPlano<B>)
    ensures
        o@ == vetor_desc(Kernel::BiasAdd, len_z as int, len_b as int, seq![b, z], Rotulo::BiasAdd),
{
    op_vetor(Kernel::BiasAdd, len_z, len_b, vec2(b, z), Rotulo::BiasAdd)
}

/// `Y = max(X, 0)` over `len` elements.
pub fn op_relu<B: Copy>(x: B, y: B, len: usize) -> (o: OpPlano<B>)
    ensures
        o@ == vetor_desc(Kernel::Relu, len as int, 0, seq![x, y], Rotulo::Relu),
{
    op_vetor(Kernel::Relu, len, 0, vec2(x, y), Rotulo::Relu)
}

/// `δ ← δ ⊙ 1[Z > 0]` over `len` elements, in place on `dz`.
pub fn op_relu_bwd<B: Copy>(z: B, dz: B, len: usize) -> (o: OpPlano<B>)
    ensures
        o@ == vetor_desc(Kernel::ReluBwd, len as int, 0, seq![z, dz], Rotulo::ReluBwd),
{
    op_vetor(Kernel::ReluBwd, len, 0, vec2(z, dz), Rotulo::ReluBwd)
}

/// Softmax and cross-entropy fused over `rows × cols` logits, 64 rows per
/// workgroup along `x` only.
pub fn op_softmax_xent<B: Copy>(logits: B, rows: usize, cols: usize, labels: B, delta: B, loss: B) -> (o: OpPlano<B>)
    requires
        teto_div(rows as int, 64) <= 65535,
    ensures
        o@ == (
            Kernel::Xent,
            Uniforme::P4 { a: rows as u32, b: cols as u32, c: 0u32, d: 0u32 },
            seq![logits, labels, delta, loss],
            teto_div(rows as int, 64) as u32,
            1u32,
            Rotulo::SoftmaxXent,
        ),
{
    OpPlano {
        kernel: Kernel::Xent,
        uniforme: Uniforme::P4 { a: rows as u32, b: cols as u32, c: 0, d: 0 },
        buffers: vec4(logits, labels, delta, loss),
        gx: div_teto(rows, 64) as u32,
        gy: 1,
        rotulo: Rotulo::SoftmaxXent,
    }
}

/// Partial sums that the first stage of a column sum leaves for `rows`
/// rows.
pub fn particoes(rows: usize) -> (p: usize)
    ensures
        p == teto_div(rows as int, BLOCO_REDUCAO as int),
{
    div_teto(rows, BLOCO_REDUCAO)
}

fn op_colsum_estagio<B: Copy>(src: B, dst: B, rows: usize, cols: usize, chunk: usize, rotulo: Rotulo) -> (o: OpPlano<B>)
    requires
        chunk > 0,
    ensures
        o@ == colsum_desc(src, dst, rows as int, cols as int, chunk as int, rotulo),
{
    OpPlano {
        kernel: Kernel::Colsum,
        uniforme: Uniforme::P4 { a: rows as u32, b: cols as u32, c: chunk as u32, d: 0 },
        buffers: vec2(src, dst),
        gx: div_teto(cols, 64) as u32,
        gy: div_teto(rows, chunk) as u32,
        rotulo,
    }
}

/// The stages of `dst = 1ₙᵀ src` for `src` in `[rows, cols]`: one when the
/// rows fit one block, otherwise a first stage into `scratch` and a second
/// over the partial sums.
pub open spec fn colsum_descs<B>(
    src: B,
    dst: B,
    scratch: B,
    rows: int,
    cols: int,
) -> Seq<(Kernel, Uniforme, Seq<B>, u32, u32, Rotulo)> {
    if rows <= BLOCO_REDUCAO {
        seq![colsum_desc(src, dst, rows, cols, rows, Rotulo::Colsum)]
    } else {
        let partes = teto_div(rows, BLOCO_REDUCAO as int);
        seq![
            colsum_desc(src, scratch, rows, cols, BLOCO_REDUCAO as int, Rotulo::Colsum1),
            colsum_desc(scratch, dst, partes, cols, partes, Rotulo::Colsum2),
        ]
    }
}

/// Dispatches of a column sum, appended to `ops`.
pub fn ops_colsum<B: Copy>(ops: &mut Vec<OpPlano<B>>, src: B, dst: B, scratch: B, rows: usize, cols: usize)
    requires
        rows > 0,
    ensures
        final(ops)@.len() == old(ops)@.len() + colsum_descs(src, dst, scratch, rows as int, cols as int).len(),
        forall|t: int| 0 <= t < old(ops)@.len() ==> #[trigger] final(ops)@[t] == old(ops)@[t],
        forall|t: int|
            0 <= t < colsum_descs(src, dst, scratch, rows as int, cols as int).len() ==> #[trigger] final(ops)@[old(ops)@.len() + t]@
                == colsum_descs(src, dst, scratch, rows as int, cols as int)[t],
{
    if rows <= BLOCO_REDUCAO {
        ops.push(op_colsum_estagio(src, dst, rows, cols, rows, Rotulo::Colsum));
    } else {
        let partes = particoes(rows);
        ops.push(op_colsum_estagio(src, scratch, rows, cols, BLOCO_REDUCAO, Rotulo::Colsum1));
        proof {
            assert(partes > 0) by {
                vstd::arithmetic::div_mod::lemma_div_pos_is_pos(rows + 31, 32);
            }
        }
        ops.push(op_colsum_estagio(scratch, dst, partes, cols, partes, Rotulo::Colsum2));
    }
}

/// Fused Adam update of the parameter `theta` of `len` elements, with
/// moments `m`, `v` and gradient `g`.
pub fn op_adam<B: Copy>(g: B, theta: B, m: B, v: B, len: usize) -> (o: OpPlano<B>)
    ensures
        o@ == adam_desc(g, theta, m, v, len as int),
{
    let (gx, gy) = grade(div_teto(len, GRUPO_VETOR));
    OpPlano {
        kernel: Kernel::Adam,
        uniforme: Uniforme::Adam { n: len as u32, gx },
        buffers: vec4(g, theta, m, v),
        gx,
        gy,
        rotulo: Rotulo::Adam,
    }
}


// ------------------------------------------------------------ MLP plan

/// Width of the input of layer `i`: the batch features for the first
/// layer, the units of the previous layer otherwise.
pub open spec fn largura_entrada(cs: Seq<(usize, usize)>, i: int) -> int {
    if i == 0 {
        cs[0].0 as int
    } else {
        cs[i - 1].1 as int
    }
}

/// The buffer that layer `i` reads: the batch, or the activation of the
/// previous layer.
pub open spec fn entrada(i: int) -> Buf {
    if i == 0 {
        Buf::Entrada
    } else {
        Buf::A((i - 1) as usize)
    }
}

/// Dispatch `t` of the forward pass: for each layer `Z = XW`, `Z += 1b`,
/// and `A = relu(Z)` except on the last layer, whose logits stay in `Z`.
pub open spec fn fwd_desc(cs: Seq<(usize, usize)>, lote: int, rapido: bool, t: int) -> (
    Kernel,
    Uniforme,
    Seq<Buf>,
    u32,
    u32,
    Rotulo,
) {
    let i = t / 3;
    let u = cs[i].1 as int;
    let iu = i as usize;
    if t % 3 == 0 {
        mm_desc(
            rapido,
            Kernel::Mm,
            Kernel::MmF,
            entrada(i),
            Buf::W(iu),
            Buf::Z(iu),
            lote,
            u,
            largura_entrada(cs, i),
            Rotulo::Matmul,
        )
    } else if t % 3 == 1 {
        vetor_desc(Kernel::BiasAdd, lote * u, u, seq![Buf::B(iu), Buf::Z(iu)], Rotulo::BiasAdd)
    } else {
        vetor_desc(Kernel::Relu, lote * u, 0, seq![Buf::Z(iu), Buf::A(iu)], Rotulo::Relu)
    }
}

/// Stages of a column sum over the batch.
pub open spec fn estagios(lote: int) -> int {
    if lote <= BLOCO_REDUCAO {
        1
    } else {
        2
    }
}

/// Dispatches of the backward pass of each layer but the first.
pub open spec fn bloco_bwd(lote: int) -> int {
    3 + estagios(lote)
}

/// Dispatch `t` of the loss and backward pass: the fused softmax and
/// cross-entropy first, then the layers from the last down, each with its
/// weight gradient `Xᵀδ`, its bias gradient `1ᵀδ` and, below the first
/// layer, the gradient `δWᵀ` of its input masked by `relu`.
pub open spec fn bwd_desc(cs: Seq<(usize, usize)>, lote: int, rapido: bool, t: int) -> (
    Kernel,
    Uniforme,
    Seq<Buf>,
    u32,
    u32,
    Rotulo,
) {
    let l = cs.len() as int;
    if t == 0 {
        let ul = (l - 1) as usize;
        (
            Kernel::Xent,
            Uniforme::P4 { a: lote as u32, b: cs[l - 1].1 as u32, c: 0u32, d: 0u32 },
            seq![Buf::Z(ul), Buf::Rotulos, Buf::Delta(ul), Buf::Perda],
            teto_div(lote, 64) as u32,
            1u32,
            Rotulo::SoftmaxXent,
        )
    } else {
        let b = bloco_bwd(lote);
        let i = l - 1 - (t - 1) / b;
        let o = (t - 1) % b;
        let iu = i as usize;
        let u = cs[i].1 as int;
        if o == 0 {
            mm_desc(
                rapido,
                Kernel::MmAtb,
                Kernel::MmAtbF,
                entrada(i),
                Buf::Delta(iu),
                Buf::Dw(iu),
                largura_entrada(cs, i),
                u,
                lote,
                Rotulo::MatmulAtB,
            )
        } else if o <= estagios(lote) {
            colsum_descs(Buf::Delta(iu), Buf::Db(iu), Buf::Dbp(iu), lote, u)[o - 1]
        } else if o == estagios(lote) + 1 {
            mm_desc(
                rapido,
                Kernel::MmAbt,
                Kernel::MmAbtF,
                Buf::Delta(iu),
                Buf::W(iu),
                Buf::Delta((i - 1) as usize),
                lote,
                cs[i].0 as int,
                u,
                Rotulo::MatmulABt,
            )
        } else {
            vetor_desc(
                Kernel::ReluBwd,
                lote * (cs[i - 1].1 as int),
                0,
                seq![Buf::Z((i - 1) as usize), Buf::Delta((i - 1) as usize)],
                Rotulo::ReluBwd,
            )
        }
    }
}

/// Dispatch `t` of the Adam update: the weights, then the bias, of each
/// layer in order.
pub open spec fn adam_plano_desc(cs: Seq<(usize, usize)>, t: int) -> (
    Kernel,
    Uniforme,
    Seq<Buf>,
    u32,
    u32,
    Rotulo,
) {
    let i = t / 2;
    let iu = i as usize;
    if t % 2 == 0 {
        adam_desc(
            Buf::Dw(iu),
            Buf::W(iu),
            Buf::Mw(iu),
            Buf::Vw(iu),
            (cs[i].0 as int) * (cs[i].1 as int),
        )
    } else {
        adam_desc(Buf::Db(iu), Buf::B(iu), Buf::Mb(iu), Buf::Vb(iu), cs[i].1 as int)
    }
}

/// The layer shapes and batch size that a plan can be built for: at least
/// one layer and one row, every buffer size and the count of dispatches of
/// a step (at most `10L − 2` for `L` layers) fit a `usize`, and the loss
/// dispatch fits one grid row.
pub open spec fn plano_valido(cs: Seq<(usize, usize)>, lote: int) -> bool {
    &&& cs.len() >= 1
    &&& 10 * cs.len() <= usize::MAX + 2
    &&& lote >= 1
    &&& teto_div(lote, 64) <= 65535
    &&& lote * (cs[0].0 as int) <= usize::MAX
    &&& forall|i: int|
        0 <= i < cs.len() ==> {
            &&& lote * (#[trigger] cs[i].1 as int) <= usize::MAX
            &&& (cs[i].0 as int) * (cs[i].1 as int) <= usize::MAX
        }
}

/// The dispatches of one training step of an MLP with `relu` on the hidden
/// layers and softmax with cross-entropy at the output.
pub struct PlanoMlp {
    pub camadas: Vec<(usize, usize)>,
    pub lote: usize,
    pub fwd: Vec<OpPlano<Buf>>,
    pub bwd: Vec<OpPlano<Buf>>,
    pub adam: Vec<OpPlano<Buf>>,
}

impl PlanoMlp {
    /// The plan for layers `camadas[i] = (inputs, units)`, the shape of
    /// `Wᵢ`, and batches of `lote` rows; `rapido` picks the tiled GEMM.
    #[verifier::spinoff_prover]
    pub fn planejar(camadas: &[(usize, usize)], lote: usize, rapido: bool) -> (p: PlanoMlp)
        requires
            plano_valido(camadas@, lote as int),
        ensures
            p.camadas@ == camadas@,
            p.lote == lote,
            p.fwd@.len() == 3 * camadas@.len() - 1,
            forall|t: int|
                0 <= t < p.fwd@.len() ==> #[trigger] p.fwd@[t]@ == fwd_desc(
                    camadas@,
                    lote as int,
                    rapido,
                    t,
                ),
            p.bwd@.len() == 1 + (camadas@.len() - 1) * bloco_bwd(lote as int) + 1 + estagios(
                lote as int,
            ),
            forall|t: int|
                0 <= t < p.bwd@.len() ==> #[trigger] p.bwd@[t]@ == bwd_desc(
                    camadas@,
                    lote as int,
                    rapido,
                    t,
                ),
            p.adam@.len() == 2 * camadas@.len(),
            forall|t: int|
                0 <= t < p.adam@.len() ==> #[trigger] p.adam@[t]@ == adam_plano_desc(camadas@, t),
            forall|t: int|
                0 <= t < p.fwd@.len() ==> coerente(camadas@, lote as int, #[trigger] p.fwd@[t]@),
            forall|t: int|
                0 <= t < p.bwd@.len() ==> coerente(camadas@, lote as int, #[trigger] p.bwd@[t]@),
            forall|t: int|
                0 <= t < p.adam@.len() ==> coerente(camadas@, lote as int, #[trigger] p.adam@[t]@),
    {
        let l = camadas.len();
        let ultima = l - 1;
        let ghost cs = camadas@;
        // ------------------------------------------------------- forward
        let mut fwd: Vec<OpPlano<Buf>> = Vec::new();
        let mut i: usize = 0;
        while i < l
            invariant
                cs == camadas@,
                l == cs.len(),
                ultima == l - 1,
                plano_valido(cs, lote as int),
                i <= l,
                i < l ==> fwd@.len() == 3 * i,
                i == l ==> fwd@.len() == 3 * l - 1,
                forall|t: int|
                    0 <= t < fwd@.len() ==> #[trigger] fwd@[t]@ == fwd_desc(
                        cs,
                        lote as int,
                        rapido,
                        t,
                    ),
            decreases l - i,
        {
            let (e, u) = camadas[i];
            let k = if i == 0 {
                camadas[0].0
            } else {
                camadas[i - 1].1
            };
            let ent = if i == 0 {
                Buf::Entrada
            } else {
                Buf::A(i - 1)
            };
            proof {
                assert(lote * (cs[i as int].1 as int) <= usize::MAX);
            }
            let lu = lote * u;
            let base = fwd.len();
            fwd.push(op_matmul(rapido, ent, (lote, k), Buf::W(i), (e, u), Buf::Z(i)));
            fwd.push(op_bias_add(Buf::Z(i), lu, Buf::B(i), u));
            if i < ultima {
                fwd.push(op_relu(Buf::Z(i), Buf::A(i), lu));
            }
            proof {
                assert(fwd@[base as int]@ == fwd_desc(cs, lote as int, rapido, base as int));
                assert(fwd@[base + 1]@ == fwd_desc(cs, lote as int, rapido, base + 1));
                if i < ultima {
                    assert(fwd@[base + 2]@ == fwd_desc(cs, lote as int, rapido, base + 2));
                }
            }
            i = i + 1;
        }
        // ------------------------------------------------ loss and backward
        let ghost nb = bloco_bwd(lote as int);
        let mut bwd: Vec<OpPlano<Buf>> = Vec::new();
        bwd.push(
            op_softmax_xent(
                Buf::Z(ultima),
                lote,
                camadas[ultima].1,
                Buf::Rotulos,
                Buf::Delta(ultima),
                Buf::Perda,
            ),
        );
        let mut r: usize = l;
        proof {
            assert((l - r) * nb == 0) by (nonlinear_arith)
                requires
                    l == r,
            ;
        }
        while r > 0
            invariant
                cs == camadas@,
                l == cs.len(),
                ultima == l - 1,
                plano_valido(cs, lote as int),
                nb == bloco_bwd(lote as int),
                r <= l,
                nb > 0,
                r > 0 ==> bwd@.len() == 1 + (l - r) * nb,
                r == 0 ==> bwd@.len() == 1 + (l - 1) * nb + 1 + estagios(lote as int),
                forall|t: int|
                    0 <= t < bwd@.len() ==> #[trigger] bwd@[t]@ == bwd_desc(
                        cs,
                        lote as int,
                        rapido,
                        t,
                    ),
            decreases r,
        {
            let i = r - 1;
            let (e, u) = camadas[i];
            let k = if i == 0 {
                camadas[0].0
            } else {
                camadas[i - 1].1
            };
            let ent = if i == 0 {
                Buf::Entrada
            } else {
                Buf::A(i - 1)
            };
            let base = bwd.len();
            let ghost old_bwd = bwd@;
            proof {
                lemma_bloco(base as int, l as int, i as int, lote as int);
            }
            bwd.push(op_matmul_at_b(rapido, ent, (lote, k), Buf::Delta(i), (lote, u), Buf::Dw(i)));
            let ghost b1 = bwd@;
            ops_colsum(&mut bwd, Buf::Delta(i), Buf::Db(i), Buf::Dbp(i), lote, u);
            let ghost b2 = bwd@;
            let ghost est = estagios(lote as int);
            let ghost cd = colsum_descs(Buf::Delta(i), Buf::Db(i), Buf::Dbp(i), lote as int, u as int);
            if i > 0 {
                let up = camadas[i - 1].1;
                proof {
                    assert(lote * (cs[i - 1].1 as int) <= usize::MAX);
                }
                bwd.push(op_matmul_a_bt(rapido, Buf::Delta(i), (lote, u), Buf::W(i), (e, u), Buf::Delta(i - 1)));
                bwd.push(op_relu_bwd(Buf::Z(i - 1), Buf::Delta(i - 1), lote * up));
            }
            proof {
                assert(cd.len() == est);
                assert(b2.len() == base + 1 + est);
                assert forall|t: int| 0 <= t < bwd@.len() implies #[trigger] bwd@[t]@ == bwd_desc(
                    cs,
                    lote as int,
                    rapido,
                    t,
                ) by {
                    if t >= base {
                        lemma_bloco(t, l as int, i as int, lote as int);
                        let o = t - base;
                        if o == 0 {
                            assert(bwd@[t] == b2[t]);
                            assert(b2[t] == b1[t]);
                        } else if o <= est {
                            assert(bwd@[t] == b2[t]);
                            assert(b2[b1.len() + (o - 1)]@ == cd[o - 1]);
                        }
                    } else {
                        assert(bwd@[t] == b2[t]);
                        assert(b2[t] == b1[t]);
                        assert(b1[t] == old_bwd[t]);
                    }
                }
            }
            proof {
                if i > 0 {
                    assert(bwd@.len() == base + nb);
                    assert((l - i) * nb == (l - 1 - i) * nb + nb) by (nonlinear_arith);
                }
            }
            r = r - 1;
        }
        // ------------------------------------------------------------ Adam
        let mut adam: Vec<OpPlano<Buf>> = Vec::new();
        let mut j: usize = 0;
        while j < l
            invariant
                cs == camadas@,
                l == cs.len(),
                plano_valido(cs, lote as int),
                j <= l,
                adam@.len() == 2 * j,
                forall|t: int|
                    0 <= t < adam@.len() ==> #[trigger] adam@[t]@ == adam_plano_desc(cs, t),
            decreases l - j,
        {
            let (e, u) = camadas[j];
            proof {
                assert((cs[j as int].0 as int) * (cs[j as int].1 as int) <= usize::MAX);
            }
            adam.push(op_adam(Buf::Dw(j), Buf::W(j), Buf::Mw(j), Buf::Vw(j), e * u));
            adam.push(op_adam(Buf::Db(j), Buf::B(j), Buf::Mb(j), Buf::Vb(j), u));
            j = j + 1;
        }
        proof {
            assert forall|t: int| 0 <= t < fwd@.len() implies coerente(
                cs,
                lote as int,
                #[trigger] fwd@[t]@,
            ) by {
                lemma_fwd_coerente(cs, lote as int, rapido, t);
            }
            assert forall|t: int| 0 <= t < bwd@.len() implies coerente(
                cs,
                lote as int,
                #[trigger] bwd@[t]@,
            ) by {
                lemma_bwd_coerente(cs, lote as int, rapido, t);
            }
            assert forall|t: int| 0 <= t < adam@.len() implies coerente(
                cs,
                lote as int,
                #[trigger] adam@[t]@,
            ) by {
                lemma_adam_coerente(cs, lote as int, t);
            }
        }
        PlanoMlp { camadas: crate::tensor::copy_slice(camadas), lote, fwd, bwd, adam }
    }

    /// Dispatches per training step.
    pub fn dispatches_por_passo(&self) -> (n: usize)
        requires
            self.fwd@.len() + self.bwd@.len() + self.adam@.len() <= usize::MAX,
        ensures
            n == self.fwd@.len() + self.bwd@.len() + self.adam@.len(),
    {
        self.fwd.len() + self.bwd.len() + self.adam.len()
    }
}

/// Dispatch `t` of the backward pass lies in the block of layer `i` when
/// it is past the loss and the blocks of the layers above `i`.
proof fn lemma_bloco(t: int, l: int, i: int, lote: int)
    requires
        0 <= i < l,
        1 + (l - 1 - i) * bloco_bwd(lote) <= t,
        t - (1 + (l - 1 - i) * bloco_bwd(lote)) < bloco_bwd(lote),
    ensures
        (t - 1) / bloco_bwd(lote) == l - 1 - i,
        (t - 1) % bloco_bwd(lote) == t - 1 - (l - 1 - i) * bloco_bwd(lote),
{
    let b = bloco_bwd(lote);
    vstd::arithmetic::div_mod::lemma_fundamental_div_mod_converse(
        t - 1,
        b,
        l - 1 - i,
        t - 1 - (l - 1 - i) * b,
    );
}


/// Shape of each buffer of the plan of the layers `cs` for batches of
/// `lote` rows; `None` for a layer the plan does not have.
pub open spec fn forma_buf(cs: Seq<(usize, usize)>, lote: int, b: Buf) -> Option<Seq<usize>> {
    let camada = |i: usize, f: Seq<usize>|
        if i < cs.len() {
            Some(f)
        } else {
            None
        };
    match b {
        Buf::Entrada => Some(seq![lote as usize, cs[0].0]),
        Buf::Rotulos => Some(seq![lote as usize]),
        Buf::Perda => Some(seq![lote as usize]),
        Buf::W(i) => camada(i, seq![cs[i as int].0, cs[i as int].1]),
        Buf::Mw(i) => camada(i, seq![cs[i as int].0, cs[i as int].1]),
        Buf::Vw(i) => camada(i, seq![cs[i as int].0, cs[i as int].1]),
        Buf::Dw(i) => camada(i, seq![cs[i as int].0, cs[i as int].1]),
        Buf::B(i) => camada(i, seq![1usize, cs[i as int].1]),
        Buf::Mb(i) => camada(i, seq![1usize, cs[i as int].1]),
        Buf::Vb(i) => camada(i, seq![1usize, cs[i as int].1]),
        Buf::Db(i) => camada(i, seq![1usize, cs[i as int].1]),
        Buf::Dbp(i) => camada(
            i,
            seq![teto_div(lote, BLOCO_REDUCAO as int) as usize, cs[i as int].1],
        ),
        Buf::Z(i) => camada(i, seq![lote as usize, cs[i as int].1]),
        Buf::A(i) => camada(i, seq![lote as usize, cs[i as int].1]),
        Buf::Delta(i) => camada(i, seq![lote as usize, cs[i as int].1]),
    }
}

/// The buffer has the shape `[x, y]`, each extent taken modulo `2³²` as a
/// uniform holds it.
pub open spec fn dims(s: Option<Seq<usize>>, x: u32, y: u32) -> bool {
    &&& s is Some
    &&& s->0.len() == 2
    &&& s->0[0] as u32 == x
    &&& s->0[1] as u32 == y
}

/// The buffer is a matrix with `y` columns (modulo `2³²`).
pub open spec fn colunas(s: Option<Seq<usize>>, y: u32) -> bool {
    s is Some && s->0.len() == 2 && s->0[1] as u32 == y
}

/// The buffer is a matrix with `x` rows (modulo `2³²`).
pub open spec fn linhas(s: Option<Seq<usize>>, x: u32) -> bool {
    s is Some && s->0.len() == 2 && s->0[0] as u32 == x
}

/// The buffer holds `n` elements (modulo `2³²`).
pub open spec fn elementos(s: Option<Seq<usize>>, n: u32) -> bool {
    &&& s is Some
    &&& (s->0.len() == 1 && s->0[0] as u32 == n) || (s->0.len() == 2 && ((s->0[0] as int) * (
        s->0[1] as int)) as u32 == n)
}

/// Elements of a buffer of shape `s`.
pub open spec fn n_elem(s: Option<Seq<usize>>) -> int {
    if s is Some && s->0.len() == 1 {
        s->0[0] as int
    } else if s is Some && s->0.len() == 2 {
        (s->0[0] as int) * (s->0[1] as int)
    } else {
        0
    }
}

/// Extent `k` of a buffer of shape `s`.
pub open spec fn extent(s: Option<Seq<usize>>, k: int) -> int {
    s->0[k] as int
}

/// A grid `(gx, gy)` of workgroups of `por` invocations reaches all `n`
/// elements, whenever `n` is within what a grid can hold.
pub open spec fn cobre(gx: u32, gy: u32, por: int, n: int) -> bool {
    n <= TETO_GRADE * 65535 * por ==> (gx as int) * (gy as int) * por >= n
}

/// `g` tiles of `tile` reach `x`, whenever their count fits a `u32`.
pub open spec fn cobre_dim(g: u32, tile: int, x: int) -> bool {
    teto_div(x, tile) <= u32::MAX ==> (g as int) * tile >= x
}

/// Output tile side of a product kernel: 64 for the tiled ones, 16 for the
/// plain ones.
pub open spec fn ladrilho(k: Kernel) -> int {
    match k {
        Kernel::MmF | Kernel::MmAtbF | Kernel::MmAbtF => 64,
        _ => 16,
    }
}

/// A grid of `⌈n / por⌉` workgroups reaches all `n` elements.
pub proof fn lemma_grade_cobre(n: int, por: int)
    requires
        0 <= n,
        por > 0,
    ensures
        cobre(grade_spec(teto_div(n, por)).0, grade_spec(teto_div(n, por)).1, por, n),
{
    let grupos = teto_div(n, por);
    vstd::arithmetic::div_mod::lemma_fundamental_div_mod(n + por - 1, por);
    vstd::arithmetic::div_mod::lemma_mod_bound(n + por - 1, por);
    assert(grupos * por >= n) by (nonlinear_arith)
        requires
            n + por - 1 == por * grupos + (n + por - 1) % por,
            (n + por - 1) % por < por,
    ;
    if n <= TETO_GRADE * 65535 * por {
        assert(grupos <= TETO_GRADE * 65535) by {
            vstd::arithmetic::div_mod::lemma_div_is_ordered(n + por - 1, TETO_GRADE * 65535 * por + por - 1, por);
            vstd::arithmetic::div_mod::lemma_fundamental_div_mod_converse(
                TETO_GRADE * 65535 * por + por - 1,
                por,
                TETO_GRADE * 65535,
                por - 1,
            );
        }
        let t = TETO_GRADE as int;
        assert(grupos >= 0) by {
            vstd::arithmetic::div_mod::lemma_div_pos_is_pos(n + por - 1, por);
        }
        if grupos > t {
            vstd::arithmetic::div_mod::lemma_fundamental_div_mod(grupos + t - 1, t);
            vstd::arithmetic::div_mod::lemma_mod_bound(grupos + t - 1, t);
            vstd::arithmetic::div_mod::lemma_div_is_ordered(grupos + t - 1, t * 65536 - 1, t);
            vstd::arithmetic::div_mod::lemma_fundamental_div_mod_converse(t * 65536 - 1, t, 65535, t - 1);
            let y = teto_div(grupos, t);
            assert(t * y >= grupos) by (nonlinear_arith)
                requires
                    grupos + t - 1 == t * y + (grupos + t - 1) % t,
                    (grupos + t - 1) % t < t,
            ;
            assert(y <= 65535);
            assert((grade_spec(grupos).0 as int) == t);
            assert((grade_spec(grupos).1 as int) == y);
            assert(t * y * por >= grupos * por) by (nonlinear_arith)
                requires
                    t * y >= grupos,
                    por > 0,
            ;
        } else {
            assert((grade_spec(grupos).0 as int) == grupos);
            assert((grade_spec(grupos).1 as int) == 1);
        }
    }
}

/// `⌈x / tile⌉` tiles of `tile` reach `x`.
pub proof fn lemma_teto_cobre(x: int, tile: int)
    requires
        0 <= x,
        tile > 0,
    ensures
        cobre_dim(teto_div(x, tile) as u32, tile, x),
{
    vstd::arithmetic::div_mod::lemma_fundamental_div_mod(x + tile - 1, tile);
    vstd::arithmetic::div_mod::lemma_mod_bound(x + tile - 1, tile);
    vstd::arithmetic::div_mod::lemma_div_pos_is_pos(x + tile - 1, tile);
    let g = teto_div(x, tile);
    assert(g * tile >= x) by (nonlinear_arith)
        requires
            x + tile - 1 == tile * g + (x + tile - 1) % tile,
            (x + tile - 1) % tile < tile,
    ;
}

/// A dispatch of the plan of the layers `cs` for batches of `lote` rows
/// agrees with the buffers it binds, whose shapes [`forma_buf`] gives:
/// - a product `C = op(A)·op(B)` with uniform `(m, n, k)` reads `A` as
///   `[m, k]` (`[k, m]` when transposed), `B` with `n` columns (`[k, n]`,
///   or `[n, k]` when transposed) and writes `m` rows;
/// - the bias addition runs over every element of `Z` and is told the
///   length of the bias it binds;
/// - `relu` and its gradient run over every element of both buffers;
/// - the loss reads `[rows, classes]` logits and one label and one loss per
///   row;
/// - a column-sum stage reads `[rows, cols]` and writes `cols` columns of
///   the partial sums, one row per chunk;
/// - an Adam update runs over every element of the gradient, the parameter
///   and both moments;
/// - and the grid reaches every output: every tile of a product, every
///   element of an elementwise or Adam dispatch (which also gets the grid's
///   width in its uniform), every row of the loss, every column and chunk
///   of a column sum.
pub open spec fn coerente(
    cs: Seq<(usize, usize)>,
    lote: int,
    d: (Kernel, Uniforme, Seq<Buf>, u32, u32, Rotulo),
) -> bool {
    let bs = d.2;
    match d.1 {
        Uniforme::Dims { m, n, k } => bs.len() == 3 && match d.0 {
            Kernel::Mm | Kernel::MmF => {
                &&& dims(forma_buf(cs, lote, bs[0]), m, k)
                &&& colunas(forma_buf(cs, lote, bs[1]), n)
                &&& dims(forma_buf(cs, lote, bs[2]), m, n)
                &&& cobre_dim(d.3, ladrilho(d.0), extent(forma_buf(cs, lote, bs[2]), 1))
                &&& cobre_dim(d.4, ladrilho(d.0), extent(forma_buf(cs, lote, bs[0]), 0))
            },
            Kernel::MmAtb | Kernel::MmAtbF => {
                &&& dims(forma_buf(cs, lote, bs[0]), k, m)
                &&& dims(forma_buf(cs, lote, bs[1]), k, n)
                &&& colunas(forma_buf(cs, lote, bs[2]), n)
                &&& cobre_dim(d.3, ladrilho(d.0), extent(forma_buf(cs, lote, bs[1]), 1))
                &&& cobre_dim(d.4, ladrilho(d.0), extent(forma_buf(cs, lote, bs[0]), 1))
            },
            Kernel::MmAbt | Kernel::MmAbtF => {
                &&& dims(forma_buf(cs, lote, bs[0]), m, k)
                &&& dims(forma_buf(cs, lote, bs[1]), n, k)
                &&& linhas(forma_buf(cs, lote, bs[2]), m)
                &&& cobre_dim(d.3, ladrilho(d.0), extent(forma_buf(cs, lote, bs[1]), 0))
                &&& cobre_dim(d.4, ladrilho(d.0), extent(forma_buf(cs, lote, bs[0]), 0))
            },
            _ => false,
        },
        Uniforme::P4 { a, b, c, d: _ } => match d.0 {
            Kernel::BiasAdd => {
                &&& bs.len() == 2
                &&& elementos(forma_buf(cs, lote, bs[1]), a)
                &&& elementos(forma_buf(cs, lote, bs[0]), b)
                &&& c == d.3
                &&& cobre(d.3, d.4, GRUPO_VETOR as int, n_elem(forma_buf(cs, lote, bs[1])))
            },
            Kernel::Relu | Kernel::ReluBwd => {
                &&& bs.len() == 2
                &&& elementos(forma_buf(cs, lote, bs[0]), a)
                &&& elementos(forma_buf(cs, lote, bs[1]), a)
                &&& c == d.3
                &&& cobre(d.3, d.4, GRUPO_VETOR as int, n_elem(forma_buf(cs, lote, bs[0])))
            },
            Kernel::Xent => {
                &&& bs.len() == 4
                &&& dims(forma_buf(cs, lote, bs[0]), a, b)
                &&& elementos(forma_buf(cs, lote, bs[1]), a)
                &&& dims(forma_buf(cs, lote, bs[2]), a, b)
                &&& elementos(forma_buf(cs, lote, bs[3]), a)
                &&& d.4 == 1
                &&& (d.3 as int) * 64 >= extent(forma_buf(cs, lote, bs[0]), 0)
            },
            Kernel::Colsum => {
                &&& bs.len() == 2
                &&& dims(forma_buf(cs, lote, bs[0]), a, b)
                &&& forma_buf(cs, lote, bs[1]) is Some
                &&& forma_buf(cs, lote, bs[1])->0.len() == 2
                &&& forma_buf(cs, lote, bs[1])->0[0] == teto_div(a as int, c as int)
                &&& forma_buf(cs, lote, bs[1])->0[1] as u32 == b
                &&& cobre_dim(d.3, 64, extent(forma_buf(cs, lote, bs[1]), 1))
                &&& cobre_dim(d.4, c as int, extent(forma_buf(cs, lote, bs[0]), 0))
            },
            _ => false,
        },
        Uniforme::Adam { n, gx } => {
            &&& d.0 == Kernel::Adam
            &&& gx == d.3
            &&& cobre(d.3, d.4, GRUPO_VETOR as int, n_elem(forma_buf(cs, lote, bs[1])))
            &&& bs.len() == 4
            &&& elementos(forma_buf(cs, lote, bs[0]), n)
            &&& elementos(forma_buf(cs, lote, bs[1]), n)
            &&& elementos(forma_buf(cs, lote, bs[2]), n)
            &&& elementos(forma_buf(cs, lote, bs[3]), n)
        },
    }
}

/// Every forward dispatch agrees with the buffers it binds.
#[verifier::spinoff_prover]
pub proof fn lemma_fwd_coerente(cs: Seq<(usize, usize)>, lote: int, rapido: bool, t: int)
    requires
        plano_valido(cs, lote),
        0 <= t < 3 * cs.len() - 1,
    ensures
        coerente(cs, lote, fwd_desc(cs, lote, rapido, t)),
{
    let i = t / 3;
    assert(0 <= i < cs.len());
    assert(((i as usize) as int) == i);
    assert(lote * (cs[i].1 as int) <= usize::MAX);
    assert((lote as usize) as int == lote);
    assert((1usize as int) * (cs[i].1 as int) == cs[i].1 as int);
    if i > 0 {
        assert(i - 1 < cs.len());
        assert((((i - 1) as usize) as int) == i - 1);
    }
    let d = fwd_desc(cs, lote, rapido, t);
    let u = cs[i].1 as int;
    if t % 3 == 0 {
        assert(d.2 == seq![entrada(i), Buf::W(i as usize), Buf::Z(i as usize)]);
        lemma_teto_cobre(u, 16);
        lemma_teto_cobre(u, 64);
        lemma_teto_cobre(lote, 16);
        lemma_teto_cobre(lote, 64);
    } else if t % 3 == 1 {
        assert(d.2 == seq![Buf::B(i as usize), Buf::Z(i as usize)]);
        lemma_grade_cobre(lote * u, GRUPO_VETOR as int);
    } else {
        assert(d.2 == seq![Buf::Z(i as usize), Buf::A(i as usize)]);
        lemma_grade_cobre(lote * u, GRUPO_VETOR as int);
    }
}

/// Every dispatch of the loss and backward pass agrees with the buffers it
/// binds.
#[verifier::spinoff_prover]
pub proof fn lemma_bwd_coerente(cs: Seq<(usize, usize)>, lote: int, rapido: bool, t: int)
    requires
        plano_valido(cs, lote),
        0 <= t < 1 + (cs.len() - 1) * bloco_bwd(lote) + 1 + estagios(lote),
    ensures
        coerente(cs, lote, bwd_desc(cs, lote, rapido, t)),
{
    let l = cs.len() as int;
    assert((lote as usize) as int == lote);
    assert(lote <= 65535 * 64) by {
        assert(teto_div(lote, 64) <= 65535);
    }
    if t == 0 {
        assert(l - 1 < cs.len());
        assert((((l - 1) as usize) as int) == l - 1);
        lemma_teto_cobre(lote, 64);
        assert(teto_div(lote, 64) <= u32::MAX);
    } else {
        let b = bloco_bwd(lote);
        let q = (t - 1) / b;
        let o = (t - 1) % b;
        vstd::arithmetic::div_mod::lemma_fundamental_div_mod(t - 1, b);
        assert(0 <= o < b);
        assert(q >= 0) by {
            vstd::arithmetic::div_mod::lemma_div_pos_is_pos(t - 1, b);
        }
        assert(q < l && (q == l - 1 ==> o <= estagios(lote))) by {
            if q >= l {
                vstd::arithmetic::mul::lemma_mul_inequality(l, q, b);
                vstd::arithmetic::mul::lemma_mul_is_commutative(q, b);
                assert(t - 1 >= l * b) by (nonlinear_arith)
                    requires
                        t - 1 == b * q + o,
                        l * b <= q * b,
                        o >= 0,
                ;
                assert(t - 1 < (l - 1) * b + b - 2) by (nonlinear_arith)
                    requires
                        t - 1 < (l - 1) * b + 1 + estagios(lote),
                        b == 3 + estagios(lote),
                ;
                assert((l - 1) * b + b == l * b) by (nonlinear_arith);
            }
            if q == l - 1 {
                vstd::arithmetic::mul::lemma_mul_is_commutative(q, b);
                assert(o < 1 + estagios(lote) + 0) by (nonlinear_arith)
                    requires
                        t - 1 == b * q + o,
                        q == l - 1,
                        t - 1 < (l - 1) * b + 1 + estagios(lote),
                ;
            }
        }
        let i = l - 1 - q;
        assert(0 <= i < l);
        assert(((i as usize) as int) == i);
        assert(lote * (cs[i].1 as int) <= usize::MAX);
        lemma_teto_cobre(cs[i].1 as int, 16);
        lemma_teto_cobre(cs[i].1 as int, 64);
        lemma_teto_cobre(cs[i].0 as int, 16);
        lemma_teto_cobre(cs[i].0 as int, 64);
        lemma_teto_cobre(lote, 16);
        lemma_teto_cobre(lote, 64);
        lemma_teto_cobre(largura_entrada(cs, i), 16);
        lemma_teto_cobre(largura_entrada(cs, i), 64);
        if i > 0 {
            assert(i - 1 < cs.len());
            assert((((i - 1) as usize) as int) == i - 1);
            assert(lote * (cs[i - 1].1 as int) <= usize::MAX);
            lemma_grade_cobre(lote * (cs[i - 1].1 as int), GRUPO_VETOR as int);
        }
        if 1 <= o <= estagios(lote) {
            let partes = teto_div(lote, BLOCO_REDUCAO as int);
            assert(1 <= partes <= lote) by {
                vstd::arithmetic::div_mod::lemma_div_is_ordered(BLOCO_REDUCAO as int, lote + 31, 32);
                vstd::arithmetic::div_mod::lemma_div_is_ordered(lote + 31, 32 * lote, 32);
            }
            assert(teto_div(lote, lote) == 1) by {
                vstd::arithmetic::div_mod::lemma_fundamental_div_mod_converse(2 * lote - 1, lote, 1, lote - 1);
            }
            assert(teto_div(partes, partes) == 1) by {
                vstd::arithmetic::div_mod::lemma_fundamental_div_mod_converse(2 * partes - 1, partes, 1, partes - 1);
            }
            assert(((partes as usize) as int) == partes);
            assert((partes as u32) as int == partes);
            assert((lote as u32) as int == lote);
            lemma_teto_cobre(lote, 32);
            lemma_teto_cobre(lote, lote);
            lemma_teto_cobre(partes, partes);
        }
    }
}

/// Every Adam dispatch agrees with the buffers it binds.
pub proof fn lemma_adam_coerente(cs: Seq<(usize, usize)>, lote: int, t: int)
    requires
        plano_valido(cs, lote),
        0 <= t < 2 * cs.len(),
    ensures
        coerente(cs, lote, adam_plano_desc(cs, t)),
{
    let i = t / 2;
    assert(0 <= i < cs.len());
    assert(((i as usize) as int) == i);
    assert((1usize as int) * (cs[i].1 as int) == cs[i].1 as int);
    lemma_grade_cobre((cs[i].0 as int) * (cs[i].1 as int), GRUPO_VETOR as int);
    lemma_grade_cobre(cs[i].1 as int, GRUPO_VETOR as int);
}

impl PlanoMlp {
    /// Shape of a buffer that the plan binds.
    pub fn forma(&self, b: Buf) -> (f: Option<Vec<usize>>)
        requires
            self.camadas@.len() >= 1,
        ensures
            match forma_buf(self.camadas@, self.lote as int, b) {
                Some(s) => f matches Some(v) && v@ == s,
                None => f is None,
            },
    {
        let l = self.camadas.len();
        let lote = self.lote;
        let mut v: Vec<usize> = Vec::new();
        match b {
            Buf::Entrada => {
                v.push(lote);
                v.push(self.camadas[0].0);
            },
            Buf::Rotulos | Buf::Perda => {
                v.push(lote);
            },
            Buf::W(i) | Buf::Mw(i) | Buf::Vw(i) | Buf::Dw(i) => {
                if i >= l {
                    return None;
                }
                v.push(self.camadas[i].0);
                v.push(self.camadas[i].1);
            },
            Buf::B(i) | Buf::Mb(i) | Buf::Vb(i) | Buf::Db(i) => {
                if i >= l {
                    return None;
                }
                v.push(1);
                v.push(self.camadas[i].1);
            },
            Buf::Dbp(i) => {
                if i >= l {
                    return None;
                }
                v.push(particoes(lote));
                v.push(self.camadas[i].1);
            },
            Buf::Z(i) | Buf::A(i) | Buf::Delta(i) => {
                if i >= l {
                    return None;
                }
                v.push(lote);
                v.push(self.camadas[i].1);
            },
        }
        proof {
            match forma_buf(self.camadas@, self.lote as int, b) {
                Some(s) => {
                    assert(v@ =~= s);
                },
                None => {},
            }
        }
        Some(v)
    }
}

/// The labels of a batch as the 32-bit words that the loss kernel reads,
/// each taken modulo `2³²`.
pub fn rotulos_u32(labels: &[usize]) -> (v: Vec<u32>)
    ensures
        v@.len() == labels@.len(),
        forall|i: int| 0 <= i < v@.len() ==> #[trigger] v@[i] == labels@[i] as u32,
{
    let mut v: Vec<u32> = Vec::new();
    let mut i: usize = 0;
    while i < labels.len()
        invariant
            i <= labels@.len(),
            v@.len() == i,
            forall|j: int| 0 <= j < i ==> #[trigger] v@[j] == labels@[j] as u32,
        decreases labels@.len() - i,
    {
        v.push(labels[i] as u32);
        i = i + 1;
    }
    v
}

} // verus!
