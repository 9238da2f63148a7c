//! Integer side of energy and clock measurement: choosing evenly spread
//! clock frequencies among those a GPU supports, and differencing the
//! wrapping energy counters of RAPL domains.
//!
//! Running `nvidia-smi`, reading `/sys/class/powercap` and integrating
//! power samples in floating point are done by the caller.

use vstd::prelude::*;

verus! {

// ------------------------------------------------------------- clocks

/// Each element is greater than the next.
pub open spec fn decrescente(s: Seq<u32>) -> bool {
    forall|i: int, j: int| 0 <= i < j < s.len() ==> s[i] > s[j]
}

/// Each element is smaller than the next.
pub open spec fn crescente(s: Seq<u32>) -> bool {
    forall|i: int, j: int| 0 <= i < j < s.len() ==> s[i] < s[j]
}

/// Distance from the frequency `a` to the target `i` of a sweep of `q`
/// points between `min` and `max`, scaled by `q − 1`: the target is
/// `min + (max − min)·i/(q − 1)`.
pub open spec fn distancia(a: int, min: int, max: int, q: int, i: int) -> int {
    let d = a * (q - 1) - (min * (q - 1) + (max - min) * i);
    if d >= 0 {
        d
    } else {
        -d
    }
}

/// Index of the first frequency of `todos` among the first `upto` that is
/// nearest to target `i` of a sweep of `q` points.
pub open spec fn mais_proximo(todos: Seq<u32>, q: int, i: int, upto: int) -> int
    decreases upto,
{
    if upto <= 1 {
        0
    } else {
        let b = mais_proximo(todos, q, i, upto - 1);
        let min = todos.last() as int;
        let max = todos[0] as int;
        if distancia(todos[upto - 1] as int, min, max, q, i) < distancia(
            todos[b] as int,
            min,
            max,
            q,
            i,
        ) {
            upto - 1
        } else {
            b
        }
    }
}

/// The supported frequency chosen for target `i` of a sweep of `q` points.
pub open spec fn escolhido(todos: Seq<u32>, q: int, i: int) -> u32 {
    todos[mais_proximo(todos, q, i, todos.len() as int)]
}

/// `|a·(q − 1) − t|`: how far the frequency `a` lies from a target that
/// is `t / (q − 1)`, scaled by `q − 1`.
pub open spec fn afastamento(a: int, t: int, q: int) -> int {
    if a * (q - 1) >= t {
        a * (q - 1) - t
    } else {
        t - a * (q - 1)
    }
}

/// Target `i` of a sweep of `q` points over the frequencies `todos`, listed
/// from the highest down, scaled by `q − 1`: `min·(q − 1) + (max − min)·i`.
pub open spec fn alvo(todos: Seq<u32>, q: int, i: int) -> int {
    (todos.last() as int) * (q - 1) + ((todos[0] as int) - (todos.last() as int)) * i
}

/// The frequency the scan keeps for target `i` among the first `upto` is
/// a nearest one: no frequency among them is closer, and every one before
/// it is farther.
pub proof fn lemma_mais_proximo(todos: Seq<u32>, q: int, i: int, upto: int)
    requires
        1 <= upto <= todos.len(),
    ensures
        0 <= mais_proximo(todos, q, i, upto) < upto,
        forall|j: int|
            0 <= j < upto ==> afastamento(
                todos[mais_proximo(todos, q, i, upto)] as int,
                alvo(todos, q, i),
                q,
            ) <= afastamento(#[trigger] todos[j] as int, alvo(todos, q, i), q),
        forall|j: int|
            0 <= j < mais_proximo(todos, q, i, upto) ==> afastamento(
                #[trigger] todos[j] as int,
                alvo(todos, q, i),
                q,
            ) > afastamento(todos[mais_proximo(todos, q, i, upto)] as int, alvo(todos, q, i), q),
    decreases upto,
{
    if upto > 1 {
        lemma_mais_proximo(todos, q, i, upto - 1);
    }
}

/// `pontos` holds a supported frequency that is nearest to target `i` of a
/// sweep of `q` points over `todos`: none of `todos` is closer, and every
/// higher one is farther.
pub open spec fn tem_mais_proximo(todos: Seq<u32>, q: int, i: int, pontos: Seq<u32>) -> bool {
    exists|x: u32|
        #![trigger pontos.contains(x)]
        pontos.contains(x) && todos.contains(x) && (forall|y: u32|
            #[trigger] todos.contains(y) ==> afastamento(x as int, alvo(todos, q, i), q)
                <= afastamento(y as int, alvo(todos, q, i), q)) && (forall|y: u32|
            #[trigger] todos.contains(y) && y > x ==> afastamento(
                y as int,
                alvo(todos, q, i),
                q,
            ) > afastamento(x as int, alvo(todos, q, i), q))
}

/// Each target of a sweep has, among the chosen points, a nearest
/// supported frequency, the highest one on ties.
proof fn lemma_amostrar_proximos(todos: Seq<u32>, q: int, pontos: Seq<u32>)
    requires
        decrescente(todos),
        0 < q < todos.len(),
        forall|x: u32|
            pontos.contains(x) <==> exists|i: int| 0 <= i < q && x == escolhido(todos, q, i),
    ensures
        forall|i: int| 0 <= i < q ==> #[trigger] tem_mais_proximo(todos, q, i, pontos),
{
    assert forall|i: int| 0 <= i < q implies #[trigger] tem_mais_proximo(todos, q, i, pontos) by {
        let n = todos.len() as int;
        lemma_mais_proximo(todos, q, i, n);
        let m = mais_proximo(todos, q, i, n);
        let x = todos[m];
        assert(x == escolhido(todos, q, i));
        assert(pontos.contains(x));
        assert(todos.contains(x));
        assert forall|y: u32| #[trigger] todos.contains(y) implies afastamento(
            x as int,
            alvo(todos, q, i),
            q,
        ) <= afastamento(y as int, alvo(todos, q, i), q) by {
            let j = choose|j: int| 0 <= j < todos.len() && todos[j] == y;
            assert(afastamento(todos[j] as int, alvo(todos, q, i), q) >= afastamento(
                x as int,
                alvo(todos, q, i),
                q,
            ));
        }
        assert forall|y: u32| #[trigger] todos.contains(y) && y > x implies afastamento(
            y as int,
            alvo(todos, q, i),
            q,
        ) > afastamento(x as int, alvo(todos, q, i), q) by {
            let j = choose|j: int| 0 <= j < todos.len() && todos[j] == y;
            if j > m {
                assert(todos[m] > todos[j]);
            }
            assert(j < m);
            assert(afastamento(todos[j] as int, alvo(todos, q, i), q) > afastamento(
                x as int,
                alvo(todos, q, i),
                q,
            ));
        }
    }
}

/// `|x − y|` in machine integers.
fn dif(x: u128, y: u128) -> (r: u128)
    ensures
        r == if x >= y {
            x - y
        } else {
            y - x
        },
{
    if x >= y {
        x - y
    } else {
        y - x
    }
}

/// Distance of [`distancia`] in machine integers.
fn dist_exec(a: u32, min: u32, max: u32, q: usize, i: usize) -> (r: u128)
    requires
        q >= 1,
        i < q,
        min <= max,
    ensures
        r == distancia(a as int, min as int, max as int, q as int, i as int),
{
    let k = (q - 1) as u128;
    proof {
        assert((a as int) * (k as int) <= 0xffff_ffff * 0xffff_ffff_ffff_ffff) by (nonlinear_arith)
            requires
                a <= 0xffff_ffff,
                k <= 0xffff_ffff_ffff_ffff,
        ;
        assert((min as int) * (k as int) <= 0xffff_ffff * 0xffff_ffff_ffff_ffff) by (
        nonlinear_arith)
            requires
                min <= 0xffff_ffff,
                k <= 0xffff_ffff_ffff_ffff,
        ;
        assert(((max - min) as int) * (i as int) <= 0xffff_ffff * 0xffff_ffff_ffff_ffff) by (
        nonlinear_arith)
            requires
                max - min <= 0xffff_ffff,
                0 <= max - min,
                i <= 0xffff_ffff_ffff_ffff,
        ;
    }
    let t1 = (a as u128) * k;
    let t2 = (min as u128) * k + ((max - min) as u128) * (i as u128);
    dif(t1, t2)
}

/// `v` inserted into the increasing sequence `out` unless already there.
#[verifier::spinoff_prover]
fn inserir_ordenado(out: &mut Vec<u32>, v: u32)
    requires
        crescente(old(out)@),
    ensures
        crescente(final(out)@),
        forall|x: u32| final(out)@.contains(x) <==> (old(out)@.contains(x) || x == v),
{
    let mut p: usize = 0;
    while p < out.len() && out[p] < v
        invariant
            p <= out@.len(),
            out@ == old(out)@,
            forall|j: int| 0 <= j < p ==> out@[j] < v,
        decreases out@.len() - p,
    {
        p = p + 1;
    }
    if p < out.len() && out[p] == v {
        proof {
            assert(out@[p as int] == v);
            assert(out@.contains(v));
        }
        return;
    }
    let ghost before = out@;
    proof {
        lemma_insere_ordenado(before, p as int, v);
    }
    out.insert(p, v);
    proof {
        assert(out@ == before.insert(p as int, v));
        assert(before == old(out)@);
        assert forall|x: u32| #[trigger] out@.contains(x) <==> (old(out)@.contains(x) || x == v) by {
            assert(before.insert(p as int, v).contains(x) <==> (before.contains(x) || x == v));
        }
    }
}

proof fn lemma_insere_ordenado(before: Seq<u32>, p: int, v: u32)
    requires
        crescente(before),
        0 <= p <= before.len(),
        forall|j: int| 0 <= j < p ==> before[j] < v,
        p < before.len() ==> before[p] > v,
    ensures
        crescente(before.insert(p, v)),
        forall|x: u32| before.insert(p, v).contains(x) <==> (before.contains(x) || x == v),
{
    let out = before.insert(p, v);
    assert forall|i: int, j: int| 0 <= i < j < out.len() implies out[i] < out[j] by {
        if j < p {
        } else if j == p {
        } else if i < p {
            assert(out[j] == before[j - 1]);
        } else if i == p {
            assert(out[j] == before[j - 1]);
            if j - 1 > p {
                assert(before[p] < before[j - 1]);
            }
        } else {
            assert(out[i] == before[i - 1]);
            assert(out[j] == before[j - 1]);
        }
    }
    assert forall|x: u32| out.contains(x) <==> (before.contains(x) || x == v) by {
        if out.contains(x) {
            let k = choose|k: int| 0 <= k < out.len() && out[k] == x;
            if k < p {
                assert(before[k] == x);
            } else if k > p {
                assert(before[k - 1] == x);
            }
        }
        if before.contains(x) {
            let k = choose|k: int| 0 <= k < before.len() && before[k] == x;
            if k < p {
                assert(out[k] == x);
            } else {
                assert(out[k + 1] == x);
            }
        }
        if x == v {
            assert(out[p] == v);
        }
    }
}

/// Picks `quantos` frequencies spread evenly between the lowest and the
/// highest of `todos`, the frequencies a card supports, listed from the
/// highest down: for each target `min + (max − min)·i/(quantos − 1)` the
/// nearest supported frequency, the first in `todos` on ties. The result
/// is increasing and without repetitions; when the card supports no more
/// than `quantos` frequencies, it is all of them.
pub fn amostrar(todos: &[u32], quantos: usize) -> (pontos: Vec<u32>)
    requires
        decrescente(todos@),
    ensures
        crescente(pontos@),
        todos@.len() == 0 || quantos == 0 ==> pontos@.len() == 0,
        0 < todos@.len() <= quantos ==> forall|x: u32|
            pontos@.contains(x) <==> todos@.contains(x),
        0 < quantos < todos@.len() ==> forall|x: u32|
            pontos@.contains(x) <==> exists|i: int|
                0 <= i < quantos && x == escolhido(todos@, quantos as int, i),
        0 < quantos < todos@.len() ==> forall|i: int|
            0 <= i < quantos ==> #[trigger] tem_mais_proximo(todos@, quantos as int, i, pontos@),
{
    let mut pontos: Vec<u32> = Vec::new();
    let n = todos.len();
    if n == 0 || quantos == 0 {
        return pontos;
    }
    if n <= quantos {
        let mut t: usize = 0;
        while t < n
            invariant
                t <= n,
                n == todos@.len(),
                crescente(pontos@),
                forall|x: u32| pontos@.contains(x) <==> exists|k: int| 0 <= k < t && todos@[k] == x,
            decreases n - t,
        {
            let ghost before = pontos@;
            inserir_ordenado(&mut pontos, todos[t]);
            proof {
                assert forall|x: u32| pontos@.contains(x) <==> exists|k: int|
                    0 <= k < t + 1 && todos@[k] == x by {
                    if x == todos@[t as int] {
                        assert(exists|k: int| 0 <= k < t + 1 && todos@[k] == x);
                    }
                    if exists|k: int| 0 <= k < t + 1 && todos@[k] == x {
                        let k = choose|k: int| 0 <= k < t + 1 && todos@[k] == x;
                        if k < t {
                            assert(before.contains(x));
                        }
                    }
                }
            }
            t = t + 1;
        }
        proof {
            assert forall|x: u32| pontos@.contains(x) <==> todos@.contains(x) by {
                if todos@.contains(x) {
                    let k = choose|k: int| 0 <= k < n && todos@[k] == x;
                    assert(exists|k2: int| 0 <= k2 < n && todos@[k2] == x);
                }
            }
        }
        return pontos;
    }
    let max = todos[0];
    let min = todos[n - 1];
    proof {
        if n > 1 {
            assert(todos@[0] > todos@[n - 1]);
        }
    }
    let mut i: usize = 0;
    while i < quantos
        invariant
            0 < quantos < n,
            n == todos@.len(),
            decrescente(todos@),
            max == todos@[0],
            min == todos@.last(),
            min <= max,
            i <= quantos,
            crescente(pontos@),
            forall|x: u32|
                pontos@.contains(x) <==> exists|k: int|
                    0 <= k < i && x == escolhido(todos@, quantos as int, k),
        decreases quantos - i,
    {
        let mut best: usize = 0;
        let mut bd = dist_exec(todos[0], min, max, quantos, i);
        let mut j: usize = 1;
        while j < n
            invariant
                1 <= j <= n,
                n == todos@.len(),
                max == todos@[0],
                min == todos@.last(),
                min <= max,
                i < quantos,
                best < j,
                best as int == mais_proximo(todos@, quantos as int, i as int, j as int),
                bd == distancia(
                    todos@[best as int] as int,
                    min as int,
                    max as int,
                    quantos as int,
                    i as int,
                ),
            decreases n - j,
        {
            let d = dist_exec(todos[j], min, max, quantos, i);
            if d < bd {
                best = j;
                bd = d;
            }
            j = j + 1;
        }
        let v = todos[best];
        let ghost before = pontos@;
        inserir_ordenado(&mut pontos, v);
        proof {
            assert(v == escolhido(todos@, quantos as int, i as int));
            assert forall|x: u32| pontos@.contains(x) <==> exists|k: int|
                0 <= k < i + 1 && x == escolhido(todos@, quantos as int, k) by {
                if x == v {
                    assert(exists|k: int|
                        0 <= k < i + 1 && x == escolhido(todos@, quantos as int, k)) by {
                        assert(x == escolhido(todos@, quantos as int, i as int));
                    }
                }
                if exists|k: int| 0 <= k < i + 1 && x == escolhido(todos@, quantos as int, k) {
                    let k = choose|k: int|
                        0 <= k < i + 1 && x == escolhido(todos@, quantos as int, k);
                    if k < i {
                        assert(before.contains(x));
                    }
                }
            }
        }
        i = i + 1;
    }
    proof {
        lemma_amostrar_proximos(todos@, quantos as int, pontos@);
    }
    pontos
}

/// A clock frequency held fixed, in MHz. Releasing it is the caller's
/// business.
#[derive(Debug)]
pub struct TravaClock {
    mhz: u32,
}

impl TravaClock {
    /// The lock of a frequency that the card accepted.
    pub fn nova(mhz: u32) -> (t: TravaClock)
        ensures
            t.frequencia() == mhz,
    {
        TravaClock { mhz }
    }

    pub closed spec fn frequencia(&self) -> u32 {
        self.mhz
    }

    pub fn mhz(&self) -> (m: u32)
        ensures
            m == self.frequencia(),
    {
        self.mhz
    }
}

// ------------------------------------------------------------- RAPL

/// An energy domain of RAPL: its name, the file of its counter, and the
/// range after which the counter wraps to zero.
pub struct DominioRapl {
    pub nome: String,
    caminho: String,
    maximo: u64,
}

impl DominioRapl {
    pub fn novo(nome: String, caminho: String, maximo: u64) -> (d: DominioRapl)
        ensures
            d.rotulo() == nome,
            d.arquivo() == caminho,
            d.alcance() == maximo,
    {
        DominioRapl { nome, caminho, maximo }
    }

    pub closed spec fn rotulo(&self) -> String {
        self.nome
    }

    pub closed spec fn arquivo(&self) -> String {
        self.caminho
    }

    pub closed spec fn alcance(&self) -> u64 {
        self.maximo
    }

    /// File of the counter, in microjoules.
    pub fn caminho(&self) -> (c: &String)
        ensures
            *c == self.arquivo(),
    {
        &self.caminho
    }
}

/// Energy in microjoules between two readings of a counter that wraps to
/// zero after `maximo`: the plain difference, or the rest of the range plus
/// the new reading when the counter went around.
pub open spec fn delta_contador(a: u64, b: u64, maximo: u64) -> int {
    if b >= a {
        b - a
    } else {
        (maximo - a) + b
    }
}

/// The RAPL domains this process can read.
pub struct Rapl {
    pub dominios: Vec<DominioRapl>,
}

impl Rapl {
    pub fn disponivel(&self) -> (b: bool)
        ensures
            b == (self.dominios@.len() > 0),
    {
        self.dominios.len() > 0
    }

    pub fn maximo(&self, i: usize) -> (m: u64)
        requires
            i < self.dominios@.len(),
        ensures
            m == self.dominios@[i as int].alcance(),
    {
        self.dominios[i].maximo
    }

    /// Energy of each domain between two snapshots, in microjoules, for
    /// the domains read in both; a domain whose counter went around gets the
    /// rest of its range added.
    pub fn delta(&self, antes: &[Option<u64>], depois: &[Option<u64>]) -> (r: Vec<(String, u64)>)
        requires
            forall|i: int|
                0 <= i < self.dominios@.len() && lido(antes@, depois@, i) ==> #[trigger] delta_ok(
                    antes@[i]->0,
                    depois@[i]->0,
                    self.dominios@[i].alcance(),
                ),
        ensures
            r@ == deltas(self.dominios@, antes@, depois@, self.dominios@.len() as int),
    {
        let mut r: Vec<(String, u64)> = Vec::new();
        let n = self.dominios.len();
        let mut i: usize = 0;
        while i < n
            invariant
                i <= n,
                n == self.dominios@.len(),
                forall|j: int|
                    0 <= j < self.dominios@.len() && lido(antes@, depois@, j) ==> #[trigger] delta_ok(
                        antes@[j]->0,
                        depois@[j]->0,
                        self.dominios@[j].alcance(),
                    ),
                r@ == deltas(self.dominios@, antes@, depois@, i as int),
            decreases n - i,
        {
            if i < antes.len() && i < depois.len() {
                if let (Some(a), Some(b)) = (antes[i], depois[i]) {
                    let m = self.dominios[i].maximo;
                    proof {
                        assert(lido(antes@, depois@, i as int));
                        assert(delta_ok(
                            antes@[i as int]->0,
                            depois@[i as int]->0,
                            self.dominios@[i as int].alcance(),
                        ));
                    }
                    let bruto = if b >= a {
                        b - a
                    } else {
                        (m - a) + b
                    };
                    r.push((self.dominios[i].nome.clone(), bruto));
                }
            }
            i = i + 1;
        }
        r
    }
}

/// Domain `i` was read in both snapshots.
pub open spec fn lido(antes: Seq<Option<u64>>, depois: Seq<Option<u64>>, i: int) -> bool {
    &&& i < antes.len()
    &&& i < depois.len()
    &&& antes[i] is Some
    &&& depois[i] is Some
}

/// The difference of two readings fits a `u64` and takes no reading past
/// the range: what a counter that wraps after `maximo` produces.
pub open spec fn delta_ok(a: u64, b: u64, maximo: u64) -> bool {
    b >= a || (a <= maximo && (maximo - a) + b <= u64::MAX)
}

/// The energies of the first `upto` domains read in both snapshots, with
/// their names, in domain order.
pub open spec fn deltas(
    dominios: Seq<DominioRapl>,
    antes: Seq<Option<u64>>,
    depois: Seq<Option<u64>>,
    upto: int,
) -> Seq<(String, u64)>
    decreases upto,
{
    if upto <= 0 {
        Seq::empty()
    } else {
        let prev = deltas(dominios, antes, depois, upto - 1);
        let j = upto - 1;
        if lido(antes, depois, j) {
            prev.push(
                (
                    dominios[j].rotulo(),
                    delta_contador(antes[j]->0, depois[j]->0, dominios[j].alcance()) as u64,
                ),
            )
        } else {
            prev
        }
    }
}


// ------------------------------------------------------------ parsing

/// ASCII white space: space, tab, line feed, vertical tab, form feed and
/// carriage return.
pub open spec fn espaco(c: u8) -> bool {
    c == 32 || (9 <= c <= 13)
}

/// The UTF-8 encoding of a three-byte white-space character: U+1680,
/// U+2000 to U+200A, U+2028, U+2029, U+202F, U+205F or U+3000.
pub open spec fn espaco3(a: u8, b: u8, c: u8) -> bool {
    ||| a == 0xE1 && b == 0x9A && c == 0x80
    ||| a == 0xE2 && b == 0x80 && ((0x80 <= c <= 0x8A) || c == 0xA8 || c == 0xA9 || c == 0xAF)
    ||| a == 0xE2 && b == 0x81 && c == 0x9F
    ||| a == 0xE3 && b == 0x80 && c == 0x80
}

/// Bytes of the white-space character that starts at `i` in the UTF-8 text
/// `s`, or 0 when none starts there. White space is Unicode's: the ASCII
/// white space, U+0085, U+00A0 and the three-byte characters of
/// [`espaco3`]. No byte that starts one of these can sit inside another
/// character, so matching the bytes reads the text as its characters.
pub open spec fn largura_espaco(s: Seq<u8>, i: int) -> int {
    if 0 <= i < s.len() && espaco(s[i]) {
        1
    } else if 0 <= i && i + 1 < s.len() && s[i] == 0xC2 && (s[i + 1] == 0x85 || s[i + 1] == 0xA0) {
        2
    } else if 0 <= i && i + 2 < s.len() && espaco3(s[i], s[i + 1], s[i + 2]) {
        3
    } else {
        0
    }
}

/// Bytes of the white-space character that ends just before `j`, or 0.
pub open spec fn largura_antes(s: Seq<u8>, j: int) -> int {
    if 1 <= j <= s.len() && espaco(s[j - 1]) {
        1
    } else if 2 <= j <= s.len() && s[j - 2] == 0xC2 && (s[j - 1] == 0x85 || s[j - 1] == 0xA0) {
        2
    } else if 3 <= j <= s.len() && espaco3(s[j - 3], s[j - 2], s[j - 1]) {
        3
    } else {
        0
    }
}

pub open spec fn digito(c: u8) -> bool {
    48 <= c <= 57
}

/// Value of a string of decimal digits.
pub open spec fn decimal(s: Seq<u8>) -> int
    decreases s.len(),
{
    if s.len() == 0 {
        0
    } else {
        decimal(s.drop_last()) * 10 + (s.last() - 48)
    }
}

/// Index of the first byte of `s` from `i` on that does not start a
/// white-space character.
pub open spec fn inicio_texto(s: Seq<u8>, i: int) -> int
    decreases s.len() - i,
{
    if 0 <= i < s.len() && largura_espaco(s, i) > 0 {
        inicio_texto(s, i + largura_espaco(s, i))
    } else {
        i
    }
}

/// Where `s[a..j]` ends once the white-space characters at its end are
/// removed.
pub open spec fn fim_texto(s: Seq<u8>, j: int, a: int) -> int
    decreases j - a,
{
    if a < j && largura_antes(s, j) > 0 && j - largura_antes(s, j) >= a {
        fim_texto(s, j - largura_antes(s, j), a)
    } else {
        j
    }
}

/// `s` without leading and trailing white space, as `str::trim` leaves it.
pub open spec fn aparado(s: Seq<u8>) -> Seq<u8> {
    let a = inicio_texto(s, 0);
    s.subrange(a, fim_texto(s, s.len() as int, a))
}

/// `t` without a leading `+`.
pub open spec fn sem_sinal(t: Seq<u8>) -> Seq<u8> {
    if t.len() > 0 && t[0] == 43 {
        t.drop_first()
    } else {
        t
    }
}

/// Every byte of `d` is a decimal digit.
pub open spec fn so_digitos(d: Seq<u8>) -> bool {
    forall|k: int| 0 <= k < d.len() ==> digito(#[trigger] d[k])
}

/// A `u32` written in decimal: an optional `+`, then one or more digits,
/// with a value that fits.
pub open spec fn valor_u32(t: Seq<u8>) -> Option<u32> {
    let d = sem_sinal(t);
    if d.len() > 0 && so_digitos(d) && decimal(d) <= u32::MAX {
        Some(decimal(d) as u32)
    } else {
        None
    }
}

proof fn lemma_sub_espaco(t: Seq<u8>, x: int, y: int, q: int)
    requires
        0 <= x <= y <= t.len(),
        0 <= q,
    ensures
        largura_espaco(t.subrange(x, y), q) > 0 ==> largura_espaco(t, x + q) == largura_espaco(
            t.subrange(x, y),
            q,
        ),
{
    let u = t.subrange(x, y);
    if largura_espaco(u, q) > 0 {
        assert(u[q] == t[x + q]);
        if q + 1 < u.len() {
            assert(u[q + 1] == t[x + q + 1]);
        }
        if q + 2 < u.len() {
            assert(u[q + 2] == t[x + q + 2]);
        }
    }
}

proof fn lemma_antes_espaco(s: Seq<u8>, j: int)
    requires
        0 <= j <= s.len(),
    ensures
        largura_antes(s, j) > 0 ==> largura_espaco(s, j - largura_antes(s, j)) == largura_antes(s, j),
{
}

/// Bytes of the white-space character that starts at `i` in `s[a..b]`.
fn largura_em(s: &[u8], a: usize, b: usize, i: usize) -> (w: usize)
    requires
        a <= i <= b <= s@.len(),
    ensures
        w == largura_espaco(s@.subrange(a as int, b as int), i - a),
        w > 0 ==> i + w <= b,
{
    let ghost t = s@.subrange(a as int, b as int);
    if i < b {
        assert(t[i - a] == s@[i as int]);
    }
    if b - i > 1 {
        assert(t[i - a + 1] == s@[i + 1]);
    }
    if b - i > 2 {
        assert(t[i - a + 2] == s@[i + 2]);
    }
    if i < b && (s[i] == 32 || (9 <= s[i] && s[i] <= 13)) {
        1
    } else if b - i > 1 && s[i] == 0xC2 && (s[i + 1] == 0x85 || s[i + 1] == 0xA0) {
        2
    } else if b - i > 2 && ((s[i] == 0xE1 && s[i + 1] == 0x9A && s[i + 2] == 0x80) || (s[i] == 0xE2
        && s[i + 1] == 0x80 && ((0x80 <= s[i + 2] && s[i + 2] <= 0x8A) || s[i + 2] == 0xA8 || s[i
        + 2] == 0xA9 || s[i + 2] == 0xAF)) || (s[i] == 0xE2 && s[i + 1] == 0x81 && s[i + 2] == 0x9F)
        || (s[i] == 0xE3 && s[i + 1] == 0x80 && s[i + 2] == 0x80)) {
        3
    } else {
        0
    }
}

/// Bytes of the white-space character that ends just before `j` in
/// `s[a..b]`.
fn largura_ate(s: &[u8], a: usize, b: usize, j: usize) -> (w: usize)
    requires
        a <= j <= b <= s@.len(),
    ensures
        w == largura_antes(s@.subrange(a as int, b as int), j - a),
        w <= j - a,
{
    let ghost t = s@.subrange(a as int, b as int);
    if j - a >= 1 {
        assert(t[j - a - 1] == s@[j - 1]);
    }
    if j - a >= 2 {
        assert(t[j - a - 2] == s@[j - 2]);
    }
    if j - a >= 3 {
        assert(t[j - a - 3] == s@[j - 3]);
    }
    if j - a >= 1 && (s[j - 1] == 32 || (9 <= s[j - 1] && s[j - 1] <= 13)) {
        1
    } else if j - a >= 2 && s[j - 2] == 0xC2 && (s[j - 1] == 0x85 || s[j - 1] == 0xA0) {
        2
    } else if j - a >= 3 && ((s[j - 3] == 0xE1 && s[j - 2] == 0x9A && s[j - 1] == 0x80) || (s[j
        - 3] == 0xE2 && s[j - 2] == 0x80 && ((0x80 <= s[j - 1] && s[j - 1] <= 0x8A) || s[j - 1]
        == 0xA8 || s[j - 1] == 0xA9 || s[j - 1] == 0xAF)) || (s[j - 3] == 0xE2 && s[j - 2] == 0x81
        && s[j - 1] == 0x9F) || (s[j - 3] == 0xE3 && s[j - 2] == 0x80 && s[j - 1] == 0x80)) {
        3
    } else {
        0
    }
}

proof fn lemma_decimal_cresce(s: Seq<u8>, c: u8)
    requires
        digito(c),
        forall|k: int| 0 <= k < s.len() ==> digito(#[trigger] s[k]),
    ensures
        decimal(s.push(c)) == decimal(s) * 10 + (c - 48),
        decimal(s.push(c)) >= decimal(s),
{
    assert(s.push(c).drop_last() =~= s);
    lemma_decimal_digitos(s);
}

proof fn lemma_decimal_digitos(s: Seq<u8>)
    requires
        forall|k: int| 0 <= k < s.len() ==> digito(#[trigger] s[k]),
    ensures
        decimal(s) >= 0,
    decreases s.len(),
{
    if s.len() > 0 {
        lemma_decimal_digitos(s.drop_last());
    }
}

proof fn lemma_valor_invalido(u: Seq<u8>, d: Seq<u8>, q: int)
    requires
        d == sem_sinal(u),
        0 <= q < d.len(),
        !digito(d[q]),
    ensures
        valor_u32(u) is None,
{
}

/// Reads a `u32` from the UTF-8 bytes `s[a..b]`, ignoring surrounding
/// white space as `str::trim` does.
pub fn ler_u32(s: &[u8], a: usize, b: usize) -> (r: Option<u32>)
    requires
        a <= b <= s@.len(),
    ensures
        r == valor_u32(aparado(s@.subrange(a as int, b as int))),
{
    let ghost t = s@.subrange(a as int, b as int);
    let mut i = a;
    let mut w = largura_em(s, a, b, i);
    while w > 0
        invariant
            a <= i <= b <= s@.len(),
            t == s@.subrange(a as int, b as int),
            inicio_texto(t, i - a) == inicio_texto(t, 0),
            w == largura_espaco(t, i - a),
            w > 0 ==> i + w <= b,
        decreases b - i,
    {
        i = i + w;
        w = largura_em(s, a, b, i);
    }
    let mut j = b;
    let mut w2 = largura_ate(s, a, b, j);
    while j > i && w2 > 0 && j - w2 >= i
        invariant
            a <= i <= j <= b <= s@.len(),
            t == s@.subrange(a as int, b as int),
            inicio_texto(t, 0) == i - a,
            fim_texto(t, j - a, i - a) == fim_texto(t, t.len() as int, i - a),
            w2 == largura_antes(t, j - a),
            w2 <= j - a,
        decreases j - i,
    {
        j = j - w2;
        w2 = largura_ate(s, a, b, j);
    }
    let ghost u = aparado(t);
    proof {
        assert(u =~= s@.subrange(i as int, j as int));
    }
    let mut p = i;
    if p < j && s[p] == 43 {
        p = p + 1;
    }
    let ghost d = s@.subrange(p as int, j as int);
    proof {
        if u.len() > 0 && u[0] == 43 {
            assert(d =~= u.drop_first());
        } else {
            assert(d =~= u);
        }
    }
    if p == j {
        return None;
    }
    let mut acc: u64 = 0;
    let mut k = p;
    while k < j
        invariant
            p <= k <= j <= s@.len(),
            p < j,
            d == s@.subrange(p as int, j as int),
            u == aparado(s@.subrange(a as int, b as int)),
            d == sem_sinal(u),
            forall|q: int| p <= q < k ==> digito(#[trigger] s@[q]),
            decimal(s@.subrange(p as int, k as int)) <= u32::MAX ==> acc == decimal(
                s@.subrange(p as int, k as int),
            ),
            decimal(s@.subrange(p as int, k as int)) > u32::MAX ==> acc > u32::MAX,
            acc <= 0xffff_ffff * 10 + 9,
        decreases j - k,
    {
        let c = s[k];
        if c < 48 || c > 57 {
            proof {
                assert(d[k - p] == c);
                lemma_valor_invalido(u, d, k - p);
            }
            return None;
        }
        proof {
            assert(s@.subrange(p as int, k + 1) =~= s@.subrange(p as int, k as int).push(c));
            assert forall|q: int| 0 <= q < k - p implies digito(
                #[trigger] s@.subrange(p as int, k as int)[q],
            ) by {
                assert(s@.subrange(p as int, k as int)[q] == s@[p + q]);
            }
            lemma_decimal_cresce(s@.subrange(p as int, k as int), c);
        }
        if acc <= 0xffff_ffff {
            acc = acc * 10 + (c - 48) as u64;
        }
        k = k + 1;
    }
    proof {
        assert(s@.subrange(p as int, j as int) =~= d);
        assert forall|q: int| 0 <= q < d.len() implies digito(#[trigger] d[q]) by {
            assert(d[q] == s@[p + q]);
        }
    }
    if acc <= 0xffff_ffff {
        Some(acc as u32)
    } else {
        None
    }
}


/// `[a, b)` is a line of `s`: it starts at the beginning or after a line
/// feed, ends at the end or at a line feed, and holds no line feed.
pub open spec fn linha(s: Seq<u8>, a: int, b: int) -> bool {
    &&& 0 <= a <= b <= s.len()
    &&& (a == 0 || s[a - 1] == 10)
    &&& (b == s.len() || s[b] == 10)
    &&& forall|k: int| a <= k < b ==> s[k] != 10
}

/// Some line of `s` that ends before `lim` reads as the number `x`.
pub open spec fn listado(s: Seq<u8>, x: u32, lim: int) -> bool {
    exists|a: int, b: int|
        #![trigger linha(s, a, b)]
        linha(s, a, b) && b < lim && valor_u32(aparado(s.subrange(a, b))) == Some(x)
}

/// The line that ends at `b` starts at `a`, when `a` starts a line and no
/// line feed lies in `[a, b)`.
proof fn lemma_linha_unica(s: Seq<u8>, a: int, a2: int, b: int)
    requires
        0 <= a <= b,
        a == 0 || s[a - 1] == 10,
        forall|k: int| a <= k < b ==> s[k] != 10,
        linha(s, a2, b),
    ensures
        a2 == a,
{
    if a2 < a {
        assert(s[a - 1] != 10);
    } else if a2 > a {
        assert(s[a2 - 1] != 10);
    }
}

/// The numbers that the lines of `saida` hold, from the greatest down and
/// without repetitions: the clock list that `nvidia-smi` prints one value
/// per line. Each line is trimmed of Unicode white space, as `str::trim`
/// does; lines that do not hold a number are skipped.
pub fn suportados_de(saida: &[u8]) -> (v: Vec<u32>)
    ensures
        decrescente(v@),
        forall|x: u32| v@.contains(x) <==> listado(saida@, x, saida@.len() as int + 1),
{
    let ghost s = saida@;
    let n = saida.len();
    let mut inc: Vec<u32> = Vec::new();
    let mut a: usize = 0;
    let mut k: usize = 0;
    while k < n
        invariant
            s == saida@,
            n == s.len(),
            a <= k <= n,
            a == 0 || s[a - 1] == 10,
            forall|q: int| a <= q < k ==> s[q] != 10,
            crescente(inc@),
            forall|x: u32| inc@.contains(x) <==> listado(s, x, a as int),
        decreases n - k,
    {
        if saida[k] == 10 {
            let r = ler_u32(saida, a, k);
            let ghost before = inc@;
            if let Some(x) = r {
                inserir_ordenado(&mut inc, x);
            }
            proof {
                assert(linha(s, a as int, k as int));
                assert forall|x: u32| inc@.contains(x) <==> listado(s, x, k + 1) by {
                    if listado(s, x, k + 1) {
                        let (a2, b2) = choose|a2: int, b2: int|
                            #![trigger linha(s, a2, b2)]
                            linha(s, a2, b2) && b2 < k + 1 && valor_u32(
                                aparado(s.subrange(a2, b2)),
                            ) == Some(x);
                        if b2 >= a {
                            assert(b2 == k);
                            lemma_linha_unica(s, a as int, a2, b2);
                        } else {
                            assert(listado(s, x, a as int));
                        }
                    }
                    if before.contains(x) {
                        let (a2, b2) = choose|a2: int, b2: int|
                            #![trigger linha(s, a2, b2)]
                            linha(s, a2, b2) && b2 < a && valor_u32(aparado(s.subrange(a2, b2)))
                                == Some(x);
                        assert(linha(s, a2, b2));
                    }
                }
            }
            a = k + 1;
        }
        k = k + 1;
    }
    let r = ler_u32(saida, a, n);
    let ghost before = inc@;
    if let Some(x) = r {
        inserir_ordenado(&mut inc, x);
    }
    proof {
        assert(linha(s, a as int, n as int));
        assert forall|x: u32| inc@.contains(x) <==> listado(s, x, n + 1) by {
            if listado(s, x, n + 1) {
                let (a2, b2) = choose|a2: int, b2: int|
                    #![trigger linha(s, a2, b2)]
                    linha(s, a2, b2) && b2 < n + 1 && valor_u32(aparado(s.subrange(a2, b2)))
                        == Some(x);
                if b2 >= a {
                    assert(b2 == n);
                    lemma_linha_unica(s, a as int, a2, b2);
                } else {
                    assert(listado(s, x, a as int));
                }
            }
            if before.contains(x) {
                let (a2, b2) = choose|a2: int, b2: int|
                    #![trigger linha(s, a2, b2)]
                    linha(s, a2, b2) && b2 < a && valor_u32(aparado(s.subrange(a2, b2))) == Some(x);
                assert(linha(s, a2, b2));
            }
        }
    }
    let mut v: Vec<u32> = Vec::new();
    let mut t: usize = inc.len();
    while t > 0
        invariant
            t <= inc@.len(),
            crescente(inc@),
            v@.len() == inc@.len() - t,
            forall|q: int| 0 <= q < v@.len() ==> #[trigger] v@[q] == inc@[inc@.len() - 1 - q],
        decreases t,
    {
        t = t - 1;
        v.push(inc[t]);
    }
    proof {
        assert forall|i: int, j: int| 0 <= i < j < v@.len() implies v@[i] > v@[j] by {
            assert(v@[i] == inc@[inc@.len() - 1 - i]);
            assert(v@[j] == inc@[inc@.len() - 1 - j]);
        }
        assert forall|x: u32| v@.contains(x) <==> inc@.contains(x) by {
            if v@.contains(x) {
                let q = choose|q: int| 0 <= q < v@.len() && v@[q] == x;
                assert(inc@[inc@.len() - 1 - q] == x);
            }
            if inc@.contains(x) {
                let q = choose|q: int| 0 <= q < inc@.len() && inc@[q] == x;
                assert(v@[inc@.len() - 1 - q] == x);
            }
        }
    }
    v
}

/// The number that the whole of `saida` holds, surrounding Unicode white space
/// apart: the current clock that `nvidia-smi` prints.
pub fn atual_de(saida: &[u8]) -> (r: Option<u32>)
    ensures
        r == valor_u32(aparado(saida@)),
{
    proof {
        assert(saida@.subrange(0, saida@.len() as int) =~= saida@);
    }
    ler_u32(saida, 0, saida.len())
}


/// End of the line that starts at `a`: the first line feed from `a` on, or
/// the end of `s`.
pub open spec fn fim_linha(s: Seq<u8>, a: int) -> int
    decreases s.len() - a,
{
    if a < s.len() && s[a] != 10 {
        fim_linha(s, a + 1)
    } else {
        a
    }
}

/// End of the token that starts at `i`: where the first white-space
/// character from `i` on starts, or the end of `t`.
pub open spec fn fim_token(t: Seq<u8>, i: int) -> int
    decreases t.len() - i,
{
    if 0 <= i < t.len() && largura_espaco(t, i) == 0 {
        fim_token(t, i + 1)
    } else {
        i
    }
}

/// The second token of `t` separated by Unicode white space, as
/// `split_whitespace` gives it, if any.
pub open spec fn segundo_token(t: Seq<u8>) -> Option<Seq<u8>> {
    let i0 = inicio_texto(t, 0);
    let i1 = inicio_texto(t, fim_token(t, i0));
    if i1 < t.len() {
        Some(t.subrange(i1, fim_token(t, i1)))
    } else {
        None
    }
}

/// `t` starts with `Uid:`.
pub open spec fn comeca_uid(t: Seq<u8>) -> bool {
    t.len() >= 4 && t[0] == 85 && t[1] == 105 && t[2] == 100 && t[3] == 58
}

/// The user id in the first line from `a` on that starts with `Uid:`: its
/// second token read as a number. Following lines are not searched when
/// that token is missing or not a number.
pub open spec fn uid_desde(s: Seq<u8>, a: int) -> Option<u32>
    decreases s.len() + 1 - a,
{
    if a < 0 || a > s.len() {
        None
    } else {
        let b = fim_linha(s, a);
        let t = s.subrange(a, b);
        if comeca_uid(t) {
            match segundo_token(t) {
                Some(tok) => valor_u32(tok),
                None => None,
            }
        } else {
            proof {
                lemma_fim_linha(s, a);
            }
            uid_desde(s, b + 1)
        }
    }
}

/// The end of the line that starts at `a` lies between `a` and the end of
/// the text, on a newline when it is not the end.
pub proof fn lemma_fim_linha(s: Seq<u8>, a: int)
    requires
        0 <= a <= s.len(),
    ensures
        a <= fim_linha(s, a) <= s.len(),
        fim_linha(s, a) < s.len() ==> s[fim_linha(s, a)] == 10,
    decreases s.len() - a,
{
    if a < s.len() && s[a] != 10 {
        lemma_fim_linha(s, a + 1);
    }
}

/// The user id that `/proc/self/status` gives.
pub fn uid_de_status(texto: &[u8]) -> (r: Option<u32>)
    ensures
        r == uid_desde(texto@, 0),
{
    let ghost s = texto@;
    let n = texto.len();
    let mut a: usize = 0;
    loop
        invariant
            s == texto@,
            n == s.len(),
            a <= n,
            uid_desde(s, a as int) == uid_desde(s, 0),
        decreases n - a,
    {
        let mut b = a;
        while b < n && texto[b] != 10
            invariant
                a <= b <= n,
                n == s.len(),
                s == texto@,
                fim_linha(s, b as int) == fim_linha(s, a as int),
            decreases n - b,
        {
            b = b + 1;
        }
        let ghost t = s.subrange(a as int, b as int);
        if b - a >= 4 && texto[a] == 85 && texto[a + 1] == 105 && texto[a + 2] == 100 && texto[a + 3] == 58 {
            proof {
                assert(comeca_uid(t));
            }
            let mut i0 = a;
            let mut w = largura_em(texto, a, b, i0);
            while w > 0
                invariant
                    a <= i0 <= b <= n,
                    s == texto@,
                    n == s.len(),
                    t == s.subrange(a as int, b as int),
                    inicio_texto(t, i0 - a) == inicio_texto(t, 0),
                    w == largura_espaco(t, i0 - a),
                    w > 0 ==> i0 + w <= b,
                decreases b - i0,
            {
                i0 = i0 + w;
                w = largura_em(texto, a, b, i0);
            }
            let mut e0 = i0;
            while e0 < b && w == 0
                invariant
                    a <= i0 <= e0 <= b <= n,
                    s == texto@,
                    n == s.len(),
                    t == s.subrange(a as int, b as int),
                    inicio_texto(t, 0) == i0 - a,
                    fim_token(t, e0 - a) == fim_token(t, i0 - a),
                    w == largura_espaco(t, e0 - a),
                    w > 0 ==> e0 + w <= b,
                decreases b - e0,
            {
                e0 = e0 + 1;
                w = largura_em(texto, a, b, e0);
            }
            let mut i1 = e0;
            while w > 0
                invariant
                    a <= e0 <= i1 <= b <= n,
                    s == texto@,
                    n == s.len(),
                    t == s.subrange(a as int, b as int),
                    fim_token(t, inicio_texto(t, 0)) == e0 - a,
                    inicio_texto(t, i1 - a) == inicio_texto(t, e0 - a),
                    w == largura_espaco(t, i1 - a),
                    w > 0 ==> i1 + w <= b,
                decreases b - i1,
            {
                i1 = i1 + w;
                w = largura_em(texto, a, b, i1);
            }
            if i1 >= b {
                return None;
            }
            let mut e1 = i1;
            while e1 < b && w == 0
                invariant
                    a <= i1 <= e1 <= b <= n,
                    s == texto@,
                    n == s.len(),
                    t == s.subrange(a as int, b as int),
                    inicio_texto(t, fim_token(t, inicio_texto(t, 0))) == i1 - a,
                    fim_token(t, e1 - a) == fim_token(t, i1 - a),
                    forall|q: int| i1 - a <= q < e1 - a ==> largura_espaco(t, q) == 0,
                    w == largura_espaco(t, e1 - a),
                    w > 0 ==> e1 + w <= b,
                decreases b - e1,
            {
                e1 = e1 + 1;
                w = largura_em(texto, a, b, e1);
            }
            let ghost tok = s.subrange(i1 as int, e1 as int);
            proof {
                assert(tok =~= t.subrange(i1 - a, e1 - a));
                assert(segundo_token(t) == Some(tok));
                lemma_sub_espaco(t, i1 - a, e1 - a, 0);
                assert(inicio_texto(tok, 0) == 0);
                let l = tok.len() as int;
                lemma_antes_espaco(tok, l);
                if largura_antes(tok, l) > 0 {
                    lemma_sub_espaco(t, i1 - a, e1 - a, l - largura_antes(tok, l));
                }
                assert(fim_texto(tok, l, 0) == l);
                assert(aparado(tok) =~= tok);
            }
            return ler_u32(texto, i1, e1);
        }
        proof {
            assert(!comeca_uid(t));
            lemma_fim_linha(s, a as int);
        }
        if b >= n {
            proof {
                assert(uid_desde(s, b + 1) == None::<u32>);
            }
            return None;
        }
        a = b + 1;
    }
}

/// This process runs as root: its user id is 0.
pub fn e_root_de(status: &[u8]) -> (b: bool)
    ensures
        b == (uid_desde(status@, 0) == Some(0u32)),
{
    match uid_de_status(status) {
        Some(u) => u == 0,
        None => false,
    }
}

} // verus!
