//! Device timestamps of the GPU profiler: reserving a pair of timestamp
//! slots per recorded dispatch while a profiling session is open, and
//! aggregating the measured ticks by label, the most expensive first.

use crate::leitura::{palavras64, palavras_u64, ErroLeitura};
use crate::plano::Rotulo;
use vstd::prelude::*;

verus! {

/// Timestamp queries of one profiling session.
pub const MARCAS: u32 = 4096;

/// Labels equal to `r` among the first `m`.
pub open spec fn contagem(rot: Seq<Rotulo>, r: Rotulo, m: int) -> int
    decreases m,
{
    if m <= 0 {
        0
    } else {
        contagem(rot, r, m - 1) + if rot[m - 1] == r {
            1int
        } else {
            0int
        }
    }
}

/// Ticks between the two timestamps of mark `i`; zero when the counter went
/// around between them.
pub open spec fn duracao(t: Seq<u64>, i: int) -> int {
    if t[2 * i + 1] >= t[2 * i] {
        t[2 * i + 1] - t[2 * i]
    } else {
        0
    }
}

/// Ticks of the marks labelled `r` among the first `m`.
pub open spec fn soma_tiques(rot: Seq<Rotulo>, t: Seq<u64>, r: Rotulo, m: int) -> int
    decreases m,
{
    if m <= 0 {
        0
    } else {
        soma_tiques(rot, t, r, m - 1) + if rot[m - 1] == r {
            duracao(t, m - 1)
        } else {
            0
        }
    }
}

/// Position of the first label `r` among the first `m`, or `m` if none.
pub open spec fn primeira(rot: Seq<Rotulo>, r: Rotulo, m: int) -> int
    decreases m,
{
    if m <= 0 {
        0
    } else {
        let p = primeira(rot, r, m - 1);
        if p < m - 1 {
            p
        } else if rot[m - 1] == r {
            m - 1
        } else {
            m
        }
    }
}

proof fn lemma_contagem(rot: Seq<Rotulo>, r: Rotulo, m: int)
    requires
        m >= 0,
    ensures
        0 <= contagem(rot, r, m) <= m,
        contagem(rot, r, m) == 0 <==> primeira(rot, r, m) == m,
        contagem(rot, r, m) > 0 ==> 0 <= primeira(rot, r, m) < m && rot[primeira(rot, r, m)] == r,
    decreases m,
{
    if m > 0 {
        lemma_contagem(rot, r, m - 1);
    }
}

proof fn lemma_primeira_estavel(rot: Seq<Rotulo>, r: Rotulo, i: int, m: int)
    requires
        0 <= i <= m,
        contagem(rot, r, i) > 0,
    ensures
        primeira(rot, r, m) == primeira(rot, r, i),
        contagem(rot, r, m) > 0,
    decreases m - i,
{
    if m > i {
        lemma_primeira_estavel(rot, r, i, m - 1);
        lemma_contagem(rot, r, m - 1);
    }
}

proof fn lemma_soma_zero(rot: Seq<Rotulo>, t: Seq<u64>, r: Rotulo, m: int)
    requires
        m >= 0,
        contagem(rot, r, m) == 0,
    ensures
        soma_tiques(rot, t, r, m) == 0,
    decreases m,
{
    if m > 0 {
        lemma_contagem(rot, r, m - 1);
        lemma_soma_zero(rot, t, r, m - 1);
    }
}

proof fn lemma_soma_pos(rot: Seq<Rotulo>, t: Seq<u64>, r: Rotulo, m: int)
    requires
        m >= 0,
    ensures
        0 <= soma_tiques(rot, t, r, m) <= m * 0xffff_ffff_ffff_ffff,
    decreases m,
{
    if m > 0 {
        lemma_soma_pos(rot, t, r, m - 1);
    }
}

/// The timestamp slots of a profiling session: two per recorded dispatch,
/// handed out while the session is open, with the label of each pair.
pub struct Marcas {
    capacidade: u32,
    proximo: u32,
    rotulos: Vec<Rotulo>,
    ativo: bool,
}

impl Marcas {
    pub closed spec fn cap(&self) -> u32 {
        self.capacidade
    }

    pub closed spec fn usadas(&self) -> u32 {
        self.proximo
    }

    pub closed spec fn rotulos_spec(&self) -> Seq<Rotulo> {
        self.rotulos@
    }

    pub closed spec fn aberta(&self) -> bool {
        self.ativo
    }

    /// Two slots per label, within the capacity.
    pub open spec fn wf(&self) -> bool {
        &&& self.usadas() == 2 * self.rotulos_spec().len()
        &&& self.usadas() <= self.cap()
        &&& self.cap() <= MARCAS
    }

    /// A closed session with `capacidade` slots.
    pub fn nova(capacidade: u32) -> (m: Marcas)
        requires
            capacidade <= MARCAS,
        ensures
            m.wf(),
            m.cap() == capacidade,
            m.usadas() == 0,
            !m.aberta(),
    {
        Marcas { capacidade, proximo: 0, rotulos: Vec::new(), ativo: false }
    }

    /// Dispatches that one session can time.
    pub fn capacidade_perfil(&self) -> (n: usize)
        ensures
            n == self.cap() / 2,
    {
        (self.capacidade / 2) as usize
    }

    pub fn ativo(&self) -> (b: bool)
        ensures
            b == self.aberta(),
    {
        self.ativo
    }

    /// Opens a session: no slot used, no label.
    pub fn iniciar(&mut self)
        requires
            old(self).wf(),
        ensures
            final(self).wf(),
            final(self).cap() == old(self).cap(),
            final(self).usadas() == 0,
            final(self).aberta(),
    {
        self.proximo = 0;
        self.rotulos = Vec::new();
        self.ativo = true;
    }

    /// Closes the session and gives the number of slots used.
    pub fn encerrar(&mut self) -> (n: u32)
        requires
            old(self).wf(),
        ensures
            final(self).wf(),
            n == old(self).usadas(),
            !final(self).aberta(),
            final(self).cap() == old(self).cap(),
            final(self).usadas() == old(self).usadas(),
            final(self).rotulos_spec() == old(self).rotulos_spec(),
    {
        self.ativo = false;
        self.proximo
    }

    /// The two slots for a dispatch labelled `r`: the next pair while the
    /// session is open and has room, nothing otherwise.
    pub fn reservar(&mut self, r: Rotulo) -> (s: Option<(u32, u32)>)
        requires
            old(self).wf(),
        ensures
            final(self).wf(),
            final(self).cap() == old(self).cap(),
            final(self).aberta() == old(self).aberta(),
            old(self).aberta() && old(self).usadas() + 2 <= old(self).cap() ==> {
                &&& s == Some((old(self).usadas(), (old(self).usadas() + 1) as u32))
                &&& final(self).usadas() == old(self).usadas() + 2
                &&& final(self).rotulos_spec() == old(self).rotulos_spec().push(r)
            },
            !(old(self).aberta() && old(self).usadas() + 2 <= old(self).cap()) ==> {
                &&& s is None
                &&& final(self).usadas() == old(self).usadas()
                &&& final(self).rotulos_spec() == old(self).rotulos_spec()
            },
    {
        if !self.ativo {
            return None;
        }
        let i = self.proximo;
        if i + 2 > self.capacidade {
            return None;
        }
        self.proximo = i + 2;
        self.rotulos.push(r);
        Some((i, i + 1))
    }

    /// The labels of the dispatches timed so far, in order.
    pub fn rotulos(&self) -> (r: &[Rotulo])
        ensures
            r@ == self.rotulos_spec(),
    {
        self.rotulos.as_slice()
    }
}


/// What the profiler reports of the marks `rot` with timestamps `t`: one
/// entry per label, with how many dispatches carried it and their ticks in
/// all; the greatest total first, ties in the order the labels first came.
pub open spec fn agregado(rot: Seq<Rotulo>, t: Seq<u64>, out: Seq<(Rotulo, u32, u128)>) -> bool {
    let n = rot.len() as int;
    &&& forall|j: int|
        0 <= j < out.len() ==> (#[trigger] out[j]).1 == contagem(rot, out[j].0, n) && out[j].2
            == soma_tiques(rot, t, out[j].0, n)
    &&& forall|r: Rotulo| (exists|j: int| 0 <= j < out.len() && (#[trigger] out[j]).0 == r) <==> contagem(rot, r, n) > 0
    &&& forall|j: int, k: int| 0 <= j < k < out.len() ==> (#[trigger] out[j]).0 != (#[trigger] out[k]).0
    &&& forall|j: int, k: int|
        0 <= j < k < out.len() ==> (#[trigger] out[j]).2 > (#[trigger] out[k]).2 || (out[j].2 == out[k].2
            && primeira(rot, out[j].0, n) < primeira(rot, out[k].0, n))
}

impl Marcas {
    /// Ticks per label of the dispatches timed in the session, from the
    /// timestamps `tiques` that the device resolved: two per dispatch,
    /// start then end.
    #[verifier::spinoff_prover]
    pub fn agregar(&self, tiques: &[u64]) -> (out: Vec<(Rotulo, u32, u128)>)
        requires
            self.wf(),
            tiques@.len() >= 2 * self.rotulos_spec().len(),
        ensures
            agregado(self.rotulos_spec(), tiques@, out@),
    {
        let ghost rot = self.rotulos@;
        let ghost t = tiques@;
        let n = self.rotulos.len();
        // Entries in the order the labels first appear.
        let mut agg: Vec<(Rotulo, u32, u128)> = Vec::new();
        let mut i: usize = 0;
        while i < n
            invariant
                i <= n,
                n == rot.len(),
                rot == self.rotulos@,
                t == tiques@,
                t.len() >= 2 * n,
                n <= MARCAS / 2,
                forall|j: int|
                    0 <= j < agg@.len() ==> (#[trigger] agg@[j]).1 == contagem(rot, agg@[j].0, i as int)
                        && agg@[j].2 == soma_tiques(rot, t, agg@[j].0, i as int),
                forall|r: Rotulo|
                    (exists|j: int| 0 <= j < agg@.len() && (#[trigger] agg@[j]).0 == r) <==> contagem(
                        rot,
                        r,
                        i as int,
                    ) > 0,
                forall|j: int, k: int|
                    0 <= j < k < agg@.len() ==> (#[trigger] agg@[j]).0 != (#[trigger] agg@[k]).0,
                forall|j: int, k: int|
                    0 <= j < k < agg@.len() ==> primeira(rot, (#[trigger] agg@[j]).0, i as int)
                        < primeira(rot, (#[trigger] agg@[k]).0, i as int),
            decreases n - i,
        {
            let r = self.rotulos[i];
            let ini = tiques[2 * i];
            let fim = tiques[2 * i + 1];
            let d: u64 = if fim >= ini {
                fim - ini
            } else {
                0
            };
            let mut j: usize = 0;
            while j < agg.len() && agg[j].0 != r
                invariant
                    j <= agg@.len(),
                    forall|q: int| 0 <= q < j ==> (#[trigger] agg@[q]).0 != r,
                decreases agg@.len() - j,
            {
                j = j + 1;
            }
            let ghost before = agg@;
            proof {
                assert forall|r2: Rotulo| #![trigger contagem(rot, r2, i + 1)] true implies contagem(rot, r2, i + 1) == contagem(
                    rot,
                    r2,
                    i as int,
                ) + if rot[i as int] == r2 {
                    1int
                } else {
                    0int
                } by {}
                assert forall|r2: Rotulo| #![trigger soma_tiques(rot, t, r2, i + 1)] true implies soma_tiques(rot, t, r2, i + 1)
                    == soma_tiques(rot, t, r2, i as int) + if rot[i as int] == r2 {
                    duracao(t, i as int)
                } else {
                    0
                } by {}
            }
            if j < agg.len() {
                let (r0, c, s) = agg[j];
                proof {
                    assert(r0 == r);
                    lemma_contagem(rot, r, i as int);
                    lemma_soma_pos(rot, t, r, i as int);
                    assert(c < i + 1);
                }
                agg.set(j, (r, c + 1, s + d as u128));
                proof {
                    assert forall|q: int| 0 <= q < agg@.len() implies (#[trigger] agg@[q]).1
                        == contagem(rot, agg@[q].0, i + 1) && agg@[q].2 == soma_tiques(
                        rot,
                        t,
                        agg@[q].0,
                        i + 1,
                    ) by {
                        if q != j {
                            assert(agg@[q] == before[q]);
                            assert(before[q].0 != r);
                        }
                    }
                    assert forall|r2: Rotulo|
                        #![trigger contagem(rot, r2, i + 1)]
                        (exists|q: int| 0 <= q < agg@.len() && (#[trigger] agg@[q]).0 == r2) <==> contagem(
                            rot,
                            r2,
                            i + 1,
                        ) > 0 by {
                        if exists|q: int| 0 <= q < agg@.len() && (#[trigger] agg@[q]).0 == r2 {
                            let q = choose|q: int| 0 <= q < agg@.len() && (#[trigger] agg@[q]).0 == r2;
                            assert(before[q].0 == r2);
                            lemma_contagem(rot, r2, i as int);
                        }
                        if contagem(rot, r2, i + 1) > 0 {
                            lemma_contagem(rot, r2, i as int);
                            if r2 != r {
                                let q = choose|q: int| 0 <= q < before.len() && (#[trigger] before[q]).0 == r2;
                                assert(agg@[q].0 == r2);
                            } else {
                                assert(agg@[j as int].0 == r2);
                            }
                        }
                    }
                    assert forall|a: int, b: int| 0 <= a < b < agg@.len() implies primeira(
                        rot,
                        (#[trigger] agg@[a]).0,
                        i + 1,
                    ) < primeira(rot, (#[trigger] agg@[b]).0, i + 1) by {
                        assert(agg@[a].0 == before[a].0);
                        assert(agg@[b].0 == before[b].0);
                        lemma_contagem(rot, before[a].0, i as int);
                        lemma_contagem(rot, before[b].0, i as int);
                        assert(exists|q: int| 0 <= q < before.len() && (#[trigger] before[q]).0 == before[a].0);
                        assert(exists|q: int| 0 <= q < before.len() && (#[trigger] before[q]).0 == before[b].0);
                        lemma_primeira_estavel(rot, before[a].0, i as int, i + 1);
                        lemma_primeira_estavel(rot, before[b].0, i as int, i + 1);
                    }
                    assert forall|a: int, b: int| 0 <= a < b < agg@.len() implies (#[trigger] agg@[a]).0
                        != (#[trigger] agg@[b]).0 by {
                        assert(agg@[a].0 == before[a].0);
                        assert(agg@[b].0 == before[b].0);
                    }
                }
            } else {
                agg.push((r, 1, d as u128));
                proof {
                    lemma_contagem(rot, r, i as int);
                    assert(contagem(rot, r, i as int) == 0);
                    lemma_soma_zero(rot, t, r, i as int);
                    assert(contagem(rot, r, i + 1) == 1);
                    assert(soma_tiques(rot, t, r, i + 1) == d);
                    assert(primeira(rot, r, i + 1) == i);
                    assert forall|q: int| 0 <= q < agg@.len() implies (#[trigger] agg@[q]).1
                        == contagem(rot, agg@[q].0, i + 1) && agg@[q].2 == soma_tiques(
                        rot,
                        t,
                        agg@[q].0,
                        i + 1,
                    ) by {
                        if q < before.len() {
                            assert(agg@[q] == before[q]);
                            assert(before[q].0 != r);
                        }
                    }
                    assert forall|r2: Rotulo|
                        #![trigger contagem(rot, r2, i + 1)]
                        (exists|q: int| 0 <= q < agg@.len() && (#[trigger] agg@[q]).0 == r2) <==> contagem(
                            rot,
                            r2,
                            i + 1,
                        ) > 0 by {
                        if exists|q: int| 0 <= q < agg@.len() && (#[trigger] agg@[q]).0 == r2 {
                            let q = choose|q: int| 0 <= q < agg@.len() && (#[trigger] agg@[q]).0 == r2;
                            if q < before.len() {
                                assert(before[q].0 == r2);
                            }
                            lemma_contagem(rot, r2, i as int);
                        }
                        if contagem(rot, r2, i + 1) > 0 {
                            lemma_contagem(rot, r2, i as int);
                            if r2 != r {
                                let q = choose|q: int| 0 <= q < before.len() && (#[trigger] before[q]).0 == r2;
                                assert(agg@[q].0 == r2);
                            } else {
                                assert(agg@[before.len() as int].0 == r2);
                            }
                        }
                    }
                    assert forall|a: int, b: int| 0 <= a < b < agg@.len() implies primeira(
                        rot,
                        (#[trigger] agg@[a]).0,
                        i + 1,
                    ) < primeira(rot, (#[trigger] agg@[b]).0, i + 1) by {
                        assert(agg@[a].0 == before[a].0);
                        lemma_contagem(rot, before[a].0, i as int);
                        assert(exists|q: int| 0 <= q < before.len() && (#[trigger] before[q]).0 == before[a].0);
                        lemma_primeira_estavel(rot, before[a].0, i as int, i + 1);
                        if b < before.len() {
                            assert(agg@[b].0 == before[b].0);
                            lemma_contagem(rot, before[b].0, i as int);
                            assert(exists|q: int| 0 <= q < before.len() && (#[trigger] before[q]).0 == before[b].0);
                            lemma_primeira_estavel(rot, before[b].0, i as int, i + 1);
                        }
                    }
                    assert forall|a: int, b: int| 0 <= a < b < agg@.len() implies (#[trigger] agg@[a]).0
                        != (#[trigger] agg@[b]).0 by {
                        assert(agg@[a].0 == before[a].0);
                        if b < before.len() {
                            assert(agg@[b].0 == before[b].0);
                        }
                    }
                }
            }
            i = i + 1;
        }
        // Stable sort by total ticks, greatest first.
        let mut out: Vec<(Rotulo, u32, u128)> = Vec::new();
        let m = agg.len();
        let mut k: usize = 0;
        while k < m
            invariant
                k <= m,
                m == agg@.len(),
                n == rot.len(),
                forall|j: int|
                    0 <= j < agg@.len() ==> (#[trigger] agg@[j]).1 == contagem(rot, agg@[j].0, n as int)
                        && agg@[j].2 == soma_tiques(rot, t, agg@[j].0, n as int),
                forall|j: int, q: int|
                    0 <= j < q < agg@.len() ==> (#[trigger] agg@[j]).0 != (#[trigger] agg@[q]).0,
                forall|j: int, q: int|
                    0 <= j < q < agg@.len() ==> primeira(rot, (#[trigger] agg@[j]).0, n as int)
                        < primeira(rot, (#[trigger] agg@[q]).0, n as int),
                out@.len() == k,
                forall|x: (Rotulo, u32, u128)| out@.contains(x) <==> exists|j: int| 0 <= j < k && agg@[j] == x,
                forall|a: int, b: int|
                    0 <= a < b < out@.len() ==> (#[trigger] out@[a]).2 > (#[trigger] out@[b]).2 || (out@[a].2
                        == out@[b].2 && primeira(rot, out@[a].0, n as int) < primeira(rot, out@[b].0, n as int)),
            decreases m - k,
        {
            let e = agg[k];
            let mut p: usize = 0;
            while p < out.len() && out[p].2 >= e.2
                invariant
                    p <= out@.len(),
                    forall|q: int| 0 <= q < p ==> (#[trigger] out@[q]).2 >= e.2,
                decreases out@.len() - p,
            {
                p = p + 1;
            }
            let ghost before = out@;
            proof {
                // Every entry already placed came first in `agg`.
                assert forall|q: int| 0 <= q < before.len() implies primeira(rot, (#[trigger] before[q]).0, n as int)
                    < primeira(rot, e.0, n as int) by {
                    assert(before.contains(before[q]));
                    let j = choose|j: int| 0 <= j < k && agg@[j] == before[q];
                    assert(primeira(rot, agg@[j].0, n as int) < primeira(rot, agg@[k as int].0, n as int));
                }
            }
            out.insert(p, e);
            proof {
                assert forall|a: int, b: int| 0 <= a < b < out@.len() implies (#[trigger] out@[a]).2
                    > (#[trigger] out@[b]).2 || (out@[a].2 == out@[b].2 && primeira(rot, out@[a].0, n as int)
                    < primeira(rot, out@[b].0, n as int)) by {
                    if b < p {
                        assert(out@[a] == before[a]);
                        assert(out@[b] == before[b]);
                    } else if b == p {
                        assert(out@[a] == before[a]);
                    } else if a < p {
                        assert(out@[a] == before[a]);
                        assert(out@[b] == before[b - 1]);
                    } else if a == p {
                        assert(out@[b] == before[b - 1]);
                        assert(before[p as int].2 < e.2);
                        if b - 1 > p {
                            assert(before[p as int].2 > before[b - 1].2 || before[p as int].2 == before[b - 1].2);
                        }
                    } else {
                        assert(out@[a] == before[a - 1]);
                        assert(out@[b] == before[b - 1]);
                    }
                }
                assert forall|x: (Rotulo, u32, u128)| out@.contains(x) <==> exists|j: int|
                    0 <= j < k + 1 && agg@[j] == x by {
                    if out@.contains(x) {
                        let q = choose|q: int| 0 <= q < out@.len() && out@[q] == x;
                        if q < p {
                            assert(before[q] == x);
                            assert(before.contains(x));
                        } else if q > p {
                            assert(before[q - 1] == x);
                            assert(before.contains(x));
                        } else {
                            assert(agg@[k as int] == x);
                        }
                    }
                    if exists|j: int| 0 <= j < k + 1 && agg@[j] == x {
                        let j = choose|j: int| 0 <= j < k + 1 && agg@[j] == x;
                        if j < k {
                            assert(exists|j2: int| 0 <= j2 < k && agg@[j2] == x);
                            assert(before.contains(x));
                            let q = choose|q: int| 0 <= q < before.len() && before[q] == x;
                            if q < p {
                                assert(out@[q] == x);
                            } else {
                                assert(out@[q + 1] == x);
                            }
                        } else {
                            assert(out@[p as int] == x);
                        }
                    }
                }
            }
            k = k + 1;
        }
        proof {
            assert forall|j: int| 0 <= j < out@.len() implies (#[trigger] out@[j]).1 == contagem(
                rot,
                out@[j].0,
                n as int,
            ) && out@[j].2 == soma_tiques(rot, t, out@[j].0, n as int) by {
                assert(out@.contains(out@[j]));
            }
            assert forall|r: Rotulo| (exists|j: int| 0 <= j < out@.len() && (#[trigger] out@[j]).0 == r)
                <==> contagem(rot, r, n as int) > 0 by {
                if exists|j: int| 0 <= j < out@.len() && (#[trigger] out@[j]).0 == r {
                    let j = choose|j: int| 0 <= j < out@.len() && (#[trigger] out@[j]).0 == r;
                    assert(out@.contains(out@[j]));
                    let q = choose|q: int| 0 <= q < m && agg@[q] == out@[j];
                    assert(agg@[q].0 == r);
                }
                if contagem(rot, r, n as int) > 0 {
                    let q = choose|q: int| 0 <= q < agg@.len() && (#[trigger] agg@[q]).0 == r;
                    assert(exists|q2: int| 0 <= q2 < m && agg@[q2] == agg@[q]);
                    assert(out@.contains(agg@[q]));
                    let j = choose|j: int| 0 <= j < out@.len() && out@[j] == agg@[q];
                    assert(out@[j].0 == r);
                }
            }
            assert forall|a: int, b: int| 0 <= a < b < out@.len() implies (#[trigger] out@[a]).0
                != (#[trigger] out@[b]).0 by {
                if out@[a].0 == out@[b].0 {
                    if out@[a].2 == out@[b].2 {
                        assert(primeira(rot, out@[a].0, n as int) < primeira(rot, out@[b].0, n as int));
                    } else {
                        assert(out@.contains(out@[a]));
                        assert(out@.contains(out@[b]));
                    }
                }
            }
        }
        out
    }

    /// Ticks per label from the resolved timestamps, two per timed dispatch;
    /// fails exactly when there are fewer than that.
    pub fn agregar_palavras(&self, tiques: &[u64]) -> (r: Result<Vec<(Rotulo, u32, u128)>, ErroLeitura>)
        requires
            self.wf(),
        ensures
            r is Err <==> tiques@.len() < 2 * self.rotulos_spec().len(),
            r is Err ==> r == Err::<Vec<(Rotulo, u32, u128)>, ErroLeitura>(ErroLeitura::Bytes),
            r matches Ok(v) ==> agregado(self.rotulos_spec(), tiques@, v@),
    {
        if tiques.len() < 2 * self.rotulos.len() {
            return Err(ErroLeitura::Bytes);
        }
        Ok(self.agregar(tiques))
    }

    /// Ticks per label from a mapped copy of the resolved timestamps. Fails
    /// when the bytes do not make whole aligned 64-bit words, or hold fewer
    /// than two per timed dispatch.
    pub fn agregar_bytes(&self, bytes: &[u8]) -> (r: Result<Vec<(Rotulo, u32, u128)>, ErroLeitura>)
        requires
            self.wf(),
        ensures
            r matches Ok(v) ==> exists|w: Seq<u64>|
                palavras64(bytes@, w) && w.len() >= 2 * self.rotulos_spec().len() && agregado(
                    self.rotulos_spec(),
                    w,
                    v@,
                ),
            bytes@.len() < 16 * self.rotulos_spec().len() ==> r is Err,
            bytes@.len() % 8 != 0 ==> r is Err,
    {
        match palavras_u64(bytes) {
            Ok(w) => self.agregar_palavras(w.as_slice()),
            Err(e) => Err(e),
        }
    }
}

} // verus!
