//! The backward sweep of reverse-mode differentiation.
//!
//! A tape lists its nodes in topological order: every parent comes before
//! its child. The sweep seeds the root with its adjoint and walks the tape
//! from the last node down. A node that holds an adjoint and knows its
//! vector-Jacobian product hands one contribution to each of its parents; a
//! parent without an adjoint yet stores the first one it receives, and adds
//! each later one to it element by element. Since every child of a node
//! comes after it, a node's adjoint is complete when the sweep reaches it.
//! The element arithmetic and the products are the caller's closures.

use crate::tensor::{combina_seq, lemma_op_value, total_op, Tensor};
use vstd::prelude::*;

verus! {

/// The contributions that `vjp` gives node `i` for the adjoint `g`.
pub open spec fn saida<T: Copy, V: Fn(usize, &Tensor<T>) -> Vec<Tensor<T>>>(
    vjp: V,
    i: usize,
    g: Tensor<T>,
) -> Seq<Tensor<T>> {
    (choose|o: Vec<Tensor<T>>| vjp.ensures((i, &g), o))@
}

/// `vjp` can be called on every node and adjoint, gives one result for
/// each, and gives node `i` one well-formed contribution per parent, in the
/// order of `pais[i]`, with the shape of that parent.
pub open spec fn vjp_ok<T: Copy, V: Fn(usize, &Tensor<T>) -> Vec<Tensor<T>>>(
    vjp: V,
    pais: Seq<Vec<usize>>,
    formas: Seq<Vec<usize>>,
) -> bool {
    &&& forall|i: usize, g: &Tensor<T>| #[trigger] vjp.requires((i, g))
    &&& forall|i: usize, g: &Tensor<T>, o1: Vec<Tensor<T>>, o2: Vec<Tensor<T>>|
        #![trigger vjp.ensures((i, g), o1), vjp.ensures((i, g), o2)]
        vjp.ensures((i, g), o1) && vjp.ensures((i, g), o2) ==> o1@ == o2@
    &&& forall|i: usize, g: &Tensor<T>, o: Vec<Tensor<T>>|
        #[trigger] vjp.ensures((i, g), o) && i < pais.len() ==> {
            &&& o@.len() == pais[i as int]@.len()
            &&& forall|k: int|
                0 <= k < o@.len() ==> (#[trigger] o@[k]).wf() && o@[k].shape_view()
                    == formas[pais[i as int]@[k] as int]@
        }
}

/// The contributions among the first `k` of `outs` whose parent is `v`, in
/// order.
pub open spec fn filtra<T>(outs: Seq<Tensor<T>>, ps: Seq<usize>, v: int, k: int) -> Seq<Tensor<T>>
    decreases k,
{
    if k <= 0 {
        Seq::empty()
    } else {
        filtra(outs, ps, v, k - 1) + if ps[k - 1] == v {
            seq![outs[k - 1]]
        } else {
            Seq::empty()
        }
    }
}

/// What node `c` hands to node `v` when the adjoints are `g`: nothing
/// unless `c` has a product and an adjoint.
pub open spec fn contrib_no<T: Copy, V: Fn(usize, &Tensor<T>) -> Vec<Tensor<T>>>(
    vjp: V,
    pais: Seq<Vec<usize>>,
    tem: Seq<bool>,
    g: Seq<Option<Tensor<T>>>,
    c: int,
    v: int,
) -> Seq<Tensor<T>> {
    if tem[c] && g[c] is Some {
        filtra(saida(vjp, c as usize, g[c]->0), pais[c]@, v, pais[c]@.len() as int)
    } else {
        Seq::empty()
    }
}

/// The contributions to `v` from the nodes in `[lo, hi)`, in the order the
/// sweep makes them: the highest node first.
pub open spec fn contribs<T: Copy, V: Fn(usize, &Tensor<T>) -> Vec<Tensor<T>>>(
    vjp: V,
    pais: Seq<Vec<usize>>,
    tem: Seq<bool>,
    g: Seq<Option<Tensor<T>>>,
    v: int,
    lo: int,
    hi: int,
) -> Seq<Tensor<T>>
    decreases hi - lo,
{
    if lo >= hi {
        Seq::empty()
    } else {
        contribs(vjp, pais, tem, g, v, lo + 1, hi) + contrib_no(vjp, pais, tem, g, lo, v)
    }
}

/// The elements of the sum of `cs`: the first, then each next one added
/// element by element through `soma`.
pub open spec fn soma_de<T: Copy, S: Fn(T, T) -> T>(soma: S, cs: Seq<Tensor<T>>) -> Seq<T>
    decreases cs.len(),
{
    if cs.len() <= 1 {
        cs[0].data_view()
    } else {
        combina_seq(soma, soma_de(soma, cs.drop_last()), cs.last().data_view())
    }
}

/// The adjoint of `v` in `g` is the sum of `cs`: present exactly when some
/// contribution was made, with the shape of `v`.
pub open spec fn adjunto<T: Copy, S: Fn(T, T) -> T>(
    soma: S,
    g: Seq<Option<Tensor<T>>>,
    v: int,
    cs: Seq<Tensor<T>>,
    forma: Seq<usize>,
) -> bool {
    &&& (g[v] is Some <==> cs.len() > 0)
    &&& g[v] is Some ==> {
        &&& g[v]->0.wf()
        &&& g[v]->0.shape_view() == forma
        &&& g[v]->0.data_view() == soma_de(soma, cs)
    }
}

proof fn lemma_contribs_frame<T: Copy, V: Fn(usize, &Tensor<T>) -> Vec<Tensor<T>>>(
    vjp: V,
    pais: Seq<Vec<usize>>,
    tem: Seq<bool>,
    g1: Seq<Option<Tensor<T>>>,
    g2: Seq<Option<Tensor<T>>>,
    v: int,
    lo: int,
    hi: int,
)
    requires
        forall|c: int| lo <= c < hi ==> g1[c] == g2[c],
    ensures
        contribs(vjp, pais, tem, g1, v, lo, hi) == contribs(vjp, pais, tem, g2, v, lo, hi),
    decreases hi - lo,
{
    if lo < hi {
        lemma_contribs_frame(vjp, pais, tem, g1, g2, v, lo + 1, hi);
    }
}

proof fn lemma_filtra_vazia<T>(outs: Seq<Tensor<T>>, ps: Seq<usize>, v: int, k: int)
    requires
        0 <= k <= ps.len(),
        0 <= v,
    ensures
        filtra(outs, ps, v, k).len() > 0 <==> exists|q: int| 0 <= q < k && ps[q] == v,
    decreases k,
{
    if k > 0 {
        lemma_filtra_vazia(outs, ps, v, k - 1);
    }
}

proof fn lemma_contribs_vazia<T: Copy, V: Fn(usize, &Tensor<T>) -> Vec<Tensor<T>>>(
    vjp: V,
    pais: Seq<Vec<usize>>,
    tem: Seq<bool>,
    g: Seq<Option<Tensor<T>>>,
    v: int,
    lo: int,
    hi: int,
)
    requires
        0 <= v <= usize::MAX,
        0 <= lo,
        hi <= pais.len(),
    ensures
        contribs(vjp, pais, tem, g, v, lo, hi).len() > 0 <==> exists|c: int|
            lo <= c < hi && tem[c] && g[c] is Some && #[trigger] pais[c]@.contains(v as usize),
    decreases hi - lo,
{
    if lo < hi {
        lemma_contribs_vazia(vjp, pais, tem, g, v, lo + 1, hi);
        lemma_filtra_vazia(
            saida(vjp, lo as usize, g[lo]->0),
            pais[lo]@,
            v,
            pais[lo]@.len() as int,
        );
        if pais[lo]@.contains(v as usize) {
            let q = choose|q: int| 0 <= q < pais[lo]@.len() && pais[lo]@[q] == v as usize;
            assert(pais[lo]@[q] == v);
        }
        if exists|q: int| 0 <= q < pais[lo]@.len() && pais[lo]@[q] == v {
            let q = choose|q: int| 0 <= q < pais[lo]@.len() && pais[lo]@[q] == v;
            assert(pais[lo]@.contains(v as usize)) by {
                assert(pais[lo]@[q] == v as usize);
            }
        }
    }
}

/// Lower end of the nodes whose contributions to `v` are in once the sweep
/// has handled the nodes from `i` up.
pub open spec fn desde(v: int, i: int) -> int {
    if v < i {
        i
    } else {
        v + 1
    }
}

/// The backward sweep: the adjoint of every node of a tape whose node `c`
/// has the parents `pais[c]`, all before it, and a vector-Jacobian product
/// when `tem_vjp[c]`; `raiz` is seeded with `semente`. Node `v` gets the sum,
/// through `soma`, of what `vjp` hands it from every later node that holds
/// an adjoint, highest node first and, within a node, in the order of its
/// parents; it stays without an adjoint when nothing reaches it. Nodes after
/// the root get nothing.
pub fn varrer<T: Copy, V: Fn(usize, &Tensor<T>) -> Vec<Tensor<T>>, S: Fn(T, T) -> T>(
    pais: &[Vec<usize>],
    tem_vjp: &[bool],
    formas: &[Vec<usize>],
    raiz: usize,
    semente: Tensor<T>,
    vjp: V,
    soma: S,
) -> (g: Vec<Option<Tensor<T>>>)
    requires
        raiz < pais@.len(),
        tem_vjp@.len() == pais@.len(),
        formas@.len() == pais@.len(),
        forall|c: int, k: int|
            0 <= c < pais@.len() && 0 <= k < pais@[c]@.len() ==> #[trigger] pais@[c]@[k] < c,
        vjp_ok(vjp, pais@, formas@),
        total_op(soma),
    ensures
        g@.len() == pais@.len(),
        g@[raiz as int] == Some(semente),
        forall|v: int| raiz < v < g@.len() ==> #[trigger] g@[v] is None,
        forall|v: int|
            0 <= v < raiz ==> (#[trigger] g@[v] is Some <==> exists|c: int|
                v < c < g@.len() && tem_vjp@[c] && g@[c] is Some && #[trigger] pais@[c]@.contains(
                    v as usize,
                )),
        forall|v: int|
            0 <= v < raiz ==> #[trigger] adjunto(
                soma,
                g@,
                v,
                contribs(vjp, pais@, tem_vjp@, g@, v, v + 1, pais@.len() as int),
                formas@[v]@,
            ),
{
    let n = pais.len();
    let ghost ps = pais@;
    let ghost tem = tem_vjp@;
    let mut g: Vec<Option<Tensor<T>>> = Vec::new();
    let mut j: usize = 0;
    while j < n
        invariant
            j <= n,
            g@.len() == j,
            forall|v: int| 0 <= v < j ==> #[trigger] g@[v] is None,
        decreases n - j,
    {
        g.push(None);
        j = j + 1;
    }
    g[raiz] = Some(semente);
    let mut i: usize = n;
    while i > 0
        invariant
            i <= n,
            n == ps.len(),
            ps == pais@,
            tem == tem_vjp@,
            raiz < n,
            tem.len() == n,
            formas@.len() == n,
            forall|c: int, k: int|
                0 <= c < ps.len() && 0 <= k < ps[c]@.len() ==> #[trigger] ps[c]@[k] < c,
            vjp_ok(vjp, ps, formas@),
            total_op(soma),
            g@.len() == n,
            g@[raiz as int] == Some(semente),
            forall|v: int| raiz < v < n ==> #[trigger] g@[v] is None,
            forall|v: int|
                0 <= v < raiz ==> #[trigger] adjunto(
                    soma,
                    g@,
                    v,
                    contribs(vjp, ps, tem, g@, v, desde(v, i as int), n as int),
                    formas@[v]@,
                ),
        decreases i,
    {
        let c = i - 1;
        let ghost g0 = g@;
        if tem_vjp[c] && g[c].is_some() {
            proof {
                assert(c <= raiz);
            }
            let outs = match &g[c] {
                Some(gc) => vjp(c, gc),
                None => Vec::new(),
            };
            let ghost os = outs@;
            let ghost gc = g0[c as int]->0;
            proof {
                assert(vjp.ensures((c, &gc), outs));
                let o2 = choose|o: Vec<Tensor<T>>| vjp.ensures((c, &gc), o);
                assert(vjp.ensures((c, &gc), o2));
                assert(saida(vjp, c, gc) == os);
            }
            let m = pais[c].len();
            proof {
                assert forall|v: int| 0 <= v < c implies #[trigger] adjunto(
                    soma,
                    g@,
                    v,
                    contribs(vjp, ps, tem, g0, v, i as int, n as int) + filtra(
                        os,
                        ps[c as int]@,
                        v,
                        0,
                    ),
                    formas@[v]@,
                ) by {
                    assert(desde(v, i as int) == i);
                    assert(adjunto(
                        soma,
                        g@,
                        v,
                        contribs(vjp, ps, tem, g@, v, desde(v, i as int), n as int),
                        formas@[v]@,
                    ));
                    assert(contribs(vjp, ps, tem, g0, v, i as int, n as int) + filtra(
                        os,
                        ps[c as int]@,
                        v,
                        0,
                    ) =~= contribs(vjp, ps, tem, g0, v, i as int, n as int));
                }
            }
            let mut resto = outs;
            let mut k: usize = 0;
            while k < m
                invariant
                    c < n,
                    c <= raiz,
                    m == ps[c as int]@.len(),
                    os.len() == m,
                    k <= m,
                    resto@ == os.subrange(k as int, m as int),
                    n == ps.len(),
                    ps == pais@,
                    formas@.len() == n,
                    forall|c2: int, k2: int|
                        0 <= c2 < ps.len() && 0 <= k2 < ps[c2]@.len() ==> #[trigger] ps[c2]@[k2]
                            < c2,
                    forall|q: int|
                        0 <= q < m ==> (#[trigger] os[q]).wf() && os[q].shape_view()
                            == formas@[ps[c as int]@[q] as int]@,
                    total_op(soma),
                    g@.len() == n,
                    forall|v: int| c <= v < n ==> #[trigger] g@[v] == g0[v],
                    forall|v: int|
                        0 <= v < c ==> #[trigger] adjunto(
                            soma,
                            g@,
                            v,
                            contribs(vjp, ps, tem, g0, v, i as int, n as int) + filtra(
                                os,
                                ps[c as int]@,
                                v,
                                k as int,
                            ),
                            formas@[v]@,
                        ),
                decreases m - k,
            {
                let t = resto.remove(0);
                let p = pais[c][k];
                proof {
                    assert(t == os[k as int]);
                    assert(p < c);
                }
                let ghost gp = g@;
                proof {
                    assert(adjunto(
                        soma,
                        g@,
                        p as int,
                        contribs(vjp, ps, tem, g0, p as int, i as int, n as int) + filtra(
                            os,
                            ps[c as int]@,
                            p as int,
                            k as int,
                        ),
                        formas@[p as int]@,
                    ));
                }
                let novo = match &g[p] {
                    Some(acc) => acc.combinar(&t, &soma),
                    None => t,
                };
                g[p] = Some(novo);
                proof {
                    assert forall|v: int| 0 <= v < c implies #[trigger] adjunto(
                        soma,
                        g@,
                        v,
                        contribs(vjp, ps, tem, g0, v, i as int, n as int) + filtra(
                            os,
                            ps[c as int]@,
                            v,
                            k + 1,
                        ),
                        formas@[v]@,
                    ) by {
                        let antes = contribs(vjp, ps, tem, g0, v, i as int, n as int) + filtra(
                            os,
                            ps[c as int]@,
                            v,
                            k as int,
                        );
                        assert(adjunto(soma, gp, v, antes, formas@[v]@));
                        if v == p {
                            let depois = antes.push(os[k as int]);
                            assert(contribs(vjp, ps, tem, g0, v, i as int, n as int) + filtra(
                                os,
                                ps[c as int]@,
                                v,
                                k + 1,
                            ) =~= depois);
                            assert(depois.drop_last() =~= antes);
                        } else {
                            assert(contribs(vjp, ps, tem, g0, v, i as int, n as int) + filtra(
                                os,
                                ps[c as int]@,
                                v,
                                k + 1,
                            ) =~= antes);
                        }
                    }
                }
                k = k + 1;
            }
            proof {
                assert forall|v: int| 0 <= v < raiz implies #[trigger] adjunto(
                    soma,
                    g@,
                    v,
                    contribs(vjp, ps, tem, g@, v, desde(v, c as int), n as int),
                    formas@[v]@,
                ) by {
                    lemma_contribs_frame(vjp, ps, tem, g@, g0, v, desde(v, c as int), n as int);
                    if v < c {
                        assert(desde(v, c as int) == c);
                        assert(contribs(vjp, ps, tem, g0, v, c as int, n as int)
                            == contribs(vjp, ps, tem, g0, v, i as int, n as int) + contrib_no(
                            vjp,
                            ps,
                            tem,
                            g0,
                            c as int,
                            v,
                        ));
                        assert(contrib_no(vjp, ps, tem, g0, c as int, v) == filtra(
                            os,
                            ps[c as int]@,
                            v,
                            m as int,
                        ));
                    } else {
                        assert(desde(v, c as int) == desde(v, i as int));
                        assert(adjunto(
                            soma,
                            g0,
                            v,
                            contribs(vjp, ps, tem, g0, v, desde(v, i as int), n as int),
                            formas@[v]@,
                        ));
                        assert(g@[v] == g0[v]);
                    }
                }
            }
        } else {
            proof {
                assert forall|v: int| 0 <= v < raiz implies #[trigger] adjunto(
                    soma,
                    g@,
                    v,
                    contribs(vjp, ps, tem, g@, v, desde(v, c as int), n as int),
                    formas@[v]@,
                ) by {
                    assert(adjunto(
                        soma,
                        g@,
                        v,
                        contribs(vjp, ps, tem, g@, v, desde(v, i as int), n as int),
                        formas@[v]@,
                    ));
                    if v < c {
                        assert(desde(v, c as int) == c);
                        assert(desde(v, i as int) == i);
                        assert(contrib_no(vjp, ps, tem, g@, c as int, v) =~= Seq::empty());
                        assert(contribs(vjp, ps, tem, g@, v, c as int, n as int) =~= contribs(
                            vjp,
                            ps,
                            tem,
                            g@,
                            v,
                            i as int,
                            n as int,
                        ));
                    } else {
                        assert(desde(v, c as int) == desde(v, i as int));
                    }
                }
            }
        }
        i = c;
    }
    proof {
        assert forall|v: int| 0 <= v < raiz implies #[trigger] adjunto(
            soma,
            g@,
            v,
            contribs(vjp, pais@, tem_vjp@, g@, v, v + 1, pais@.len() as int),
            formas@[v]@,
        ) by {
            assert(desde(v, 0) == v + 1);
        }
        assert forall|v: int| 0 <= v < raiz implies (#[trigger] g@[v] is Some <==> exists|c: int|
            v < c < g@.len() && tem_vjp@[c] && g@[c] is Some && #[trigger] pais@[c]@.contains(
                v as usize,
            )) by {
            assert(desde(v, 0) == v + 1);
            assert(adjunto(
                soma,
                g@,
                v,
                contribs(vjp, pais@, tem_vjp@, g@, v, v + 1, pais@.len() as int),
                formas@[v]@,
            ));
            lemma_contribs_vazia(vjp, pais@, tem_vjp@, g@, v, v + 1, pais@.len() as int);
        }
    }
    g
}

} // verus!
