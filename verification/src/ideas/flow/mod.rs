//! The flow lower bound and reduction (LP relaxation via bipartite
//! matching).

pub mod hopcroftkarp;
pub mod digraph;
pub mod residual;

pub use digraph::Digraph;
use digraph::reaches;

use vstd::prelude::*;
use vstd::set_lib::{set_int_range, lemma_int_range, lemma_map_size, lemma_len_subset};
use vstd::relations::injective_on;
use crate::graph::lemma_bounded_set_len;
use crate::idset::IdSet;
use crate::graph::{Vx, Edge, Graph, has_edge, without_set, without_vertex, simple_graph, lists_edge, nbrs,
    lemma_without_set_insert, lemma_nbrs_without_set, lemma_to_set_push};
use crate::state::{State, takes, hits, lemma_hits_push, fingers, is_vertex_cover, beyond_bound, progressed, unchanged, reduced, cover_safe, lemma_reduced_refl, lemma_reduced_trans,
    lemma_cover_safe_refl, lemma_cover_safe_trans, lemma_cover_safe_same};
use residual::{residual_arcs, residual_by, cap_of};
use crate::idea::Idea;
use crate::ideas::crown::{touches, endpoints};
use hopcroftkarp::{max_matching_bipartite, side_ok, left_end, right_end};
use residual::contains_arc;

verus! {

/// The flow rule.
pub struct Flow;

/// `p` joins `p.0` on the left to the right copy of a neighbour.
pub open spec fn doubled_pair(g: Map<Vx, Set<Vx>>, n: nat, p: Edge) -> bool {
    &&& p.0 < n
    &&& n <= p.1 < 2 * n
    &&& has_edge(g, p.0, (p.1 - n) as usize)
}

/// The arcs of the flow network of `g` on `0..n`: from the source `2n` to
/// each vertex, from each vertex to the right copy of each neighbour, and
/// from the right copy of each vertex to the sink `2n + 1`.
pub open spec fn flow_arcs(g: Map<Vx, Set<Vx>>, n: nat) -> Set<Edge> {
    Set::new(|e: Edge|
        doubled_pair(g, n, e)
        || (e.0 == 2 * n && g.dom().contains(e.1))
        || (e.1 == 2 * n + 1 && n <= e.0 < 2 * n && g.dom().contains((e.0 - n) as usize)))
}

/// Some edge of `m` has `x` as an end point.
pub open spec fn matched(m: Seq<Edge>, x: Vx) -> bool {
    exists|k: int| 0 <= k < m.len() && touches(#[trigger] m[k], x)
}

/// The arc `(u, v)` carries flow for the matching `m` of the doubled graph
/// on `0..n`: a source arc to a matched vertex, a sink arc from one, or a
/// middle arc along an edge of `m`.
pub open spec fn carries(m: Seq<Edge>, n: nat, u: Vx, v: Vx) -> bool {
    if u == 2 * n {
        matched(m, v)
    } else if v == 2 * n + 1 {
        matched(m, u)
    } else {
        m.contains(if u < v { (u, v) } else { (v, u) })
    }
}

/// Whether some edge of `m` has `x` as an end point.
fn is_matched(m: &Vec<Edge>, x: Vx) -> (r: bool)
    ensures
        r == matched(m@, x),
{
    let mut k: usize = 0;
    while k < m.len()
        invariant
            k <= m@.len(),
            forall|j: int| 0 <= j < k ==> !touches(#[trigger] m@[j], x),
        decreases m@.len() - k,
    {
        if m[k].0 == x || m[k].1 == x {
            proof {
                assert(touches(m@[k as int], x));
            }
            return true;
        }
        k = k + 1;
    }
    false
}

/// `g` doubled into a bipartite graph on `0..2n`: each edge `{i, j}`
/// becomes `{i, j + n}` and `{j, i + n}`; the left side is `0..n`.
pub fn undir_graph(g: &Graph) -> (r: (Graph, IdSet))
    requires
        g.wf(),
        2 * g.spec_n() < u32::MAX,
    ensures
        r.0.wf(),
        r.0.spec_n() == 2 * g.spec_n(),
        forall|a: Vx, b: Vx| #[trigger] has_edge(r.0@, a, b) <==> doubled_pair(g@, g.spec_n(), (a, b)) || doubled_pair(g@, g.spec_n(), (b, a)),
        forall|x: Vx| #[trigger] r.1@.contains(x) <==> x < g.spec_n(),
{
    let n = g.n();
    let es = g.edges();
    let mut out: Vec<Edge> = Vec::new();
    let mut k: usize = 0;
    proof {
        g.lemma_simple();
    }
    while k < es.len()
        invariant
            g.wf(),
            n == g.spec_n(),
            2 * n < u32::MAX,
            k <= es@.len(),
            forall|i: int| 0 <= i < es@.len() ==> es@[i].0 < es@[i].1 && has_edge(g@, es@[i].0, es@[i].1),
            forall|i: int| 0 <= i < out@.len() ==> doubled_pair(g@, n as nat, #[trigger] out@[i]),
            forall|i: int| 0 <= i < k ==> out@.contains((es@[i].0, (es@[i].1 + n) as usize)) && out@.contains((es@[i].1, (es@[i].0 + n) as usize)),
        decreases es@.len() - k,
    {
        let (i, j) = es[k];
        proof {
            assert(has_edge(g@, i, j));
            g.lemma_simple();
        }
        let ghost o0 = out@;
        out.push((i, j + n));
        out.push((j, i + n));
        proof {
            assert(has_edge(g@, j, i));
            assert(out@ == o0.push((i, (j + n) as usize)).push((j, (i + n) as usize)));
            assert forall|ii: int| 0 <= ii < out@.len() implies doubled_pair(g@, n as nat, #[trigger] out@[ii]) by {
                if ii < o0.len() {
                    assert(out@[ii] == o0[ii]);
                }
            }
            assert forall|ii: int| 0 <= ii < k + 1 implies out@.contains((es@[ii].0, (es@[ii].1 + n) as usize)) && out@.contains((es@[ii].1, (es@[ii].0 + n) as usize)) by {
                if ii < k {
                    crate::graph::lemma_push_contains(o0, (i, (j + n) as usize), (es@[ii].0, (es@[ii].1 + n) as usize));
                    crate::graph::lemma_push_contains(o0.push((i, (j + n) as usize)), (j, (i + n) as usize), (es@[ii].0, (es@[ii].1 + n) as usize));
                    crate::graph::lemma_push_contains(o0, (i, (j + n) as usize), (es@[ii].1, (es@[ii].0 + n) as usize));
                    crate::graph::lemma_push_contains(o0.push((i, (j + n) as usize)), (j, (i + n) as usize), (es@[ii].1, (es@[ii].0 + n) as usize));
                } else {
                    assert(out@[o0.len() as int] == (i, (j + n) as usize));
                    assert(out@[o0.len() as int + 1] == (j, (i + n) as usize));
                }
            }
        }
        k = k + 1;
    }
    proof {
        assert forall|ii: int| 0 <= ii < out@.len() implies out@[ii].0 < 2 * n && out@[ii].1 < 2 * n && out@[ii].0 != out@[ii].1 by {
            assert(doubled_pair(g@, n as nat, out@[ii]));
        }
    }
    let ghost edges = out@;
    let h = Graph::new(2 * n, out);
    proof {
        assert forall|a: Vx, b: Vx| #[trigger] has_edge(h@, a, b) <==> doubled_pair(g@, n as nat, (a, b)) || doubled_pair(g@, n as nat, (b, a)) by {
            if lists_edge(edges, a, b) {
                let i = choose|i: int| 0 <= i < edges.len() && (edges[i] == (a, b) || edges[i] == (b, a));
                assert(doubled_pair(g@, n as nat, edges[i]));
            }
            if doubled_pair(g@, n as nat, (a, b)) || doubled_pair(g@, n as nat, (b, a)) {
                let (x, y) = if doubled_pair(g@, n as nat, (a, b)) { (a, b) } else { (b, a) };
                let w = (y - n) as usize;
                assert(has_edge(g@, x, w));
                assert(has_edge(g@, w, x));
                assert(x != w);
                if x < w {
                    assert(es@.contains((x, w)));
                    let i = choose|i: int| 0 <= i < es@.len() && es@[i] == (x, w);
                    assert(edges.contains((es@[i].0, (es@[i].1 + n) as usize)));
                    let q = choose|q: int| 0 <= q < edges.len() && edges[q] == (x, y);
                    assert(lists_edge(edges, a, b));
                } else {
                    assert(es@.contains((w, x)));
                    let i = choose|i: int| 0 <= i < es@.len() && es@[i] == (w, x);
                    assert(edges.contains((es@[i].1, (es@[i].0 + n) as usize)));
                    let q = choose|q: int| 0 <= q < edges.len() && edges[q] == (x, y);
                    assert(lists_edge(edges, a, b));
                }
            }
        }
    }
    let mut l = IdSet::empty();
    let mut v: usize = 0;
    while v < n
        invariant
            v <= n,
            forall|x: Vx| #[trigger] l@.contains(x) <==> x < v,
        decreases n - v,
    {
        let ghost l0 = l@;
        l.insert(v);
        proof {
            assert forall|x: Vx| #[trigger] l@.contains(x) <==> x < v + 1 by {
                assert(l0.contains(x) <==> x < v);
            }
        }
        v = v + 1;
    }
    (h, l)
}

/// The flow network of `g`: the arcs of `flow_arcs` on the ids
/// `0..2n + 2`, with source `2n` and sink `2n + 1` (ids that `usize`
/// must hold).
pub fn build_digraph(g: &Graph) -> (d: Digraph)
    requires
        g.wf(),
        2 * g.spec_n() + 2 <= usize::MAX,
    ensures
        d.wf(),
        d.n == 2 * g.spec_n() + 2,
        d@ == flow_arcs(g@, g.spec_n()),
{
    let n = g.n();
    let s = n * 2;
    let t = n * 2 + 1;
    let es = g.edges();
    let mut out: Vec<Edge> = Vec::new();
    let mut k: usize = 0;
    proof {
        g.lemma_simple();
    }
    while k < es.len()
        invariant
            g.wf(),
            n == g.spec_n(),
            2 * n + 2 <= usize::MAX,
            k <= es@.len(),
            forall|i: int| 0 <= i < es@.len() ==> es@[i].0 < es@[i].1 && has_edge(g@, es@[i].0, es@[i].1),
            forall|i: int| 0 <= i < out@.len() ==> flow_arcs(g@, n as nat).contains(#[trigger] out@[i]),
            forall|i: int| 0 <= i < k ==> out@.contains((es@[i].0, (es@[i].1 + n) as usize)) && out@.contains((es@[i].1, (es@[i].0 + n) as usize)),
        decreases es@.len() - k,
    {
        let (i, j) = es[k];
        proof {
            assert(has_edge(g@, i, j));
            g.lemma_simple();
            assert(has_edge(g@, j, i));
        }
        let ghost o0 = out@;
        out.push((i, j + n));
        out.push((j, i + n));
        proof {
            assert(doubled_pair(g@, n as nat, (i, (j + n) as usize)));
            assert(doubled_pair(g@, n as nat, (j, (i + n) as usize)));
            assert forall|ii: int| 0 <= ii < out@.len() implies flow_arcs(g@, n as nat).contains(#[trigger] out@[ii]) by {
                if ii < o0.len() {
                    assert(out@[ii] == o0[ii]);
                }
            }
            assert forall|ii: int| 0 <= ii < k + 1 implies out@.contains((es@[ii].0, (es@[ii].1 + n) as usize)) && out@.contains((es@[ii].1, (es@[ii].0 + n) as usize)) by {
                if ii < k {
                    crate::graph::lemma_push_contains(o0, (i, (j + n) as usize), (es@[ii].0, (es@[ii].1 + n) as usize));
                    crate::graph::lemma_push_contains(o0.push((i, (j + n) as usize)), (j, (i + n) as usize), (es@[ii].0, (es@[ii].1 + n) as usize));
                    crate::graph::lemma_push_contains(o0, (i, (j + n) as usize), (es@[ii].1, (es@[ii].0 + n) as usize));
                    crate::graph::lemma_push_contains(o0.push((i, (j + n) as usize)), (j, (i + n) as usize), (es@[ii].1, (es@[ii].0 + n) as usize));
                } else {
                    assert(out@[o0.len() as int] == (i, (j + n) as usize));
                    assert(out@[o0.len() as int + 1] == (j, (i + n) as usize));
                }
            }
        }
        k = k + 1;
    }
    let ghost mid = out@;
    let vs = g.vertices();
    let mut k: usize = 0;
    while k < vs.len()
        invariant
            g.wf(),
            n == g.spec_n(),
            s == 2 * n,
            t == 2 * n + 1,
            2 * n + 2 <= usize::MAX,
            k <= vs@.len(),
            vs@.to_set() == g@.dom(),
            forall|i: int| 0 <= i < out@.len() ==> flow_arcs(g@, n as nat).contains(#[trigger] out@[i]),
            forall|e: Edge| mid.contains(e) ==> out@.contains(e),
            forall|i: int| 0 <= i < k ==> out@.contains((s, #[trigger] vs@[i])) && out@.contains(((vs@[i] + n) as usize, t)),
        decreases vs@.len() - k,
    {
        let v = vs[k];
        proof {
            assert(vs@.to_set().contains(vs@[k as int]));
            g.lemma_simple();
        }
        let ghost o0 = out@;
        out.push((s, v));
        out.push((v + n, t));
        proof {
            assert(((v + n) as usize - n) as usize == v);
            assert(flow_arcs(g@, n as nat).contains((s, v)));
            assert(flow_arcs(g@, n as nat).contains(((v + n) as usize, t)));
            assert forall|ii: int| 0 <= ii < out@.len() implies flow_arcs(g@, n as nat).contains(#[trigger] out@[ii]) by {
                if ii < o0.len() {
                    assert(out@[ii] == o0[ii]);
                }
            }
            assert forall|e: Edge| mid.contains(e) implies out@.contains(e) by {
                crate::graph::lemma_push_contains(o0, (s, v), e);
                crate::graph::lemma_push_contains(o0.push((s, v)), ((v + n) as usize, t), e);
            }
            assert forall|ii: int| 0 <= ii < k + 1 implies out@.contains((s, #[trigger] vs@[ii])) && out@.contains(((vs@[ii] + n) as usize, t)) by {
                if ii < k {
                    crate::graph::lemma_push_contains(o0, (s, v), (s, vs@[ii]));
                    crate::graph::lemma_push_contains(o0.push((s, v)), ((v + n) as usize, t), (s, vs@[ii]));
                    crate::graph::lemma_push_contains(o0, (s, v), ((vs@[ii] + n) as usize, t));
                    crate::graph::lemma_push_contains(o0.push((s, v)), ((v + n) as usize, t), ((vs@[ii] + n) as usize, t));
                } else {
                    assert(out@[o0.len() as int] == (s, v));
                    assert(out@[o0.len() as int + 1] == ((v + n) as usize, t));
                }
            }
        }
        k = k + 1;
    }
    proof {
        assert forall|ii: int| 0 <= ii < out@.len() implies out@[ii].0 < 2 * n + 2 && out@[ii].1 < 2 * n + 2 by {
            assert(flow_arcs(g@, n as nat).contains(out@[ii]));
            if out@[ii].0 == 2 * n {
                assert(g@.dom().contains(out@[ii].1));
            }
        }
        assert forall|e: Edge| out@.to_set().contains(e) <==> flow_arcs(g@, n as nat).contains(e) by {
            if out@.contains(e) {
                let i = choose|i: int| 0 <= i < out@.len() && out@[i] == e;
                assert(flow_arcs(g@, n as nat).contains(out@[i]));
            }
            if flow_arcs(g@, n as nat).contains(e) {
                if doubled_pair(g@, n as nat, e) {
                    let x = e.0;
                    let w = (e.1 - n) as usize;
                    assert(has_edge(g@, w, x));
                    if x < w {
                        assert(es@.contains((x, w)));
                        let i = choose|i: int| 0 <= i < es@.len() && es@[i] == (x, w);
                        assert(mid.contains((es@[i].0, (es@[i].1 + n) as usize)));
                    } else {
                        assert(es@.contains((w, x)));
                        let i = choose|i: int| 0 <= i < es@.len() && es@[i] == (w, x);
                        assert(mid.contains((es@[i].1, (es@[i].0 + n) as usize)));
                    }
                } else if e.0 == 2 * n && g@.dom().contains(e.1) {
                    assert(vs@.to_set().contains(e.1));
                    let i = choose|i: int| 0 <= i < vs@.len() && vs@[i] == e.1;
                    assert(out@.contains((s, vs@[i])));
                } else {
                    let x = (e.0 - n) as usize;
                    assert(vs@.to_set().contains(x));
                    let i = choose|i: int| 0 <= i < vs@.len() && vs@[i] == x;
                    assert(out@.contains(((vs@[i] + n) as usize, t)));
                }
            }
        }
        assert(out@.to_set() =~= flow_arcs(g@, n as nat));
    }
    Digraph::new(n * 2 + 2, out)
}

/// The 0/1 flow that the matching `m` of the doubled graph gives in the
/// network `d`: the arcs of `d` that carry flow.
pub fn matching_to_flow(n: usize, d: &Digraph, m: &Vec<Edge>) -> (f: Vec<Edge>)
    requires
        d.wf(),
        2 * n + 1 < usize::MAX,
    ensures
        f@.no_duplicates(),
        f@.to_set() == d@.filter(|e: Edge| carries(m@, n as nat, e.0, e.1)),
{
    let s = n * 2;
    let t = n * 2 + 1;
    let es = d.edges();
    let mut f: Vec<Edge> = Vec::new();
    let mut k: usize = 0;
    while k < es.len()
        invariant
            d.wf(),
            s == 2 * n,
            t == 2 * n + 1,
            k <= es@.len(),
            es@.no_duplicates(),
            es@.to_set() == d@,
            f@.no_duplicates(),
            forall|i: int| #![trigger f@[i]] 0 <= i < f@.len() ==> exists|j: int| 0 <= j < k && #[trigger] es@[j] == f@[i],
            f@.to_set() == es@.subrange(0, k as int).to_set().filter(|e: Edge| carries(m@, n as nat, e.0, e.1)),
        decreases es@.len() - k,
    {
        let (u, v) = es[k];
        let c = if u == s {
            is_matched(m, v)
        } else if v == t {
            is_matched(m, u)
        } else {
            let e = if u < v { (u, v) } else { (v, u) };
            contains_arc(m, e)
        };
        proof {
            assert(c == carries(m@, n as nat, u, v));
            assert(es@.subrange(0, k + 1) == es@.subrange(0, k as int).push((u, v)));
            lemma_to_set_push(es@.subrange(0, k as int), (u, v));
        }
        let ghost f0 = f@;
        if c {
            f.push((u, v));
            proof {
                lemma_to_set_push(f0, (u, v));
                assert(f@.no_duplicates()) by {
                    assert forall|a: int, b: int| 0 <= a < b < f@.len() implies f@[a] != f@[b] by {
                        if b == f0.len() {
                            let j = choose|j: int| 0 <= j < k && #[trigger] es@[j] == f0[a];
                            assert(es@[j] != es@[k as int]);
                        } else {
                            assert(f0[a] != f0[b]);
                        }
                    }
                }
            }
        }
        proof {
            assert(f@.to_set() =~= es@.subrange(0, k + 1).to_set().filter(|e: Edge| carries(m@, n as nat, e.0, e.1)));
            assert forall|i: int| #![trigger f@[i]] 0 <= i < f@.len() implies exists|j: int| 0 <= j < k + 1 && #[trigger] es@[j] == f@[i] by {
                if i < f0.len() {
                    let j = choose|j: int| 0 <= j < k && #[trigger] es@[j] == f0[i];
                    assert(es@[j] == f@[i]);
                } else {
                    assert(es@[k as int] == f@[i]);
                }
            }
        }
        k = k + 1;
    }
    proof {
        assert(es@.subrange(0, k as int) == es@);
    }
    f
}

/// One flow step from `a` to `b`: the vertices of `hs` join the solution,
/// then those of `rs` leave the graph; both lie in the graph of `a`, and
/// every neighbour of a vertex of `rs` is in `hs`.
pub open spec fn flow_step(a: &State, b: &State, hs: Seq<Vx>, rs: Seq<Vx>) -> bool {
    &&& b.solution@ == a.solution@ + hs
    &&& b.graph@ == without_set(without_set(a.graph@, hs.to_set()), rs.to_set())
    &&& hs.to_set().subset_of(a.graph@.dom())
    &&& rs.to_set().subset_of(a.graph@.dom())
    &&& forall|v: Vx, w: Vx| rs.contains(v) && #[trigger] has_edge(a.graph@, v, w) ==> hs.contains(w)
}

/// The residual network of the flow network of `g` under the flow that
/// the matching `m` of the doubled graph gives.
pub open spec fn lp_residual(g: Map<Vx, Set<Vx>>, n: nat, m: Seq<Edge>) -> Set<Edge> {
    residual_arcs(flow_arcs(g, n), flow_arcs(g, n).filter(|e: Edge| carries(m, n, e.0, e.1)), (2 * n) as Vx)
}

/// The vertices that the half-integral optimum read off `m` sets to one:
/// the source reaches their right copy in the residual network but not
/// their left copy.
pub open spec fn lp_ones(g: Map<Vx, Set<Vx>>, n: nat, m: Seq<Edge>) -> Set<Vx> {
    g.dom().filter(|v: Vx| !reaches(lp_residual(g, n, m), (2 * n) as Vx, v)
        && reaches(lp_residual(g, n, m), (2 * n) as Vx, (v + n) as Vx))
}

/// The vertices that the half-integral optimum read off `m` sets to zero:
/// the source reaches their left copy but not their right copy.
pub open spec fn lp_zeros(g: Map<Vx, Set<Vx>>, n: nat, m: Seq<Edge>) -> Set<Vx> {
    g.dom().filter(|v: Vx| reaches(lp_residual(g, n, m), (2 * n) as Vx, v)
        && !reaches(lp_residual(g, n, m), (2 * n) as Vx, (v + n) as Vx))
}

/// `m` is a matching of the doubled graph of `g` on `0..n`: each entry
/// joins a left copy `a` to a right copy `b + n` with `{a, b}` an edge of
/// `g`, and no two entries share a left or a right end.
pub open spec fn doubled_matching(g: Map<Vx, Set<Vx>>, n: nat, m: Seq<Edge>) -> bool {
    &&& forall|j: int| #![trigger m[j]] 0 <= j < m.len() ==> m[j].0 < n && n <= m[j].1 < 2 * n
        && has_edge(g, m[j].0, (m[j].1 - n) as usize)
    &&& forall|j1: int, j2: int| 0 <= j1 < j2 < m.len() ==> (#[trigger] m[j1]).0 != (#[trigger] m[j2]).0 && m[j1].1 != m[j2].1
}

/// The vertices on the cut around `reach`: those whose left copy is not
/// reached, and those whose right copy is.
pub open spec fn cut_vertices(g: Map<Vx, Set<Vx>>, n: nat, reach: Set<Vx>) -> Set<Vx> {
    Set::new(|x: Vx| (x < n && g.dom().contains(x) && !reach.contains(x))
        || (n <= x < 2 * n && g.dom().contains((x - n) as usize) && reach.contains(x)))
}

/// The copies on the cut around `reach` that belong to the vertices below `v`.
pub open spec fn cut_below(g: Map<Vx, Set<Vx>>, n: nat, reach: Set<Vx>, v: nat) -> Set<Vx> {
    cut_vertices(g, n, reach).filter(|x: Vx| x < v || (n <= x && x < n + v))
}

/// Taking in the vertex `v` adds its copies on the cut.
proof fn lemma_cut_below_step(g: Map<Vx, Set<Vx>>, n: nat, reach: Set<Vx>, v: Vx)
    requires
        v < n,
        2 * n + 2 <= usize::MAX,
    ensures
        cut_below(g, n, reach, v as nat).finite(),
        cut_below(g, n, reach, (v + 1) as nat).len() == cut_below(g, n, reach, v as nat).len()
            + (if g.dom().contains(v) && !reach.contains(v) { 1int } else { 0int })
            + (if g.dom().contains(v) && reach.contains((v + n) as Vx) { 1int } else { 0int }),
{
    let c0 = cut_below(g, n, reach, v as nat);
    let c1 = cut_below(g, n, reach, (v + 1) as nat);
    let w = (v + n) as Vx;
    assert forall|x: Vx| c0.contains(x) implies x < 2 * n by {}
    lemma_bounded_set_len(c0, (2 * n) as usize);
    let a = if g.dom().contains(v) && !reach.contains(v) { c0.insert(v) } else { c0 };
    let b = if g.dom().contains(v) && reach.contains(w) { a.insert(w) } else { a };
    assert(!c0.contains(v));
    assert(!c0.contains(w));
    assert(!a.contains(w));
    assert(c1 =~= b);
}

/// Each edge of a matching `m2` of the doubled graph crosses the cut
/// around a set `reach` that holds the source and is closed under the
/// residual arcs of `m`, at a copy of its own: `m2` has at most as many
/// edges as the cut has copies.
proof fn lemma_cut_bounds_matching(g: Map<Vx, Set<Vx>>, n: nat, m: Seq<Edge>, reach: Set<Vx>, m2: Seq<Edge>)
    requires
        simple_graph(g, n),
        2 * n + 2 <= usize::MAX,
        doubled_matching(g, n, m2),
        forall|x: Vx, y: Vx| reach.contains(x) && #[trigger] lp_residual(g, n, m).contains((x, y)) ==> reach.contains(y),
    ensures
        cut_vertices(g, n, reach).finite(),
        m2.len() <= cut_vertices(g, n, reach).len(),
{
    let s: Vx = (2 * n) as Vx;
    let arcs = flow_arcs(g, n);
    let res = lp_residual(g, n, m);
    let x = cut_vertices(g, n, reach);
    assert forall|v: Vx| x.contains(v) implies v < 2 * n by {}
    lemma_bounded_set_len(x, (2 * n) as usize);
    let i2 = set_int_range(0, m2.len() as int);
    let f2 = |j: int| if reach.contains(m2[j].0) { m2[j].1 } else { m2[j].0 };
    lemma_int_range(0, m2.len() as int);
    assert forall|j: int| i2.contains(j) implies x.contains(f2(j)) by {
        let a = m2[j].0;
        let b = m2[j].1;
        assert(has_edge(g, a, (b - n) as usize));
        assert(g.dom().contains(a));
        assert(has_edge(g, (b - n) as usize, a));
        if reach.contains(a) {
            assert(doubled_pair(g, n, (a, b)));
            assert(arcs.contains((a, b)));
            assert(cap_of((a, b), s) == usize::MAX as int);
            assert(res.contains((a, b)));
            assert(reach.contains(b));
        }
    }
    assert(injective_on(f2, i2)) by {
        assert forall|j1: int, j2: int| i2.contains(j1) && i2.contains(j2) && #[trigger] f2(j1) == #[trigger] f2(j2) implies j1 == j2 by {
            if j1 < j2 {
                assert(m2[j1].0 != m2[j2].0 && m2[j1].1 != m2[j2].1);
            } else if j2 < j1 {
                assert(m2[j2].0 != m2[j1].0 && m2[j2].1 != m2[j1].1);
            }
        }
    }
    lemma_map_size(i2, i2.map(f2), f2);
    assert(i2.map(f2).subset_of(x));
    lemma_len_subset(i2.map(f2), x);
}

/// Where `reach` holds the source but not the sink and is closed under the
/// residual arcs of the matching `m`, each copy on the cut around `reach`
/// is an end of an edge of `m` of its own: the cut has at most as many
/// copies as `m` has edges.
proof fn lemma_cut_within_matching(g: Map<Vx, Set<Vx>>, n: nat, m: Seq<Edge>, reach: Set<Vx>)
    requires
        simple_graph(g, n),
        2 * n + 2 <= usize::MAX,
        doubled_matching(g, n, m),
        reach.contains((2 * n) as Vx),
        !reach.contains((2 * n + 1) as Vx),
        forall|x: Vx, y: Vx| reach.contains(x) && #[trigger] lp_residual(g, n, m).contains((x, y)) ==> reach.contains(y),
    ensures
        cut_vertices(g, n, reach).finite(),
        cut_vertices(g, n, reach).len() <= m.len(),
{
    let s: Vx = (2 * n) as Vx;
    let t: Vx = (2 * n + 1) as Vx;
    let arcs = flow_arcs(g, n);
    let fl = arcs.filter(|e: Edge| carries(m, n, e.0, e.1));
    let res = lp_residual(g, n, m);
    let x = cut_vertices(g, n, reach);
    assert forall|v: Vx| x.contains(v) implies v < 2 * n by {}
    lemma_bounded_set_len(x, (2 * n) as usize);
    let i1 = set_int_range(0, m.len() as int);
    let h = |v: Vx| choose|k: int| 0 <= k < m.len() && touches(#[trigger] m[k], v);
    lemma_int_range(0, m.len() as int);
    assert forall|v: Vx| x.contains(v) implies exists|k: int| 0 <= k < m.len() && touches(#[trigger] m[k], v) by {
        if v < n {
            if !matched(m, v) {
                assert(arcs.contains((s, v)));
                assert(!fl.contains((s, v)));
                assert(res.contains((s, v)));
            }
        } else {
            if !matched(m, v) {
                assert(arcs.contains((v, t)));
                assert(!fl.contains((v, t)));
                assert(res.contains((v, t)));
            }
        }
    }
    assert forall|v: Vx| x.contains(v) implies i1.contains(#[trigger] h(v)) by {}
    assert(injective_on(h, x)) by {
        assert forall|v1: Vx, v2: Vx| x.contains(v1) && x.contains(v2) && #[trigger] h(v1) == #[trigger] h(v2) implies v1 == v2 by {
            let k = h(v1);
            assert(touches(m[k], v1) && touches(m[k], v2));
            if v1 != v2 {
                let (a, b) = if v1 < n { (v1, v2) } else { (v2, v1) };
                assert(m[k] == (a, b));
                assert(!reach.contains(a) && reach.contains(b));
                assert(m.contains((a, b)));
                assert(carries(m, n, a, b));
                assert(doubled_pair(g, n, (a, b)));
                assert(fl.contains((a, b)));
                assert(res.contains((b, a)));
            }
        }
    }
    lemma_map_size(x, x.map(h), h);
    assert(x.map(h).subset_of(i1));
    lemma_len_subset(x.map(h), i1);
}

/// A matching of the doubled graph whose residual network leaves the sink
/// out of reach of the source is maximum: no matching of the doubled graph
/// is larger. Each edge of another matching crosses the cut around the
/// reached vertices at a copy of its own, and each copy on that cut is an
/// end of an edge of the matching of its own; so the cut has exactly as
/// many copies as the matching has edges.
pub proof fn law_unreached_sink_maximum(g: Map<Vx, Set<Vx>>, n: nat, m: Seq<Edge>, reach: Set<Vx>, m2: Seq<Edge>)
    requires
        simple_graph(g, n),
        2 * n + 2 <= usize::MAX,
        doubled_matching(g, n, m),
        doubled_matching(g, n, m2),
        reach.contains((2 * n) as Vx),
        !reach.contains((2 * n + 1) as Vx),
        forall|x: Vx, y: Vx| reach.contains(x) && #[trigger] lp_residual(g, n, m).contains((x, y)) ==> reach.contains(y),
    ensures
        m2.len() <= m.len(),
        cut_vertices(g, n, reach).len() == m.len(),
{
    lemma_cut_bounds_matching(g, n, m, reach, m2);
    lemma_cut_bounds_matching(g, n, m, reach, m);
    lemma_cut_within_matching(g, n, m, reach);
}

/// A matching of the doubled graph needs two vertex copies per edge from
/// any vertex cover: it has at most twice as many edges as the cover has
/// vertices of `g`.
pub proof fn law_matching_bound(g: Map<Vx, Set<Vx>>, n: nat, m: Seq<Edge>, c: Set<Vx>)
    requires
        simple_graph(g, n),
        doubled_matching(g, n, m),
        is_vertex_cover(g, c),
    ensures
        m.len() <= 2 * g.dom().intersect(c).len(),
{
    let cc = g.dom().intersect(c);
    let range = vstd::set_lib::set_int_range(0, m.len() as int);
    vstd::set_lib::lemma_int_range(0, m.len() as int);
    let ml = range.filter(|j: int| c.contains(m[j].0));
    let mr = range.filter(|j: int| !c.contains(m[j].0));
    vstd::set_lib::lemma_set_subset_finite(range, ml);
    vstd::set_lib::lemma_set_subset_finite(range, mr);
    assert(g.dom().finite());
    vstd::set_lib::lemma_set_subset_finite(g.dom(), cc);
    let fl = |j: int| m[j].0;
    let fr = |j: int| (m[j].1 - n) as usize;
    assert(vstd::relations::injective_on(fl, ml)) by {
        assert forall|a: int, b: int| ml.contains(a) && ml.contains(b) && #[trigger] fl(a) == #[trigger] fl(b) implies a == b by {
            if a < b {
                assert(m[a].0 != m[b].0);
            } else if b < a {
                assert(m[b].0 != m[a].0);
            }
        }
    }
    assert(vstd::relations::injective_on(fr, mr)) by {
        assert forall|a: int, b: int| mr.contains(a) && mr.contains(b) && #[trigger] fr(a) == #[trigger] fr(b) implies a == b by {
            assert(m[a].1 >= n && m[b].1 >= n);
            if a < b {
                assert(m[a].1 != m[b].1);
            } else if b < a {
                assert(m[b].1 != m[a].1);
            }
        }
    }
    vstd::set_lib::lemma_map_size(ml, ml.map(fl), fl);
    vstd::set_lib::lemma_map_size(mr, mr.map(fr), fr);
    assert(ml.map(fl).subset_of(cc)) by {
        assert forall|x: Vx| ml.map(fl).contains(x) implies cc.contains(x) by {
            let j = choose|j: int| ml.contains(j) && fl(j) == x;
            assert(has_edge(g, m[j].0, (m[j].1 - n) as usize));
        }
    }
    assert(mr.map(fr).subset_of(cc)) by {
        assert forall|x: Vx| mr.map(fr).contains(x) implies cc.contains(x) by {
            let j = choose|j: int| mr.contains(j) && fr(j) == x;
            let a = m[j].0;
            assert(has_edge(g, a, x));
            assert(has_edge(g, x, a));
            assert(c.contains(x));
        }
    }
    vstd::set_lib::lemma_len_subset(ml.map(fl), cc);
    vstd::set_lib::lemma_len_subset(mr.map(fr), cc);
    assert(range =~= ml.union(mr));
    assert(ml.disjoint(mr));
    vstd::set_lib::lemma_set_disjoint_lens(ml, mr);
}

/// The solution of `s` cannot take the vertices `xs` of its graph one
/// after the other although they fit under the bound: a constraint has no
/// budget left for them.
pub open spec fn flow_refused(s: &State) -> bool {
    exists|xs: Seq<Vx>| #![trigger takes(s, xs)] xs.no_duplicates() && xs.to_set().subset_of(s.graph@.dom())
        && s.solution@.len() + xs.len() <= s.upper_bound && !takes(s, xs)
}

/// The graph of a well-formed state is simple.
proof fn g0_simple_neighbours(s: &State)
    requires
        s.wf(),
    ensures
        simple_graph(s.graph@, s.graph.spec_n()),
        s.graph.spec_n() < u32::MAX,
{
    s.graph.lemma_simple();
}

impl Idea for Flow {
    open spec fn inv(&self, n: nat) -> bool {
        true
    }

    open spec fn pending(&self, dirty: Set<Vx>) -> bool {
        dirty.len() > 0
    }

    fn new(g: &Graph) -> (r: Self) {
        Flow
    }

    fn priority(&self, state: &State, dirty: &IdSet) -> (r: usize)
        ensures
            r == (if dirty@.len() > 0 { 1usize } else { 0 }),
    {
        if dirty.len() == 0 {
            return 0;
        }
        1
    }

    /// The half-integral optimum of the cover LP, read off a maximum
    /// matching of the doubled graph: a vertex whose left copy the source
    /// cannot reach in the residual network but whose right copy it can
    /// joins the solution (counting one), one with the opposite pattern
    /// leaves the graph, the others count one half; the state is given up
    /// where the halves and ones do not fit under the upper bound. Where
    /// it changes the state, the vertices taken and removed are exactly
    /// those that the residual network of the matching it found sets to
    /// one and to zero, that matching is maximum, and half its size fits
    /// next to the solution under the upper bound. (The doubled graph
    /// needs ids below `u32::MAX`; larger graphs are left as they are, and
    /// so is the state where the sink is still reached in the residual
    /// network, which a maximum matching rules out.)
    fn apply(&mut self, state: &mut State, dirty: &IdSet) -> (r: Option<()>)
        ensures
            r is Some ==> progressed(old(state), final(state)) || unchanged(old(state), final(state)),
            r is Some ==> exists|hs: Seq<Vx>, rs: Seq<Vx>| #[trigger] flow_step(old(state), final(state), hs, rs),
            r is Some ==> unchanged(old(state), final(state))
                || exists|m: Seq<Edge>, hs: Seq<Vx>, rs: Seq<Vx>|
                    #[trigger] doubled_matching(old(state).graph@, old(state).graph.spec_n(), m)
                    && #[trigger] flow_step(old(state), final(state), hs, rs)
                    && hs.to_set() == lp_ones(old(state).graph@, old(state).graph.spec_n(), m)
                    && rs.to_set() == lp_zeros(old(state).graph@, old(state).graph.spec_n(), m)
                    && forall|m2: Seq<Edge>| #[trigger] doubled_matching(old(state).graph@, old(state).graph.spec_n(), m2)
                        ==> m2.len() <= m.len()
                    && old(state).solution@.len() + m.len() / 2 <= old(state).upper_bound,
            final(state).cleanup_funcs == old(state).cleanup_funcs,
            cover_safe(old(state), final(state)),
            r is None ==> beyond_bound(old(state)) || flow_refused(old(state)),
    {
        let ghost s0 = *state;
        let ghost g0 = state.graph@;
        proof {
            lemma_reduced_refl(state);
            state.graph.lemma_simple();
            lemma_without_set_insert(g0, state.graph.spec_n(), Set::empty(), 0);
            assert(Seq::<Vx>::empty().to_set() =~= Set::<Vx>::empty());
            assert(state.solution@ + Seq::<Vx>::empty() =~= state.solution@);
            assert(flow_step(&s0, state, Seq::<Vx>::empty(), Seq::<Vx>::empty()));
            lemma_cover_safe_refl(state);
        }
        let n = state.graph.n();
        if n >= 2147483646 {
            return Some(());
        }
        let s = n * 2;
        let (undir, l) = undir_graph(&state.graph);
        proof {
            assert(side_ok(undir@, l@, undir.spec_n())) by {
                assert forall|a: Vx, b: Vx| #[trigger] has_edge(undir@, a, b) implies (l@.contains(a) != l@.contains(b)) by {}
            }
        }
        let m = max_matching_bipartite(&undir, &l);
        proof {
            assert(doubled_matching(g0, n as nat, m@)) by {
                assert forall|j: int| #![trigger m@[j]] 0 <= j < m@.len() implies m@[j].0 < n && n <= m@[j].1 < 2 * n
                    && has_edge(g0, m@[j].0, (m@[j].1 - n) as usize) by {
                    assert(has_edge(undir@, m@[j].0, m@[j].1));
                    assert(l@.contains(m@[j].0) != l@.contains(m@[j].1));
                }
                assert forall|j1: int, j2: int| 0 <= j1 < j2 < m@.len() implies (#[trigger] m@[j1]).0 != (#[trigger] m@[j2]).0
                    && m@[j1].1 != m@[j2].1 by {
                    assert(left_end(m@[j1], l@) != left_end(m@[j2], l@));
                    assert(right_end(m@[j1], l@) != right_end(m@[j2], l@));
                    assert(has_edge(undir@, m@[j1].0, m@[j1].1));
                    assert(has_edge(undir@, m@[j2].0, m@[j2].1));
                    assert(l@.contains(m@[j1].0) != l@.contains(m@[j1].1));
                    assert(l@.contains(m@[j2].0) != l@.contains(m@[j2].1));
                }
            }
        }
        let d = build_digraph(&state.graph);
        let f = matching_to_flow(n, &d, &m);
        let cap = |e: Edge| -> (c: usize)
            ensures
                c as int == cap_of(e, s),
        {
            if e.0 < s && e.1 < s {
                usize::MAX
            } else {
                1
            }
        };
        let r = d.residual(&f, cap);
        proof {
            let caps = choose|caps: Map<Edge, usize>| {
                &&& forall|e: Edge| #[trigger] d@.contains(e) ==> caps.dom().contains(e) && call_ensures(cap, (e,), caps[e])
                &&& r@ == #[trigger] residual_by(d@, f@.to_set(), caps)
            };
            assert(r@ =~= residual_arcs(d@, f@.to_set(), s)) by {
                assert forall|e: Edge| d@.contains(e) implies caps[e] as int == cap_of(e, s) by {
                    assert(call_ensures(cap, (e,), caps[e]));
                }
            }
        }
        let reach = r.reachable(s);
        if reach.contains(s + 1) {
            return Some(());
        }
        let mut to_remove: Vec<Vx> = Vec::new();
        let mut to_solution: Vec<Vx> = Vec::new();
        let mut twice_lb: usize = 0;
        let mut v: usize = 0;
        proof {
            assert(cut_below(g0, n as nat, reach@, 0) =~= Set::<Vx>::empty());
        }
        while v < n
            invariant
                state.wf(),
                *state == s0,
                g0 == state.graph@,
                n == state.graph.spec_n(),
                n < 2147483646,
                v <= n,
                twice_lb <= 2 * v,
                twice_lb == cut_below(g0, n as nat, reach@, v as nat).len(),
                2 * to_solution@.len() <= twice_lb,
                forall|k: int| #![trigger to_solution@[k]] 0 <= k < to_solution@.len() ==> to_solution@[k] < v && g0.dom().contains(to_solution@[k]),
                forall|k: int| #![trigger to_remove@[k]] 0 <= k < to_remove@.len() ==> to_remove@[k] < v && g0.dom().contains(to_remove@[k]),
                forall|a: int, b: int| 0 <= a < b < to_solution@.len() ==> to_solution@[a] < to_solution@[b],
                forall|a: int, b: int| 0 <= a < b < to_remove@.len() ==> to_remove@[a] < to_remove@[b],
                s == 2 * n,
                d@ == flow_arcs(g0, n as nat),
                r@ == residual_arcs(d@, f@.to_set(), s),
                forall|x: Vx, y: Vx| reach@.contains(x) && #[trigger] r@.contains((x, y)) ==> reach@.contains(y),
                forall|k: int| #![trigger to_solution@[k]] 0 <= k < to_solution@.len() ==>
                    !reach@.contains(to_solution@[k]) && reach@.contains((to_solution@[k] + n) as Vx),
                forall|k: int| #![trigger to_remove@[k]] 0 <= k < to_remove@.len() ==>
                    reach@.contains(to_remove@[k]) && !reach@.contains((to_remove@[k] + n) as Vx),
                forall|x: Vx| x < v && g0.dom().contains(x) && !reach@.contains(x) && reach@.contains((x + n) as Vx)
                    ==> #[trigger] to_solution@.contains(x),
                forall|x: Vx| x < v && g0.dom().contains(x) && reach@.contains(x) && !reach@.contains((x + n) as Vx)
                    ==> #[trigger] to_remove@.contains(x),
            decreases n - v,
        {
            proof {
                lemma_cut_below_step(g0, n as nat, reach@, v);
            }
            if state.graph.get_degree(v) != 0 {
                proof {
                    if !g0.dom().contains(v) {
                        assert(nbrs(g0, v) =~= Set::<Vx>::empty());
                    }
                }
                let reach_l = reach.contains(v);
                let reach_r = reach.contains(v + n);
                let ghost ts0 = to_solution@;
                let ghost tr0 = to_remove@;
                if !reach_l && reach_r {
                    twice_lb = twice_lb + 2;
                    to_solution.push(v);
                } else if reach_l && !reach_r {
                    to_remove.push(v);
                } else {
                    twice_lb = twice_lb + 1;
                }
                proof {
                    assert forall|k: int| #![trigger to_solution@[k]] 0 <= k < to_solution@.len() implies to_solution@[k] < v + 1 && g0.dom().contains(to_solution@[k]) by {
                        if k < ts0.len() {
                            assert(to_solution@[k] == ts0[k]);
                        }
                    }
                    assert forall|k: int| #![trigger to_remove@[k]] 0 <= k < to_remove@.len() implies to_remove@[k] < v + 1 && g0.dom().contains(to_remove@[k]) by {
                        if k < tr0.len() {
                            assert(to_remove@[k] == tr0[k]);
                        }
                    }
                    assert forall|a: int, b: int| 0 <= a < b < to_solution@.len() implies to_solution@[a] < to_solution@[b] by {
                        if b < ts0.len() {
                            assert(ts0[a] < ts0[b]);
                        } else {
                            assert(to_solution@[a] == ts0[a]);
                        }
                    }
                    assert forall|a: int, b: int| 0 <= a < b < to_remove@.len() implies to_remove@[a] < to_remove@[b] by {
                        if b < tr0.len() {
                            assert(tr0[a] < tr0[b]);
                        } else {
                            assert(to_remove@[a] == tr0[a]);
                        }
                    }
                    assert forall|k: int| #![trigger to_solution@[k]] 0 <= k < to_solution@.len() implies
                        !reach@.contains(to_solution@[k]) && reach@.contains((to_solution@[k] + n) as Vx) by {
                        if k < ts0.len() {
                            assert(to_solution@[k] == ts0[k]);
                        }
                    }
                    assert forall|k: int| #![trigger to_remove@[k]] 0 <= k < to_remove@.len() implies
                        reach@.contains(to_remove@[k]) && !reach@.contains((to_remove@[k] + n) as Vx) by {
                        if k < tr0.len() {
                            assert(to_remove@[k] == tr0[k]);
                        }
                    }
                    assert forall|x: Vx| x < v + 1 && g0.dom().contains(x) && !reach@.contains(x) && reach@.contains((x + n) as Vx)
                        implies #[trigger] to_solution@.contains(x) by {
                        if x < v {
                            assert(ts0.contains(x));
                            let k = choose|k: int| 0 <= k < ts0.len() && ts0[k] == x;
                            assert(to_solution@[k] == x);
                        } else {
                            assert(to_solution@[to_solution@.len() - 1] == x);
                        }
                    }
                    assert forall|x: Vx| x < v + 1 && g0.dom().contains(x) && reach@.contains(x) && !reach@.contains((x + n) as Vx)
                        implies #[trigger] to_remove@.contains(x) by {
                        if x < v {
                            assert(tr0.contains(x));
                            let k = choose|k: int| 0 <= k < tr0.len() && tr0[k] == x;
                            assert(to_remove@[k] == x);
                        } else {
                            assert(to_remove@[to_remove@.len() - 1] == x);
                        }
                    }
                }
            } else {
                proof {
                    assert(!g0.dom().contains(v)) by {
                        if g0.dom().contains(v) {
                            state.graph.lemma_simple();
                            crate::graph::lemma_contains_len(g0[v], g0[v].choose());
                        }
                    }
                    assert forall|x: Vx| x < v + 1 && g0.dom().contains(x) && !reach@.contains(x) && reach@.contains((x + n) as Vx)
                        implies #[trigger] to_solution@.contains(x) by {
                        if x == v {
                            state.graph.lemma_simple();
                            crate::graph::lemma_contains_len(g0[x], g0[x].choose());
                        }
                    }
                    assert forall|x: Vx| x < v + 1 && g0.dom().contains(x) && reach@.contains(x) && !reach@.contains((x + n) as Vx)
                        implies #[trigger] to_remove@.contains(x) by {
                        if x == v {
                            state.graph.lemma_simple();
                            crate::graph::lemma_contains_len(g0[x], g0[x].choose());
                        }
                    }
                }
            }
            v = v + 1;
        }
        proof {
            g0_simple_neighbours(&s0);
            assert forall|x: Vx, w: Vx| to_remove@.contains(x) && #[trigger] has_edge(g0, x, w) implies to_solution@.contains(w) by {
                let k = choose|k: int| 0 <= k < to_remove@.len() && to_remove@[k] == x;
                assert(reach@.contains(to_remove@[k]) && !reach@.contains((to_remove@[k] + n) as Vx));
                assert(has_edge(g0, w, x) && w < n && g0.dom().contains(w));
                let e1: Edge = (x, (w + n) as Vx);
                assert(doubled_pair(g0, n as nat, e1));
                assert(d@.contains(e1));
                assert(r@.contains(e1));
                assert(reach@.contains((w + n) as Vx));
                if reach@.contains(w) {
                    let e2: Edge = (w, (x + n) as Vx);
                    assert(doubled_pair(g0, n as nat, e2));
                    assert(d@.contains(e2));
                    assert(r@.contains(e2));
                }
            }
        }
        let lbr = state.lb(twice_lb / 2);
        if lbr.is_none() {
            proof {
                s0.graph.lemma_simple();
                assert(r@ == lp_residual(g0, n as nat, m@));
                assert(cut_below(g0, n as nat, reach@, n as nat) =~= cut_vertices(g0, n as nat, reach@));
                law_unreached_sink_maximum(g0, n as nat, m@, reach@, m@);
                assert(twice_lb == m@.len());
                assert forall|c: Set<Vx>| #[trigger] is_vertex_cover(g0, c)
                    implies s0.solution@.len() + g0.dom().intersect(c).len() > s0.upper_bound by {
                    law_matching_bound(g0, n as nat, m@, c);
                }
                assert(beyond_bound(&s0));
            }
            return None;
        }
        proof {
            assert(to_solution@.no_duplicates()) by {
                assert forall|a: int, b: int| 0 <= a < to_solution@.len() && 0 <= b < to_solution@.len() && a != b implies to_solution@[a] != to_solution@[b] by {
                    if a < b {
                        assert(to_solution@[a] < to_solution@[b]);
                    } else {
                        assert(to_solution@[b] < to_solution@[a]);
                    }
                }
            }
        }
        let mut k: usize = 0;
        proof {
            assert(to_solution@.subrange(0, 0).to_set() =~= Set::<Vx>::empty());
            assert(state.solution@ + to_solution@.subrange(0, 0) =~= state.solution@);
        }
        while k < to_solution.len()
            invariant
                state.wf(),
                s0.wf(),
                simple_graph(g0, s0.graph.spec_n()),
                g0 == s0.graph@,
                reduced(&s0, state),
                state.graph.spec_n() == n,
                n == s0.graph.spec_n(),
                k <= to_solution@.len(),
                state.solution@ == s0.solution@ + to_solution@.subrange(0, k as int),
                state.graph@ == without_set(g0, to_solution@.subrange(0, k as int).to_set()),
                k > 0 ==> progressed(&s0, state),
                k == 0 ==> *state == s0,
                forall|j: int| #![trigger to_solution@[j]] 0 <= j < to_solution@.len() ==> to_solution@[j] < n && g0.dom().contains(to_solution@[j]),
                state.cleanup_funcs == s0.cleanup_funcs,
                cover_safe(&s0, state),
                s0 == *old(state),
                forall|x: Vx, w: Vx| to_remove@.contains(x) && #[trigger] has_edge(g0, x, w) ==> to_solution@.contains(w),
                s0.solution@.len() + to_solution@.len() <= s0.upper_bound,
                to_solution@.no_duplicates(),
                state.fingertable == s0.fingertable,
                state.upper_bound == s0.upper_bound,
                state.diff_vec@.len() == s0.diff_vec@.len(),
                forall|i: usize| i < s0.diff_vec@.len() ==> state.diff_vec@[i as int] + #[trigger] hits(&s0, to_solution@.subrange(0, k as int), i)
                    == s0.diff_vec@[i as int],
            decreases to_solution@.len() - k,
        {
            let ghost before = *state;
            let x = to_solution[k];
            let ghost dv = state.diff_vec@;
            let rr = state.add_to_solution(x);
            proof {
                lemma_cover_safe_trans(&s0, &before, state);
            }
            proof {
                assert forall|i: usize| i < s0.diff_vec@.len() implies #[trigger] hits(&s0, to_solution@.subrange(0, k + 1), i)
                    == hits(&s0, to_solution@.subrange(0, k as int), i) + if fingers(&s0, x).contains(i) { 1nat } else { 0nat } by {
                    lemma_hits_push(&s0, to_solution@, k as int, i);
                }
                assert(fingers(&before, x) == fingers(&s0, x));
            }
            if rr.is_none() {
                proof {
                    let xs = to_solution@.subrange(0, k + 1);
                    assert(before.solution@.len() + 1 <= before.upper_bound);
                    let i = choose|i: usize| #[trigger] fingers(&before, x).contains(i) && !(before.diff_vec@[i as int] > 0);
                    assert(i < s0.diff_vec@.len());
                    assert(hits(&s0, xs, i) > s0.diff_vec@[i as int]);
                    assert(!takes(&s0, xs));
                    assert(xs.no_duplicates());
                    assert(xs.to_set().subset_of(g0.dom())) by {
                        assert forall|y: Vx| xs.to_set().contains(y) implies g0.dom().contains(y) by {
                            let t = choose|t: int| 0 <= t < xs.len() && xs[t] == y;
                            assert(to_solution@[t] == y);
                        }
                    }
                    assert(flow_refused(&s0));
                }
                return None;
            }
            proof {
                assert forall|i: usize| i < s0.diff_vec@.len() implies state.diff_vec@[i as int] + #[trigger] hits(&s0, to_solution@.subrange(0, k + 1), i)
                    == s0.diff_vec@[i as int] by {
                    assert(hits(&s0, to_solution@.subrange(0, k + 1), i)
                        == hits(&s0, to_solution@.subrange(0, k as int), i) + if fingers(&s0, x).contains(i) { 1nat } else { 0nat });
                }
                lemma_reduced_trans(&s0, &before, state);
                lemma_without_set_insert(g0, n as nat, to_solution@.subrange(0, k as int).to_set(), x);
                assert(to_solution@.subrange(0, k + 1) == to_solution@.subrange(0, k as int).push(x));
                lemma_to_set_push(to_solution@.subrange(0, k as int), x);
                assert(state.solution@ =~= s0.solution@ + to_solution@.subrange(0, k + 1));
            }
            k = k + 1;
        }
        let ghost s1 = *state;
        let ghost g1 = state.graph@;
        proof {
            assert(to_solution@.subrange(0, k as int) == to_solution@);
            lemma_nbrs_without_set(g0, n as nat, to_solution@.to_set(), 0);
            lemma_without_set_insert(g1, n as nat, Set::empty(), 0);
            assert(to_remove@.subrange(0, 0).to_set() =~= Set::<Vx>::empty());
            lemma_reduced_refl(state);
        }
        let mut k: usize = 0;
        while k < to_remove.len()
            invariant
                state.wf(),
                s1.wf(),
                simple_graph(g1, n as nat),
                g1 == s1.graph@,
                reduced(&s0, &s1),
                reduced(&s1, state),
                state.graph.spec_n() == n,
                n == s1.graph.spec_n(),
                k <= to_remove@.len(),
                state.solution == s1.solution,
                state.graph@ == without_set(g1, to_remove@.subrange(0, k as int).to_set()),
                k > 0 && g1.dom().contains(to_remove@[0]) ==> progressed(&s1, state),
                k == 0 ==> *state == s1,
                forall|j: int| #![trigger to_remove@[j]] 0 <= j < to_remove@.len() ==> to_remove@[j] < n,
                state.cleanup_funcs == s0.cleanup_funcs,
                s1.cleanup_funcs == s0.cleanup_funcs,
                cover_safe(&s0, &s1),
                g1 == without_set(g0, to_solution@.to_set()),
                g0 == s0.graph@,
                forall|x: Vx, w: Vx| to_remove@.contains(x) && #[trigger] has_edge(g0, x, w) ==> to_solution@.contains(w),
            decreases to_remove@.len() - k,
        {
            let ghost before = *state;
            let x = to_remove[k];
            state.remove_vertex(x);
            proof {
                lemma_reduced_trans(&s1, &before, state);
                lemma_without_set_insert(g1, n as nat, to_remove@.subrange(0, k as int).to_set(), x);
                assert(to_remove@.subrange(0, k + 1) == to_remove@.subrange(0, k as int).push(x));
                lemma_to_set_push(to_remove@.subrange(0, k as int), x);
            }
            k = k + 1;
        }
        proof {
            assert(to_remove@.subrange(0, k as int) == to_remove@);
            lemma_reduced_trans(&s0, &s1, state);
            assert(to_solution@.to_set().subset_of(g0.dom()));
            assert(to_remove@.to_set().subset_of(g0.dom()));
            assert forall|x: Vx| #[trigger] to_remove@.to_set().contains(x) implies !g1.dom().contains(x) by {
                if g1.dom().contains(x) && !to_solution@.to_set().contains(x) {
                    assert(g0[x].difference(to_solution@.to_set()) =~= Set::<Vx>::empty()) by {
                        assert forall|w: Vx| g0[x].contains(w) implies to_solution@.to_set().contains(w) by {
                            assert(has_edge(g0, x, w));
                        }
                    }
                }
            }
            crate::graph::lemma_without_absent(g1, n as nat, to_remove@.to_set());
            lemma_cover_safe_same(&s1, state);
            lemma_cover_safe_trans(&s0, &s1, state);
            assert(flow_step(&s0, state, to_solution@, to_remove@));
            let res = lp_residual(g0, n as nat, m@);
            assert(r@ == res);
            assert forall|x: Vx| #[trigger] reach@.contains(x) <==> reaches(res, s, x) by {}
            assert forall|m2: Seq<Edge>| #[trigger] doubled_matching(g0, n as nat, m2) implies m2.len() <= m@.len() by {
                law_unreached_sink_maximum(g0, n as nat, m@, reach@, m2);
            }
            assert(cut_below(g0, n as nat, reach@, n as nat) =~= cut_vertices(g0, n as nat, reach@));
            law_unreached_sink_maximum(g0, n as nat, m@, reach@, m@);
            g0_simple_neighbours(&s0);
            assert(to_solution@.to_set() =~= lp_ones(g0, n as nat, m@)) by {
                assert forall|x: Vx| to_solution@.to_set().contains(x) implies lp_ones(g0, n as nat, m@).contains(x) by {
                    let k = choose|k: int| 0 <= k < to_solution@.len() && to_solution@[k] == x;
                    assert(!reach@.contains(to_solution@[k]) && reach@.contains((to_solution@[k] + n) as Vx));
                    assert(reach@.contains((x + n) as Vx));
                }
                assert forall|x: Vx| lp_ones(g0, n as nat, m@).contains(x) implies to_solution@.to_set().contains(x) by {
                    assert(g0.dom().contains(x) && x < n);
                    assert(reach@.contains((x + n) as Vx));
                    assert(to_solution@.contains(x));
                }
            }
            assert(to_remove@.to_set() =~= lp_zeros(g0, n as nat, m@)) by {
                assert forall|x: Vx| to_remove@.to_set().contains(x) implies lp_zeros(g0, n as nat, m@).contains(x) by {
                    let k = choose|k: int| 0 <= k < to_remove@.len() && to_remove@[k] == x;
                    assert(reach@.contains(to_remove@[k]) && !reach@.contains((to_remove@[k] + n) as Vx));
                    assert(reach@.contains(x));
                }
                assert forall|x: Vx| lp_zeros(g0, n as nat, m@).contains(x) implies to_remove@.to_set().contains(x) by {
                    assert(g0.dom().contains(x) && x < n);
                    assert(reach@.contains(x));
                    assert(to_remove@.contains(x));
                }
            }
            if to_solution@.len() == 0 && to_remove@.len() == 0 {
                assert(unchanged(&s0, state));
            } else if to_solution@.len() == 0 {
                assert(to_solution@.to_set() =~= Set::<Vx>::empty());
                assert(g1 == g0);
                assert(progressed(&s1, state));
            }
        }
        Some(())
    }
}

} // verus!

