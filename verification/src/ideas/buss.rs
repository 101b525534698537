//! Buss's kernel bound: with room for `k` more vertices, a graph with
//! more than `k * k + k` vertices or `k * k` edges has no better cover.

use vstd::prelude::*;
use crate::idset::IdSet;
use crate::graph::{Vx, Graph, Edge, edge_set, nbrs, has_edge, neighbourhood, simple_graph};
use crate::state::is_vertex_cover;
use crate::state::{State, reduced, lemma_reduced_refl};
use crate::idea::Idea;

verus! {

/// Buss's kernel bound.
pub struct Buss;

/// The edge `{x, y}` with its smaller end first.
pub open spec fn ordered(x: Vx, y: Vx) -> Edge {
    if x < y { (x, y) } else { (y, x) }
}

/// The edges of `g` with an end in `c`.
pub open spec fn edges_at(g: Map<Vx, Set<Vx>>, c: Set<Vx>) -> Set<Edge> {
    edge_set(g).filter(|e: Edge| c.contains(e.0) || c.contains(e.1))
}

/// The vertices of `c`, each with at most `k` neighbours, have at most
/// `k` neighbours and `k` edges each between them.
proof fn lemma_star_counts(g: Map<Vx, Set<Vx>>, n: nat, c: Set<Vx>, k: nat)
    requires
        simple_graph(g, n),
        c.finite(),
        forall|v: Vx| #[trigger] g.dom().contains(v) ==> nbrs(g, v).len() <= k,
    ensures
        neighbourhood(g, c).finite(),
        neighbourhood(g, c).len() <= k * c.len(),
        edges_at(g, c).finite(),
        edges_at(g, c).len() <= k * c.len(),
    decreases c.len(),
{
    if c.len() == 0 {
        assert(c =~= Set::<Vx>::empty());
        assert(neighbourhood(g, c) =~= Set::<Vx>::empty());
        assert(edges_at(g, c) =~= Set::<Edge>::empty());
    } else {
        let x = c.choose();
        let c1 = c.remove(x);
        lemma_star_counts(g, n, c1, k);
        let nx = nbrs(g, x);
        assert(nx.finite() && nx.len() <= k) by {
            if g.dom().contains(x) {
            } else {
                assert(nx =~= Set::<Vx>::empty());
            }
        }
        let f = |y: Vx| ordered(x, y);
        let sx = nx.map(f);
        vstd::set_lib::lemma_map_size_bound(nx, sx, f);
        assert(neighbourhood(g, c).subset_of(neighbourhood(g, c1).union(nx))) by {
            assert forall|v: Vx| #[trigger] neighbourhood(g, c).contains(v) implies neighbourhood(g, c1).union(nx).contains(v) by {
                let y = choose|y: Vx| c.contains(y) && has_edge(g, y, v);
                if y != x {
                    assert(c1.contains(y) && has_edge(g, y, v));
                }
            }
        }
        assert(edges_at(g, c).subset_of(edges_at(g, c1).union(sx))) by {
            assert forall|e: Edge| #[trigger] edges_at(g, c).contains(e) implies edges_at(g, c1).union(sx).contains(e) by {
                if !c1.contains(e.0) && !c1.contains(e.1) {
                    assert(e.0 < e.1 && has_edge(g, e.0, e.1));
                    if e.0 == x {
                        assert(nx.contains(e.1));
                        assert(f(e.1) == e);
                    } else {
                        assert(e.1 == x);
                        assert(has_edge(g, e.1, e.0));
                        assert(nx.contains(e.0));
                        assert(f(e.0) == e);
                    }
                }
            }
        }
        vstd::set_lib::lemma_len_union(neighbourhood(g, c1), nx);
        vstd::set_lib::lemma_len_subset(neighbourhood(g, c), neighbourhood(g, c1).union(nx));
        vstd::set_lib::lemma_len_union(edges_at(g, c1), sx);
        vstd::set_lib::lemma_len_subset(edges_at(g, c), edges_at(g, c1).union(sx));
        assert(k * c1.len() + k == k * c.len()) by (nonlinear_arith)
            requires c1.len() + 1 == c.len();
    }
}

/// Buss's kernel: where every vertex has at most `k` neighbours and some
/// vertex cover has at most `k` vertices, the graph has at most
/// `k * k + k` vertices and `k * k` edges.
pub proof fn law_buss_kernel(g: Map<Vx, Set<Vx>>, n: nat, c: Set<Vx>, k: nat)
    requires
        simple_graph(g, n),
        forall|v: Vx| #[trigger] g.dom().contains(v) ==> nbrs(g, v).len() <= k,
        is_vertex_cover(g, c),
        c.finite(),
        c.len() <= k,
    ensures
        g.dom().len() <= k * k + k,
        edge_set(g).len() <= k * k,
{
    let c0 = c.intersect(g.dom());
    vstd::set_lib::lemma_len_intersect(c, g.dom());
    lemma_star_counts(g, n, c0, k);
    assert(edge_set(g) =~= edges_at(g, c0)) by {
        assert forall|e: Edge| #[trigger] edge_set(g).contains(e) implies edges_at(g, c0).contains(e) by {
            assert(has_edge(g, e.0, e.1));
            assert(has_edge(g, e.1, e.0));
        }
    }
    assert(g.dom().subset_of(c0.union(neighbourhood(g, c0)))) by {
        assert forall|v: Vx| #[trigger] g.dom().contains(v) implies c0.union(neighbourhood(g, c0)).contains(v) by {
            if !c0.contains(v) {
                assert(g[v].len() > 0);
                vstd::set_lib::lemma_set_empty_equivalency_len(g[v]);
                let y = g[v].choose();
                assert(has_edge(g, v, y));
                assert(has_edge(g, y, v));
                assert(c0.contains(y));
            }
        }
    }
    vstd::set_lib::lemma_len_union(c0, neighbourhood(g, c0));
    vstd::set_lib::lemma_len_subset(g.dom(), c0.union(neighbourhood(g, c0)));
    assert(k * c0.len() <= k * k) by (nonlinear_arith)
        requires c0.len() <= k;
}

impl Idea for Buss {
    open spec fn inv(&self, n: nat) -> bool {
        true
    }

    open spec fn pending(&self, dirty: Set<Vx>) -> bool {
        dirty.len() > 0
    }

    fn new(g: &Graph) -> (r: Self) {
        Buss
    }

    fn priority(&self, state: &State, dirty: &IdSet) -> (r: usize)
        ensures
            r == (if dirty@.len() > 0 { 2usize } else { 0 }),
    {
        if dirty.len() == 0 {
            return 0;
        }
        2
    }

    fn apply(&mut self, state: &mut State, dirty: &IdSet) -> (r: Option<()>)
        ensures
            *final(state) == *old(state),
            r is Some <==> ({
                let k = old(state).upper_bound - old(state).solution@.len();
                old(state).graph@.dom().len() <= k * k + k && edge_set(old(state).graph@).len() <= k * k
            }),
    {
        proof {
            lemma_reduced_refl(state);
        }
        let k = state.upper_bound - state.solution.len();
        let nv = state.graph.vertices().len();
        let ne = state.graph.edges().len();
        proof {
            state.graph.lemma_simple();
        }
        proof {
            let ki = k as int;
            assert(ki <= 0xffff_ffff_ffff_ffff);
            assert(ki * ki + ki <= 0xffff_ffff_ffff_fffe_0000_0000_0000_0001int + 0xffff_ffff_ffff_ffffint) by (nonlinear_arith)
                requires 0 <= ki <= 0xffff_ffff_ffff_ffff;
        }
        let kk: u128 = (k as u128) * (k as u128);
        if (nv as u128) > kk + (k as u128) || (ne as u128) > kk {
            return None;
        } else {
            return Some(());
        }
    }
}

} // verus!
