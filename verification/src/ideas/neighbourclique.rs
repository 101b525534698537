//! A vertex whose neighbours form a clique: its neighbours join the
//! solution and it leaves the graph.

use vstd::prelude::*;
use crate::idset::IdSet;
use crate::graph::{Vx, Graph, nbrs, has_edge, without_set, simple_graph, lemma_bounded_set_len,
    lemma_without_absent, lemma_without_set_insert};
use crate::state::{takes_set, lemma_takes_set, State, reduced, progressed, unchanged, added, cover_safe, lemma_reduced_refl, lemma_reduced_trans,
    lemma_cover_safe_refl, lemma_cover_safe_trans, lemma_cover_safe_same};
use crate::idea::Idea;
use crate::branch::is_clique;
use crate::state::is_vertex_cover;

verus! {

/// Taking the neighbours of a vertex `v` whose neighbours form a clique
/// keeps the minimum: each vertex cover `c` of `g` leaves, less as many
/// vertices as `v` has neighbours, a cover of `g` without them.
pub proof fn law_clique_neighbours(g: Map<Vx, Set<Vx>>, n: nat, v: Vx, c: Set<Vx>)
    requires
        simple_graph(g, n),
        g.dom().contains(v),
        is_clique(g, nbrs(g, v)),
        is_vertex_cover(g, c),
        c.finite(),
    ensures
        exists|c2: Set<Vx>| #[trigger] is_vertex_cover(without_set(g, nbrs(g, v)), c2) && c2.finite()
            && c2.len() + nbrs(g, v).len() <= c.len(),
{
    let k = nbrs(g, v);
    let h = without_set(g, k);
    assert(k.finite());
    vstd::set_lib::lemma_set_difference_len(c, k);
    if k.subset_of(c) {
        let c2 = c.difference(k);
        assert(c.intersect(k) =~= k);
        assert forall|x: Vx, y: Vx| #[trigger] has_edge(h, x, y) implies c2.contains(x) || c2.contains(y) by {
            assert(g[x].difference(k).contains(y));
            assert(has_edge(g, x, y));
        }
        assert(is_vertex_cover(h, c2));
    } else {
        let w = choose|w: Vx| k.contains(w) && !c.contains(w);
        assert(has_edge(g, v, w));
        assert(c.contains(v));
        assert(!k.contains(v));
        assert(c.intersect(k) =~= k.remove(w)) by {
            assert forall|z: Vx| k.contains(z) && z != w implies c.contains(z) by {
                assert(has_edge(g, w, z));
            }
        }
        let c1 = c.difference(k);
        assert(c1.contains(v));
        let c2 = c1.remove(v);
        assert forall|x: Vx, y: Vx| #[trigger] has_edge(h, x, y) implies c2.contains(x) || c2.contains(y) by {
            assert(g[x].difference(k).contains(y));
            assert(has_edge(g, x, y));
            if x == v {
                assert(k.contains(y));
            }
            if y == v {
                assert(has_edge(g, y, x));
                assert(k.contains(x));
            }
        }
        assert(is_vertex_cover(h, c2));
    }
}

/// `x` is a vertex of `g` whose neighbours are nonempty and form a clique.
pub open spec fn nc_candidate(g: Map<Vx, Set<Vx>>, x: Vx) -> bool {
    g.dom().contains(x) && nbrs(g, x).len() > 0 && is_clique(g, nbrs(g, x))
}

/// The neighbour-clique rule; it keeps the vertices it has still to look
/// at.
pub struct NeighbourClique(pub IdSet);

/// Whether the entries of `xs` are pairwise adjacent.
fn all_adjacent(g: &Graph, xs: &Vec<Vx>) -> (r: bool)
    requires
        g.wf(),
    ensures
        r == forall|i: int, j: int| 0 <= i < j < xs@.len() ==> has_edge(g@, xs@[i], xs@[j]),
{
    let mut i: usize = 0;
    while i < xs.len()
        invariant
            g.wf(),
            i <= xs@.len(),
            forall|a: int, b: int| 0 <= a < i && a < b < xs@.len() ==> has_edge(g@, xs@[a], xs@[b]),
        decreases xs@.len() - i,
    {
        let mut j: usize = i + 1;
        while j < xs.len()
            invariant
                g.wf(),
                i < xs@.len(),
                i + 1 <= j <= xs@.len(),
                forall|a: int, b: int| 0 <= a < i && a < b < xs@.len() ==> has_edge(g@, xs@[a], xs@[b]),
                forall|b: int| i < b < j ==> has_edge(g@, xs@[i as int], xs@[b]),
            decreases xs@.len() - j,
        {
            if !g.get_edge(xs[i], xs[j]) {
                return false;
            }
            j = j + 1;
        }
        i = i + 1;
    }
    true
}

impl NeighbourClique {
    /// A copy of the rule with its data.
    pub fn duplicate(&self) -> (r: NeighbourClique)
        ensures
            forall|n: nat| self.inv(n) ==> r.inv(n),
            r.0@ == self.0@,
    {
        let r = NeighbourClique(self.0.duplicate());
        proof {
            assert(r.0@ == self.0@);
        }
        r
    }
}

impl Idea for NeighbourClique {
    closed spec fn inv(&self, n: nat) -> bool {
        forall|v: Vx| self.0@.contains(v) ==> v < n
    }

    closed spec fn pending(&self, dirty: Set<Vx>) -> bool {
        dirty.len() > 0 || self.0@.len() > 0
    }

    fn new(g: &Graph) -> (r: Self)
        ensures
            r.0@ == g@.dom(),
    {
        let vs = g.vertices();
        let s = IdSet::from_vec(&vs);
        proof {
            g.lemma_simple();
        }
        NeighbourClique(s)
    }

    fn priority(&self, state: &State, dirty: &IdSet) -> (r: usize)
        ensures
            r == (if self.pending(dirty@) { 5usize } else { 0 }),
    {
        if self.0.len() == 0 && dirty.len() == 0 {
            return 0;
        }
        5
    }

    fn apply(&mut self, state: &mut State, dirty: &IdSet) -> (r: Option<()>)
        ensures
            r is Some ==> progressed(old(state), final(state)) || (unchanged(old(state), final(state))
                && !final(self).pending(Set::empty())),
            r is Some && progressed(old(state), final(state)) ==> exists|x: Vx| #[trigger] old(state).graph@.dom().contains(x)
                && is_clique(old(state).graph@, nbrs(old(state).graph@, x))
                && final(state).solution@.len() == old(state).solution@.len() + nbrs(old(state).graph@, x).len()
                && added(old(state), final(state)) == nbrs(old(state).graph@, x)
                && final(state).graph@ == without_set(old(state).graph@, nbrs(old(state).graph@, x)),
            r is Some && !progressed(old(state), final(state)) ==> *final(state) == *old(state),
            final(state).cleanup_funcs == old(state).cleanup_funcs,
            cover_safe(old(state), final(state)),
            r is None ==> exists|x: Vx| #[trigger] old(state).graph@.dom().contains(x)
                && (old(self).0@.contains(x) || dirty@.contains(x))
                && is_clique(old(state).graph@, nbrs(old(state).graph@, x))
                && !takes_set(old(state), nbrs(old(state).graph@, x)),
            (forall|y: Vx| (old(self).0@.contains(y) || dirty@.contains(y)) ==> !#[trigger] nc_candidate(old(state).graph@, y))
                ==> r is Some && *final(state) == *old(state),
            r is Some ==> forall|y: Vx| (old(self).0@.contains(y) || dirty@.contains(y)) && #[trigger] nc_candidate(old(state).graph@, y)
                ==> final(self).0@.contains(y) || added(old(state), final(state)) == nbrs(old(state).graph@, y),
    {
        let n = state.graph.n();
        let ds = dirty.elements();
        let mut k: usize = 0;
        while k < ds.len()
            invariant
                k <= ds@.len(),
                *state == *old(state),
                n == state.graph.spec_n(),
                ds@.to_set() == dirty@,
                forall|v: Vx| dirty@.contains(v) ==> v < n,
                forall|v: Vx| self.0@.contains(v) ==> v < n,
                old(self).0@.subset_of(self.0@),
                forall|jj: int| 0 <= jj < k ==> self.0@.contains(#[trigger] ds@[jj]),
                forall|y: Vx| self.0@.contains(y) ==> old(self).0@.contains(y) || dirty@.contains(y),
            decreases ds@.len() - k,
        {
            proof {
                assert(ds@.to_set().contains(ds@[k as int]));
            }
            let ghost sb = self.0@;
            self.0.insert(ds[k]);
            proof {
                assert forall|v: Vx| self.0@.contains(v) implies v < n by {
                    if v != ds@[k as int] {
                        assert(sb.contains(v));
                    }
                }
                assert(ds@.to_set().contains(ds@[k as int]));
                assert forall|y: Vx| self.0@.contains(y) implies old(self).0@.contains(y) || dirty@.contains(y) by {
                    if y != ds@[k as int] {
                        assert(sb.contains(y));
                    }
                }
            }
            k = k + 1;
        }
        proof {
            lemma_reduced_refl(state);
            lemma_cover_safe_refl(state);
            assert forall|y: Vx| dirty@.contains(y) implies self.0@.contains(y) by {
                assert(ds@.to_set().contains(y));
                let jj = choose|jj: int| 0 <= jj < ds@.len() && ds@[jj] == y;
            }
        }
        loop
            invariant
                state.wf(),
                *state == *old(state),
                n == state.graph.spec_n(),
                forall|v: Vx| self.0@.contains(v) ==> v < n,
                forall|y: Vx| (old(self).0@.contains(y) || dirty@.contains(y)) && #[trigger] nc_candidate(old(state).graph@, y)
                    ==> self.0@.contains(y),
                forall|y: Vx| self.0@.contains(y) ==> old(self).0@.contains(y) || dirty@.contains(y),
            decreases self.0@.len(),
        {
            proof {
                lemma_bounded_set_len(self.0@, n);
            }
            let x = match self.0.some_element() {
                None => {
                    proof {
                        lemma_reduced_refl(state);
                        assert(self.0@.len() == 0);
                    }
                    return Some(());
                },
                Some(x) => x,
            };
            let ghost sb = self.0@;
            self.0.remove(x);
            proof {
                assert forall|v: Vx| self.0@.contains(v) implies v < n by {
                    assert(sb.contains(v));
                }
                assert(sb.contains(x));
                assert(old(self).0@.contains(x) || dirty@.contains(x));
            }
            let neighbours = state.graph.neighbours(x);
            if neighbours.len() > 0 && all_adjacent(&state.graph, &neighbours) {
                let ghost s0 = *state;
                let ghost nb = neighbours@;
                proof {
                    state.graph.lemma_simple();
                    assert(nb.to_set().contains(nb[0]));
                    assert(state.graph@.dom().contains(x));
                    assert forall|k: int| 0 <= k < nb.len() implies nb[k] < n by {
                        assert(nb.to_set().contains(nb[k]));
                        assert(has_edge(s0.graph@, x, nb[k]));
                    }
                    assert(is_clique(s0.graph@, nbrs(s0.graph@, x))) by {
                        assert forall|a: Vx, b: Vx| nbrs(s0.graph@, x).contains(a) && nbrs(s0.graph@, x).contains(b) && a != b
                            implies has_edge(s0.graph@, a, b) by {
                            assert(nb.to_set().contains(a));
                            assert(nb.to_set().contains(b));
                            let i = choose|i: int| 0 <= i < nb.len() && nb[i] == a;
                            let j = choose|j: int| 0 <= j < nb.len() && nb[j] == b;
                            if i < j {
                                assert(has_edge(s0.graph@, nb[i], nb[j]));
                            } else {
                                assert(has_edge(s0.graph@, nb[j], nb[i]));
                            }
                        }
                    }
                    nb.unique_seq_to_set();
                    assert(nc_candidate(s0.graph@, x)) by {
                        assert(nbrs(s0.graph@, x).contains(nb[0]));
                    }
                }
                proof {
                    lemma_takes_set(&s0, nb);
                    assert(nb.to_set() == nbrs(s0.graph@, x));
                }
                let r = state.extend_solution(neighbours);
                if r.is_none() {
                    return None;
                }
                let ghost s1 = *state;
                proof {
                    s0.graph.lemma_simple();
                    assert(!s1.graph@.dom().contains(x)) by {
                        if s1.graph@.dom().contains(x) {
                            assert(s0.graph@[x].difference(nb.to_set()) =~= Set::<Vx>::empty());
                        }
                    }
                    s1.graph.lemma_simple();
                    lemma_without_set_insert(s1.graph@, n as nat, Set::empty(), x);
                    assert forall|v: Vx| #[trigger] Set::<Vx>::empty().insert(x).contains(v) implies !s1.graph@.dom().contains(v) by {}
                    lemma_without_absent(s1.graph@, n as nat, Set::empty().insert(x));
                }
                state.remove_vertex(x);
                proof {
                    lemma_reduced_trans(&s0, &s1, state);
                    lemma_cover_safe_same(&s1, state);
                    lemma_cover_safe_trans(&s0, &s1, state);
                    let l0 = s0.solution@.len() as int;
                    assert(state.solution@.subrange(l0, state.solution@.len() as int) == nb);
                }
                return Some(());
            }
            proof {
                let g = state.graph@;
                if nc_candidate(g, x) {
                    state.graph.lemma_simple();
                    neighbours@.unique_seq_to_set();
                    assert(neighbours@.len() > 0);
                    assert forall|i: int, j: int| 0 <= i < j < neighbours@.len() implies has_edge(g, neighbours@[i], neighbours@[j]) by {
                        assert(neighbours@.to_set().contains(neighbours@[i]));
                        assert(neighbours@.to_set().contains(neighbours@[j]));
                        assert(neighbours@[i] != neighbours@[j]);
                    }
                }
                assert(!nc_candidate(g, x));
            }
        }
    }
}

} // verus!
