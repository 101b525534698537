//! A vertex with a single neighbour: that neighbour joins the solution.

use vstd::prelude::*;
use crate::idset::IdSet;
use crate::graph::{Vx, Graph, nbrs, has_edge, simple_graph, without_vertex, lemma_without_vertex_edges, without_set, lemma_bounded_set_len, lemma_without_set_insert, lemma_to_set_push};
use crate::state::{State, from_graph, lemma_from_graph_same, lemma_from_graph_push, lemma_from_graph_trans, reduced, progressed, unchanged, cover_safe, lemma_reduced_refl, lemma_reduced_trans,
    lemma_cover_safe_refl, lemma_cover_safe_trans};
use crate::idea::Idea;
use crate::state::{is_vertex_cover, cover_within};

verus! {

/// Taking the only neighbour `u` of a vertex `v` keeps the minimum: each
/// vertex cover `c` of `g` leaves, less one vertex, a cover of `g`
/// without `u`.
pub proof fn law_leaf_neighbour(g: Map<Vx, Set<Vx>>, n: nat, v: Vx, u: Vx, c: Set<Vx>)
    requires
        simple_graph(g, n),
        nbrs(g, v) == set![u],
        is_vertex_cover(g, c),
        c.finite(),
    ensures
        exists|c2: Set<Vx>| #[trigger] is_vertex_cover(without_vertex(g, u), c2) && c2.finite() && c2.len() + 1 <= c.len(),
{
    lemma_without_vertex_edges(g, n, u);
    let h = without_vertex(g, u);
    if c.contains(u) {
        let c2 = c.remove(u);
        assert forall|x: Vx, y: Vx| #[trigger] has_edge(h, x, y) implies c2.contains(x) || c2.contains(y) by {
            assert(has_edge(g, x, y));
        }
        assert(is_vertex_cover(h, c2));
    } else {
        assert(nbrs(g, v).contains(u));
        assert(has_edge(g, v, u));
        assert(c.contains(v));
        let c2 = c.remove(v);
        assert forall|x: Vx, y: Vx| #[trigger] has_edge(h, x, y) implies c2.contains(x) || c2.contains(y) by {
            assert(has_edge(g, x, y));
            if x == v {
                assert(nbrs(g, v).contains(y));
            }
            if y == v {
                assert(has_edge(g, y, x));
                assert(nbrs(g, v).contains(x));
            }
        }
        assert(is_vertex_cover(h, c2));
    }
}

/// Each vertex of `add`, in turn, is the only neighbour of some vertex
/// of `g` once the vertices before it are gone.
pub open spec fn leaf_steps(g: Map<Vx, Set<Vx>>, add: Seq<Vx>) -> bool {
    forall|k: int| 0 <= k < add.len() ==> #[trigger] leaf_at(g, add, k)
}

/// `add[k]` is the only neighbour of some vertex of `g` once the
/// vertices before it are gone.
pub open spec fn leaf_at(g: Map<Vx, Set<Vx>>, add: Seq<Vx>, k: int) -> bool {
    exists|x: Vx| #[trigger] nbrs(without_set(g, add.take(k).to_set()), x) == set![add[k]]
}

/// `b` came from `a` by moving, one after the other, the only neighbour
/// of a degree-one vertex into the solution.
pub open spec fn deg1_step(a: &State, b: &State) -> bool {
    let add = b.solution@.subrange(a.solution@.len() as int, b.solution@.len() as int);
    &&& b.graph@ == without_set(a.graph@, add.to_set())
    &&& leaf_steps(a.graph@, add)
    &&& b.cleanup_funcs == a.cleanup_funcs
}

/// Taking the vertices of `add` one after the other, each the only
/// neighbour of some vertex once those before it are gone, keeps the
/// minimum: a cover of `g` of at most `k` vertices leaves one of at most
/// `k - j` vertices once the first `j` are gone.
proof fn lemma_leaf_steps_keep_min(g: Map<Vx, Set<Vx>>, n: nat, add: Seq<Vx>, k: int, j: int)
    requires
        simple_graph(g, n),
        leaf_steps(g, add),
        cover_within(g, k),
        0 <= j <= add.len(),
    ensures
        cover_within(without_set(g, add.take(j).to_set()), k - j),
    decreases j,
{
    if j == 0 {
        assert(add.take(0).to_set() =~= Set::<Vx>::empty());
        lemma_without_set_insert(g, n, Set::empty(), 0);
    } else {
        lemma_leaf_steps_keep_min(g, n, add, k, j - 1);
        let s = add.take(j - 1).to_set();
        let gj = without_set(g, s);
        crate::graph::lemma_nbrs_without_set(g, n, s, 0);
        let c = choose|c: Set<Vx>| #[trigger] is_vertex_cover(gj, c) && c.finite() && c.len() <= k - (j - 1);
        assert(leaf_at(g, add, j - 1));
        let x = choose|x: Vx| #[trigger] nbrs(without_set(g, add.take(j - 1).to_set()), x) == set![add[j - 1]];
        law_leaf_neighbour(gj, n, x, add[j - 1], c);
        lemma_without_set_insert(g, n, s, add[j - 1]);
        assert(add.take(j) == add.take(j - 1).push(add[j - 1]));
        lemma_to_set_push(add.take(j - 1), add[j - 1]);
    }
}

/// Degree-one steps keep the minimum: where the graph of `a` has a cover
/// of at most `k` vertices, the graph of `b` has one of at most `k` less
/// the vertices that joined the solution on the way.
pub proof fn law_deg1_step_keeps_min(a: &State, b: &State, k: int)
    requires
        a.wf(),
        deg1_step(a, b),
        a.solution@.len() <= b.solution@.len(),
        cover_within(a.graph@, k),
    ensures
        cover_within(b.graph@, k - (b.solution@.len() - a.solution@.len())),
{
    let add = b.solution@.subrange(a.solution@.len() as int, b.solution@.len() as int);
    a.graph.lemma_simple();
    lemma_leaf_steps_keep_min(a.graph@, a.graph.spec_n(), add, k, add.len() as int);
    assert(add.take(add.len() as int) == add);
}

/// A set with one element `w` is `{w}`.
pub(crate) proof fn lemma_single(s: Set<Vx>, w: Vx)
    requires
        s.finite(),
        s.len() == 1,
        s.contains(w),
    ensures
        s == set![w],
{
    s.remove(w).lemma_len0_is_empty();
    assert(s =~= set![w]) by {
        assert forall|v: Vx| s.contains(v) implies v == w by {
            if v != w {
                assert(s.remove(w).contains(v));
            }
        }
    }
}

/// The degree-one rule; it keeps the vertices it has still to look at.
pub struct Deg1(pub IdSet);

impl Deg1 {
    /// A copy of the rule with its data.
    pub fn duplicate(&self) -> (r: Deg1)
        ensures
            forall|n: nat| self.inv(n) ==> r.inv(n),
            r.0@ == self.0@,
    {
        let r = Deg1(self.0.duplicate());
        proof {
            assert(r.0@ == self.0@);
            assert forall|n: nat| self.inv(n) implies r.inv(n) by {
                assert(forall|v: Vx| r.0@.contains(v) ==> self.0@.contains(v));
            }
        }
        r
    }
}

impl Idea for Deg1 {
    closed spec fn inv(&self, n: nat) -> bool {
        forall|v: Vx| self.0@.contains(v) ==> v < n
    }

    closed spec fn pending(&self, dirty: Set<Vx>) -> bool {
        dirty.len() > 0 || self.0@.len() > 0
    }

    fn new(g: &Graph) -> (r: Self)
        ensures
            r.0@ == Set::<Vx>::empty(),
    {
        Deg1(IdSet::empty())
    }

    fn priority(&self, state: &State, dirty: &IdSet) -> (r: usize)
        ensures
            r == (if self.pending(dirty@) { 4usize } else { 0 }),
    {
        if dirty.len() == 0 && self.0.len() == 0 {
            return 0;
        }
        4
    }

    fn apply(&mut self, state: &mut State, dirty: &IdSet) -> (r: Option<()>)
        ensures
            r is Some ==> progressed(old(state), final(state)) || (unchanged(old(state), final(state))
                && !final(self).pending(Set::empty())),
            deg1_step(old(state), final(state)),
            cover_safe(old(state), final(state)),
            r is None ==> exists|m: State, x: Vx, y: Vx| #![trigger deg1_step(old(state), &m), nbrs(m.graph@, x), set![y]]
                deg1_step(old(state), &m) && m.wf() && nbrs(m.graph@, x) == set![y]
                && !crate::state::takes_set(&m, set![y]),
    {
        let n = state.graph.n();
        let ds = dirty.elements();
        let mut i: usize = 0;
        while i < ds.len()
            invariant
                i <= ds@.len(),
                ds@.to_set() == dirty@,
                forall|v: Vx| dirty@.contains(v) ==> v < n,
                forall|v: Vx| self.0@.contains(v) ==> v < n,
            decreases ds@.len() - i,
        {
            let d = ds[i];
            proof {
                assert(ds@.to_set().contains(d));
                assert(d < n);
            }
            let ghost prev = self.0@;
            self.0.insert(d);
            proof {
                assert(self.0@ == prev.insert(d));
            }
            i = i + 1;
        }
        proof {
            lemma_reduced_refl(state);
            lemma_cover_safe_refl(state);
            lemma_from_graph_same(state, state);
            state.graph.lemma_simple();
            lemma_without_set_insert(state.graph@, n as nat, Set::empty(), 0);
            assert(state.solution@.subrange(state.solution@.len() as int, state.solution@.len() as int).to_set() =~= Set::<Vx>::empty());
        }
        loop
            invariant
                n == old(state).graph.spec_n(),
                state.wf(),
                old(state).wf(),
                reduced(old(state), state),
                cover_safe(old(state), state),
                from_graph(old(state), state),
                deg1_step(old(state), state),
                progressed(old(state), state) || unchanged(old(state), state),
                forall|v: Vx| self.0@.contains(v) ==> v < n,
            decreases self.0@.len(),
        {
            proof {
                lemma_bounded_set_len(self.0@, n);
            }
            let x = match self.0.some_element() {
                Some(x) => x,
                None => {
                    return Some(());
                },
            };
            self.0.remove(x);
            if state.graph.get_degree(x) == 1 {
                let ns = state.graph.neighbours(x);
                proof {
                    ns@.unique_seq_to_set();
                    state.graph.lemma_simple();
                    assert(ns@.to_set().contains(ns@[0]));
                    assert(state.graph@[x].contains(ns@[0]));
                }
                let neighbour = ns[0];
                let ghost prev = *state;
                proof {
                    crate::state::lemma_takes_one(&prev, neighbour);
                    lemma_single(nbrs(prev.graph@, x), neighbour);
                }
                let r = state.add_to_solution(neighbour);
                proof {
                    lemma_reduced_trans(old(state), &prev, state);
                    lemma_cover_safe_trans(old(state), &prev, state);
                    lemma_from_graph_push(&prev, state, neighbour);
                    lemma_from_graph_trans(old(state), &prev, state);
                    let l0 = old(state).solution@.len() as int;
                    let a0 = prev.solution@.subrange(l0, prev.solution@.len() as int);
                    let a1 = state.solution@.subrange(l0, state.solution@.len() as int);
                    assert(a1 == a0.push(neighbour));
                    lemma_to_set_push(a0, neighbour);
                    old(state).graph.lemma_simple();
                    lemma_without_set_insert(old(state).graph@, n as nat, a0.to_set(), neighbour);
                    lemma_single(nbrs(prev.graph@, x), neighbour);
                    assert(a1.take(a0.len() as int) == a0);
                    assert forall|k: int| 0 <= k < a1.len() implies #[trigger] leaf_at(old(state).graph@, a1, k) by {
                        if k < a0.len() {
                            assert(a1.take(k) == a0.take(k));
                            assert(leaf_at(old(state).graph@, a0, k));
                            let y = choose|y: Vx| #[trigger] nbrs(without_set(old(state).graph@, a0.take(k).to_set()), y) == set![a0[k]];
                            assert(nbrs(without_set(old(state).graph@, a1.take(k).to_set()), y) == set![a1[k]]);
                        } else {
                            assert(nbrs(without_set(old(state).graph@, a1.take(k).to_set()), x) == set![a1[k]]);
                        }
                    }
                }
                if r.is_none() {
                    return None;
                }
            }
        }
    }
}

} // verus!
