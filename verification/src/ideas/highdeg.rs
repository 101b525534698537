//! A vertex with more neighbours than there is room left in the solution
//! must belong to every better cover.

use vstd::prelude::*;
use crate::idset::IdSet;
use crate::graph::{Vx, Graph, nbrs, has_edge, simple_graph, without_set};
use crate::state::{is_vertex_cover, cover_within};
use crate::state::{takes_set, lemma_takes_set, State, reduced, progressed, unchanged, lemma_reduced_refl};
use crate::idea::Idea;

verus! {

/// The priority of `HighDeg`, above that of the kernel bound.
pub const HIGH_DEG_PRIO: usize = 3;

/// The high-degree rule.
pub struct HighDeg;

/// A vertex with more than `k` neighbours lies in every vertex cover of
/// at most `k` vertices.
pub proof fn law_high_degree_in_cover(g: Map<Vx, Set<Vx>>, n: nat, x: Vx, c: Set<Vx>, k: nat)
    requires
        simple_graph(g, n),
        is_vertex_cover(g, c),
        c.finite(),
        c.len() <= k,
        nbrs(g, x).len() > k,
    ensures
        c.contains(x),
{
    if !c.contains(x) {
        assert(g.dom().contains(x));
        assert forall|y: Vx| nbrs(g, x).contains(y) implies c.contains(y) by {
            assert(has_edge(g, x, y));
        }
        vstd::set_lib::lemma_len_subset(nbrs(g, x), c);
    }
}

/// Taking every vertex with more than `k` neighbours keeps the minimum:
/// where `g` has a cover of at most `k` vertices, `g` without them has
/// one of at most `k` less their number.
pub proof fn law_high_degree_step_keeps_min(g: Map<Vx, Set<Vx>>, n: nat, k: nat)
    requires
        simple_graph(g, n),
        cover_within(g, k as int),
    ensures
        cover_within(without_set(g, Set::new(|v: Vx| g.dom().contains(v) && nbrs(g, v).len() > k)),
            k - Set::new(|v: Vx| g.dom().contains(v) && nbrs(g, v).len() > k).len()),
{
    let hs = Set::new(|v: Vx| g.dom().contains(v) && nbrs(g, v).len() > k);
    let c = choose|c: Set<Vx>| #[trigger] is_vertex_cover(g, c) && c.finite() && c.len() <= k;
    assert forall|x: Vx| hs.contains(x) implies c.contains(x) by {
        law_high_degree_in_cover(g, n, x, c, k);
    }
    crate::branch::lemma_cover_without(g, hs, c);
}

/// The vertices of `s` with more than `k` neighbours.
pub open spec fn high_degree(s: &State, k: u32) -> Set<Vx> {
    Set::new(|v: Vx| s.graph@.dom().contains(v) && nbrs(s.graph@, v).len() > k)
}

impl Idea for HighDeg {
    open spec fn inv(&self, n: nat) -> bool {
        true
    }

    open spec fn pending(&self, dirty: Set<Vx>) -> bool {
        dirty.len() > 0
    }

    fn new(g: &Graph) -> (r: Self) {
        HighDeg
    }

    fn priority(&self, state: &State, dirty: &IdSet) -> (r: usize)
        ensures
            r == (if dirty@.len() > 0 { HIGH_DEG_PRIO } else { 0 }),
    {
        if dirty.len() == 0 {
            return 0;
        }
        HIGH_DEG_PRIO
    }

    fn apply(&mut self, state: &mut State, dirty: &IdSet) -> (r: Option<()>)
        ensures
            r is Some ==> progressed(old(state), final(state)) || unchanged(old(state), final(state)),
            r is Some ==> ({
                let k = (old(state).upper_bound - old(state).solution@.len()) as u32;
                &&& final(state).graph@ == without_set(old(state).graph@, high_degree(old(state), k))
                &&& final(state).solution@.subrange(old(state).solution@.len() as int, final(state).solution@.len() as int).to_set() == high_degree(old(state), k)
            }),
            final(state).cleanup_funcs == old(state).cleanup_funcs,
            crate::state::cover_safe(old(state), final(state)),
            r is Some <==> takes_set(old(state), high_degree(old(state), (old(state).upper_bound - old(state).solution@.len()) as u32)),
    {
        #[verifier::truncate]
        let k = (state.upper_bound - state.solution.len()) as u32;
        let vs = state.graph.vertices();
        let mut tmp: Vec<Vx> = Vec::new();
        let mut i: usize = 0;
        proof {
            state.graph.lemma_simple();
        }
        while i < vs.len()
            invariant
                state.wf(),
                i <= vs@.len(),
                vs@.to_set() == state.graph@.dom(),
                forall|j: int| 0 <= j < tmp@.len() ==> tmp@[j] < state.graph.spec_n(),
                tmp@.to_set() == vs@.subrange(0, i as int).to_set().filter(|v: Vx| nbrs(state.graph@, v).len() > k),
                tmp@.no_duplicates(),
                vs@.no_duplicates(),
            decreases vs@.len() - i,
        {
            let v = vs[i];
            proof {
                assert(vs@.to_set().contains(v));
                state.graph.lemma_simple();
                assert(vs@.subrange(0, i + 1) == vs@.subrange(0, i as int).push(v));
                crate::graph::lemma_to_set_push(vs@.subrange(0, i as int), v);
            }
            let ghost before = tmp@;
            if state.graph.get_degree(v) > k {
                proof {
                    assert(!tmp@.contains(v)) by {
                        if tmp@.contains(v) {
                            assert(tmp@.to_set().contains(v));
                            assert(vs@.subrange(0, i as int).to_set().contains(v));
                            let j = choose|j: int| 0 <= j < i && #[trigger] vs@.subrange(0, i as int)[j] == v;
                            assert(vs@[j] == vs@[i as int]);
                        }
                    }
                }
                tmp.push(v);
                proof {
                    crate::graph::lemma_to_set_push(before, v);
                }
            }
            proof {
                assert(tmp@.to_set() =~= vs@.subrange(0, i + 1).to_set().filter(|v: Vx| nbrs(state.graph@, v).len() > k));
            }
            i = i + 1;
        }
        proof {
            assert(vs@.subrange(0, i as int) == vs@);
            assert(tmp@.to_set() =~= high_degree(state, k));
        }
        let ghost t = tmp@;
        let ghost s_before = *state;
        proof {
            lemma_takes_set(&s_before, t);
        }
        let r = state.extend_solution(tmp);
        proof {
            if r is Some {
                if t.len() == 0 {
                    assert(t.to_set() =~= Set::<Vx>::empty());
                    assert(state.graph@.dom() =~= old(state).graph@.dom()) by {
                        crate::graph::lemma_without_set_insert(old(state).graph@, old(state).graph.spec_n(), Set::empty(), 0);
                    }
                    assert forall|j: int| 0 <= j < old(state).dirty@.len() implies (#[trigger] state.dirty@[j])@ == old(state).dirty@[j]@ by {
                        assert(crate::graph::neighbourhood(old(state).graph@, t.to_set()) =~= Set::<Vx>::empty());
                        assert(old(state).dirty@[j]@.union(t.to_set().union(Set::<Vx>::empty())) =~= old(state).dirty@[j]@);
                    }
                }
                assert(state.solution@.subrange(old(state).solution@.len() as int, state.solution@.len() as int) =~= t);
            }
        }
        r
    }
}

} // verus!
