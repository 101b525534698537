//! Degree-two folding: a vertex `x` with two non-adjacent neighbours `a`
//! and `b` is merged with them (`x` takes over their neighbours, `a`
//! joins the solution, and an undo step settles `x` and `b` at the end);
//! with adjacent neighbours, both join the solution.

use vstd::prelude::*;
use crate::idset::IdSet;
use crate::graph::{Vx, Graph, nbrs, has_edge, with_edge, without_vertex, without_set, simple_graph, lemma_bounded_set_len,
    lemma_without_set_insert, lemma_nbrs_without_set, lemma_without_vertex_edges, lemma_with_edge_edges, lemma_to_set_push};
use crate::state::{fingers_cleared, takes_set, lemma_takes_set, fingers, State, reduced, progressed, unchanged, lemma_reduced_refl, lemma_reduced_trans};
use crate::cleanup::Cleanup;
use crate::idea::Idea;
use crate::state::{is_vertex_cover, cover_within};
use crate::branch::is_clique;

verus! {

/// The degree-two rule; it keeps the vertices it has still to look at.
pub struct Deg2(pub IdSet);

/// `{u, v}` is an edge of `g`, or joins `x` to a vertex of `f`.
pub open spec fn joined_to(g: Map<Vx, Set<Vx>>, x: Vx, f: Set<Vx>, u: Vx, v: Vx) -> bool {
    has_edge(g, u, v) || (u == x && f.contains(v)) || (v == x && f.contains(u))
}

/// One degree-two step at `x`, whose neighbours are `n0` and `n1`: where
/// they are adjacent, both join the solution; otherwise they leave the
/// graph, `x` takes over their other neighbours, `n0` joins the solution
/// and the undo step for the fold is recorded.
pub open spec fn deg2_fold(a: &State, b: &State, x: Vx, n0: Vx, n1: Vx) -> bool {
    let g = a.graph@;
    let g1 = without_set(g, set![n0, n1]);
    &&& nbrs(g, x) == set![n0, n1]
    &&& n0 != n1
    &&& if has_edge(g, n0, n1) {
        &&& b.solution@ == a.solution@.push(n0).push(n1)
        &&& b.graph@ == g1
        &&& b.cleanup_funcs@ == a.cleanup_funcs@
    } else {
        &&& b.solution@ == a.solution@.push(n0)
        &&& forall|u: Vx, v: Vx| #[trigger] has_edge(b.graph@, u, v) <==> joined_to(g1, x, nbrs(g, n0).union(nbrs(g, n1)).remove(x), u, v)
        &&& b.cleanup_funcs@ == a.cleanup_funcs@.push(Cleanup::Deg2 { x, n0, n1 })
    }
}

/// Folding a vertex `x` whose two neighbours `n0`, `n1` are not adjacent
/// keeps the minimum: `h` is `g` without `n0` and `n1`, with `x` joined
/// to their other neighbours, and each vertex cover `c` of `g` leaves,
/// less one vertex, a cover of `h`.
pub proof fn law_fold_keeps_min(g: Map<Vx, Set<Vx>>, n: nat, x: Vx, n0: Vx, n1: Vx, h: Map<Vx, Set<Vx>>, c: Set<Vx>)
    requires
        simple_graph(g, n),
        nbrs(g, x) == set![n0, n1],
        n0 != n1,
        !has_edge(g, n0, n1),
        forall|u: Vx, w: Vx| #[trigger] has_edge(h, u, w)
            <==> joined_to(without_set(g, set![n0, n1]), x, nbrs(g, n0).union(nbrs(g, n1)).remove(x), u, w),
        is_vertex_cover(g, c),
        c.finite(),
    ensures
        exists|c2: Set<Vx>| #[trigger] is_vertex_cover(h, c2) && c2.finite() && c2.len() + 1 <= c.len(),
{
    let pair = set![n0, n1];
    let g1 = without_set(g, pair);
    let f = nbrs(g, n0).union(nbrs(g, n1)).remove(x);
    assert(has_edge(g, x, n0) && has_edge(g, x, n1));
    assert(nbrs(g, x).contains(n0) && nbrs(g, x).contains(n1));
    assert(x != n0 && x != n1);
    assert forall|u: Vx, w: Vx| #[trigger] has_edge(g1, u, w) implies has_edge(g, u, w) && !pair.contains(u) && !pair.contains(w) by {
        assert(g[u].difference(pair).contains(w));
    }
    if !c.contains(x) {
        assert(c.contains(n0) && c.contains(n1));
        let c2 = c.remove(n0).remove(n1).insert(x);
        assert forall|u: Vx, w: Vx| #[trigger] has_edge(h, u, w) implies c2.contains(u) || c2.contains(w) by {
            if has_edge(g1, u, w) {
                assert(has_edge(g, u, w));
            }
        }
        assert(is_vertex_cover(h, c2));
    } else if c.contains(n0) || c.contains(n1) {
        let c2 = c.remove(n0).remove(n1);
        assert(c2.contains(x));
        if c.contains(n0) && c.contains(n1) {
            assert(c2.len() + 2 == c.len());
        } else if c.contains(n0) {
            assert(c.remove(n0).remove(n1) == c.remove(n0));
        } else {
            assert(c.remove(n0) == c);
        }
        assert forall|u: Vx, w: Vx| #[trigger] has_edge(h, u, w) implies c2.contains(u) || c2.contains(w) by {
            if has_edge(g1, u, w) {
                assert(has_edge(g, u, w));
            }
        }
        assert(is_vertex_cover(h, c2));
    } else {
        let c2 = c.remove(x);
        assert forall|u: Vx, w: Vx| #[trigger] has_edge(h, u, w) implies c2.contains(u) || c2.contains(w) by {
            if has_edge(g1, u, w) {
                assert(has_edge(g, u, w));
                if u == x {
                    assert(nbrs(g, x).contains(w));
                }
                if w == x {
                    assert(has_edge(g, w, u));
                    assert(nbrs(g, x).contains(u));
                }
            } else if u == x {
                assert(f.contains(w));
                if nbrs(g, n0).contains(w) {
                    assert(has_edge(g, n0, w));
                } else {
                    assert(has_edge(g, n1, w));
                }
            } else {
                assert(w == x && f.contains(u));
                if nbrs(g, n0).contains(u) {
                    assert(has_edge(g, n0, u));
                } else {
                    assert(has_edge(g, n1, u));
                }
            }
        }
        assert(is_vertex_cover(h, c2));
    }
}

/// Degree-two steps keep the minimum: where the graph of `a` has a cover
/// of at most `k` vertices, the graph of `b` has one of at most `k` less
/// the vertices that joined the solution on the way.
pub proof fn law_deg2_steps_keep_min(a: State, b: State, steps: nat, k: int)
    requires
        a.wf(),
        deg2_steps(a, b, steps),
        cover_within(a.graph@, k),
    ensures
        cover_within(b.graph@, k - (b.solution@.len() - a.solution@.len())),
    decreases steps,
{
    if steps == 0 {
    } else {
        let (m, x, n0, n1) = choose|m: State, x: Vx, n0: Vx, n1: Vx| deg2_steps(a, m, (steps - 1) as nat) && m.wf()
            && #[trigger] deg2_fold(&m, &b, x, n0, n1);
        law_deg2_steps_keep_min(a, m, (steps - 1) as nat, k);
        let km = k - (m.solution@.len() - a.solution@.len());
        let c = choose|c: Set<Vx>| #[trigger] is_vertex_cover(m.graph@, c) && c.finite() && c.len() <= km;
        let g = m.graph@;
        m.graph.lemma_simple();
        if has_edge(g, n0, n1) {
            assert(is_clique(g, nbrs(g, x))) by {
                assert forall|p: Vx, q: Vx| nbrs(g, x).contains(p) && nbrs(g, x).contains(q) && p != q implies has_edge(g, p, q) by {
                    if p == n1 {
                        assert(has_edge(g, n1, n0)) by {
                            assert(g[n0].contains(n1));
                        }
                    }
                }
            }
            assert(g.dom().contains(x)) by {
                assert(nbrs(g, x).contains(n0));
            }
            crate::ideas::neighbourclique::law_clique_neighbours(g, m.graph.spec_n(), x, c);
            assert(set![n0, n1].len() == 2);
        } else {
            law_fold_keeps_min(g, m.graph.spec_n(), x, n0, n1, b.graph@, c);
        }
    }
}

/// `b` comes from `a` by `k` degree-two steps.
pub open spec fn deg2_steps(a: State, b: State, k: nat) -> bool
    decreases k,
{
    if k == 0 {
        b.graph@ == a.graph@ && b.solution@ == a.solution@ && b.cleanup_funcs@ == a.cleanup_funcs@
    } else {
        exists|m: State, x: Vx, n0: Vx, n1: Vx| deg2_steps(a, m, (k - 1) as nat) && m.wf() && #[trigger] deg2_fold(&m, &b, x, n0, n1)
    }
}

/// The solution of `s` cannot take what the degree-two step at `x`
/// puts into it: both neighbours where they are adjacent, one of them
/// otherwise (its constraints are dropped first, so only the bound counts).
pub open spec fn deg2_refused(s: &State, x: Vx) -> bool {
    exists|n0: Vx, n1: Vx| #[trigger] nbrs(s.graph@, x) == set![n0, n1] && n0 != n1 && if has_edge(s.graph@, n0, n1) {
        !takes_set(s, set![n0, n1])
    } else {
        s.solution@.len() + 1 > s.upper_bound
    }
}

/// On the way from `s0` to `fin` by degree-two steps, the rule looked at
/// `x` in some state `m` of the way: `x` did not have degree two there, or
/// the step at `x` was taken from `m`.
pub open spec fn deg2_seen(s0: State, fin: State, x: Vx) -> bool {
    exists|m: State, k1: nat, k2: nat| #![trigger deg2_steps(s0, m, k1), deg2_steps(m, fin, k2)]
        deg2_steps(s0, m, k1) && deg2_steps(m, fin, k2) && m.wf() && (nbrs(m.graph@, x).len() != 2
            || exists|m2: State, n0: Vx, n1: Vx, k3: nat| #![trigger deg2_fold(&m, &m2, x, n0, n1), deg2_steps(m2, fin, k3)]
                deg2_fold(&m, &m2, x, n0, n1) && deg2_steps(m2, fin, k3))
}

/// A run of steps followed by one more step is a run.
pub proof fn lemma_deg2_steps_push(a: State, b: State, k: nat, c: State, x: Vx, n0: Vx, n1: Vx)
    requires
        deg2_steps(a, b, k),
        b.wf(),
        deg2_fold(&b, &c, x, n0, n1),
    ensures
        deg2_steps(a, c, k + 1),
{
}

/// What was looked at on the way stays looked at one step further.
proof fn lemma_deg2_seen_push(s0: State, fin: State, fin2: State, x: Vx, y: Vx, n0: Vx, n1: Vx)
    requires
        deg2_seen(s0, fin, x),
        fin.wf(),
        deg2_fold(&fin, &fin2, y, n0, n1),
    ensures
        deg2_seen(s0, fin2, x),
{
    let (m, k1, k2) = choose|m: State, k1: nat, k2: nat| #![trigger deg2_steps(s0, m, k1), deg2_steps(m, fin, k2)]
        deg2_steps(s0, m, k1) && deg2_steps(m, fin, k2) && m.wf() && (nbrs(m.graph@, x).len() != 2
            || exists|m2: State, n0: Vx, n1: Vx, k3: nat| #![trigger deg2_fold(&m, &m2, x, n0, n1), deg2_steps(m2, fin, k3)]
                deg2_fold(&m, &m2, x, n0, n1) && deg2_steps(m2, fin, k3));
    lemma_deg2_steps_push(m, fin, k2, fin2, y, n0, n1);
    if nbrs(m.graph@, x).len() == 2 {
        let (m2, a0, a1, k3) = choose|m2: State, n0: Vx, n1: Vx, k3: nat| #![trigger deg2_fold(&m, &m2, x, n0, n1), deg2_steps(m2, fin, k3)]
            deg2_fold(&m, &m2, x, n0, n1) && deg2_steps(m2, fin, k3);
        lemma_deg2_steps_push(m2, fin, k3, fin2, y, n0, n1);
        assert(deg2_fold(&m, &m2, x, a0, a1) && deg2_steps(m2, fin2, k3 + 1));
    }
    assert(deg2_steps(s0, m, k1) && deg2_steps(m, fin2, k2 + 1));
}

/// Folds the degree-two vertex `x`, or takes both its neighbours where
/// they are adjacent. `None` where the solution cannot take them.
fn apply_deg2(state: &mut State, x: Vx) -> (r: Option<()>)
    requires
        old(state).wf(),
        old(state).graph@.dom().contains(x),
        nbrs(old(state).graph@, x).len() == 2,
    ensures
        r is Some ==> reduced(old(state), final(state)) && progressed(old(state), final(state)),
        r is Some ==> exists|n0: Vx, n1: Vx| #[trigger] deg2_fold(old(state), final(state), x, n0, n1)
            && (!has_edge(old(state).graph@, n0, n1) ==> fingers_cleared(final(state), set![x, n0, n1])),
        r is None <==> deg2_refused(old(state), x),
{
    let ghost s0 = *state;
    let ghost d0 = state.graph@.dom();
    let n = state.graph.n();
    proof {
        state.graph.lemma_simple();
    }
    let nb = state.graph.neighbours(x);
    proof {
        nb@.unique_seq_to_set();
        assert(nb@.to_set().contains(nb@[0]));
        assert(nb@.to_set().contains(nb@[1]));
    }
    let n0 = nb[0];
    let n1 = nb[1];
    let ghost g = s0.graph@;
    proof {
        assert(nbrs(g, x) =~= set![n0, n1]) by {
            assert forall|v: Vx| nbrs(g, x).contains(v) implies v == n0 || v == n1 by {
                assert(nb@.to_set().contains(v));
                let i = choose|i: int| 0 <= i < nb@.len() && nb@[i] == v;
            }
        }
    }
    proof {
        assert(n0 != n1) by {
            assert(nb@[0] != nb@[1]);
        }
        assert forall|m0: Vx, m1: Vx| #[trigger] nbrs(g, x) == set![m0, m1] && m0 != m1
            implies (m0 == n0 && m1 == n1) || (m0 == n1 && m1 == n0) by {
            assert(set![m0, m1].contains(m0) && set![m0, m1].contains(m1));
            assert(set![n0, n1].contains(n0) && set![n0, n1].contains(n1));
        }
        assert(has_edge(g, n0, n1) <==> has_edge(g, n1, n0));
        assert(set![n1, n0] =~= set![n0, n1]);
    }
    if state.graph.get_edge(n0, n1) {
        let mut both: Vec<Vx> = Vec::new();
        both.push(n0);
        both.push(n1);
        proof {
            assert(both@ =~= seq![n0, n1]);
            assert(both@.no_duplicates());
            assert(both@.to_set() =~= set![n0, n1]) by {
                assert forall|v: Vx| both@.to_set().contains(v) implies v == n0 || v == n1 by {
                    let i = choose|i: int| 0 <= i < both@.len() && both@[i] == v;
                }
                assert(both@.to_set().contains(both@[0]));
                assert(both@.to_set().contains(both@[1]));
            }
            lemma_takes_set(&s0, both@);
        }
        let r = state.extend_solution(both);
        proof {
            if r is Some {
                assert(both@[0] == n0 && both@[1] == n1 && both@.len() == 2);
                assert(both@.to_set() =~= set![n0, n1]) by {
                    assert forall|v: Vx| both@.to_set().contains(v) implies v == n0 || v == n1 by {
                        let i = choose|i: int| 0 <= i < both@.len() && both@[i] == v;
                    }
                    assert(both@.to_set().contains(both@[0]));
                    assert(both@.to_set().contains(both@[1]));
                }
                assert(s0.solution@ + both@ =~= s0.solution@.push(n0).push(n1));
                assert(deg2_fold(&s0, state, x, n0, n1));
            }
        }
        return r;
    }
    let ghost g1 = without_set(g, set![n0, n1]);
    proof {
        lemma_without_set_insert(g, n as nat, Set::empty(), n0);
        lemma_without_set_insert(g, n as nat, Set::empty().insert(n0), n1);
        assert(Set::<Vx>::empty().insert(n0).insert(n1) =~= set![n0, n1]);
        lemma_nbrs_without_set(g, n as nat, Set::empty().insert(n0), n1);
        assert(nbrs(g, n1).difference(Set::empty().insert(n0)) =~= nbrs(g, n1)) by {
            assert(!has_edge(g, n1, n0));
        }
    }
    let mut full = IdSet::empty();
    let h0 = state.graph.rm_vertex(n0);
    let h1 = state.graph.rm_vertex(n1);
    proof {
        assert(state.graph@ == g1);
    }
    let e0 = h0.elements();
    let e1 = h1.elements();
    let mut k: usize = 0;
    proof {
        assert(e0@.take(0).to_set() =~= Set::<Vx>::empty());
    }
    while k < e0.len()
        invariant
            k <= e0@.len(),
            e0@.to_set() == nbrs(s0.graph@, n0),
            forall|f: Vx| #[trigger] full@.contains(f) ==> d0.contains(f) && f < n,
            simple_graph(s0.graph@, n as nat),
            d0 == s0.graph@.dom(),
            full@ == e0@.take(k as int).to_set(),
        decreases e0@.len() - k,
    {
        let ghost fb = full@;
        proof {
            assert(e0@.to_set().contains(e0@[k as int]));
            assert(has_edge(s0.graph@, n0, e0@[k as int]));
            assert(e0@.take(k + 1) == e0@.take(k as int).push(e0@[k as int]));
            lemma_to_set_push(e0@.take(k as int), e0@[k as int]);
        }
        full.insert(e0[k]);
        proof {
            assert forall|f: Vx| #[trigger] full@.contains(f) implies d0.contains(f) && f < n by {
                if f != e0@[k as int] {
                    assert(fb.contains(f));
                }
            }
        }
        k = k + 1;
    }
    proof {
        assert(e0@.take(k as int) == e0@);
        assert(e1@.take(0).to_set() =~= Set::<Vx>::empty());
        assert(full@.union(Set::<Vx>::empty()) =~= full@);
    }
    let ghost f0 = full@;
    let mut k: usize = 0;
    while k < e1.len()
        invariant
            k <= e1@.len(),
            e1@.to_set() == nbrs(without_vertex(s0.graph@, n0), n1),
            forall|f: Vx| #[trigger] full@.contains(f) ==> d0.contains(f) && f < n,
            simple_graph(s0.graph@, n as nat),
            d0 == s0.graph@.dom(),
            full@ == f0.union(e1@.take(k as int).to_set()),
        decreases e1@.len() - k,
    {
        let ghost fb = full@;
        proof {
            assert(e1@.to_set().contains(e1@[k as int]));
            assert(without_vertex(s0.graph@, n0).dom().contains(n1));
            assert(has_edge(s0.graph@, n1, e1@[k as int]));
            assert(e1@.take(k + 1) == e1@.take(k as int).push(e1@[k as int]));
            lemma_to_set_push(e1@.take(k as int), e1@[k as int]);
        }
        full.insert(e1[k]);
        proof {
            assert forall|f: Vx| #[trigger] full@.contains(f) implies d0.contains(f) && f < n by {
                if f != e1@[k as int] {
                    assert(fb.contains(f));
                }
            }
            assert(full@ =~= f0.union(e1@.take(k + 1).to_set()));
        }
        k = k + 1;
    }
    proof {
        assert(e1@.take(k as int) == e1@);
    }
    let ghost fb = full@;
    full.remove(x);
    let ghost big = nbrs(g, n0).union(nbrs(g, n1)).remove(x);
    proof {
        assert forall|f: Vx| #[trigger] full@.contains(f) implies d0.contains(f) && f < n by {
            assert(fb.contains(f));
        }
        assert(full@ =~= big);
    }
    let fs = full.elements();
    let mut k: usize = 0;
    proof {
        assert(state.wf());
        assert(state.graph@.dom().subset_of(d0));
        assert(fs@.take(0).to_set() =~= Set::<Vx>::empty());
    }
    while k < fs.len()
        invariant
            state.wf(),
            state.graph.spec_n() == n,
            n == s0.graph.spec_n(),
            d0.contains(x),
            x < n,
            k <= fs@.len(),
            fs@.to_set() == full@,
            !full@.contains(x),
            forall|f: Vx| #[trigger] full@.contains(f) ==> d0.contains(f) && f < n,
            state.graph@.dom().subset_of(d0),
            state.solution == s0.solution,
            state.upper_bound == s0.upper_bound,
            state.dirty == s0.dirty,
            state.constraints_vec == s0.constraints_vec,
            state.diff_vec == s0.diff_vec,
            state.fingertable == s0.fingertable,
            state.cleanup_funcs == s0.cleanup_funcs,
            forall|u: Vx, v: Vx| #[trigger] has_edge(state.graph@, u, v) <==> joined_to(g1, x, fs@.take(k as int).to_set(), u, v),
        decreases fs@.len() - k,
    {
        let f = fs[k];
        proof {
            assert(fs@.to_set().contains(fs@[k as int]));
        }
        let ghost gb = state.graph@;
        state.graph.add_edge(x, f);
        proof {
            lemma_with_edge_edges(gb, x, f);
            assert(fs@.take(k + 1) == fs@.take(k as int).push(f));
            lemma_to_set_push(fs@.take(k as int), f);
            assert forall|u: Vx, v: Vx| #[trigger] has_edge(state.graph@, u, v) <==> joined_to(g1, x, fs@.take(k + 1).to_set(), u, v) by {
                assert(has_edge(gb, u, v) <==> joined_to(g1, x, fs@.take(k as int).to_set(), u, v));
            }
        }
        k = k + 1;
    }
    proof {
        assert(fs@.take(k as int) == fs@);
    }
    let mut changed = fs;
    changed.push(n0);
    changed.push(n1);
    changed.push(x);
    proof {
        assert forall|i: int| 0 <= i < changed@.len() implies #[trigger] changed@[i] < n by {
            if i < changed@.len() - 3 {
                assert(fs@.to_set().contains(fs@[i]));
                assert(changed@[i] == fs@[i]);
            }
        }
    }
    let ghost sd = *state;
    let ghost ch = changed@;
    state.make_iter_dirty(changed);
    proof {
        assert forall|j: int, v: Vx| 0 <= j < state.dirty@.len() && #[trigger] state.dirty@[j]@.contains(v) implies v < state.graph.spec_n() by {
            assert(state.dirty@[j]@ == sd.dirty@[j]@.union(ch.to_set()));
            if ch.to_set().contains(v) {
                let i = choose|i: int| 0 <= i < ch.len() && ch[i] == v;
                assert(ch[i] < n);
            } else {
                assert(sd.dirty@[j]@.contains(v));
            }
        }
        assert(state.wf());
    }
    state.shallow_clear_constraints(n0);
    state.shallow_clear_constraints(n1);
    state.shallow_clear_constraints(x);
    let ghost s2 = *state;
    proof {
        assert(fingers(&s2, n0) =~= Set::<usize>::empty());
        assert(fingers_cleared(&s2, set![x, n0, n1]));
    }
    let r = state.add_to_solution(n0);
    if r.is_none() {
        return None;
    }
    state.cleanup_funcs.push(Cleanup::Deg2 { x, n0, n1 });
    proof {
        assert(state.graph@.dom().subset_of(d0));
        assert(state.solution@.subrange(0, s0.solution@.len() as int) =~= s0.solution@);
        s2.graph.lemma_simple();
        lemma_without_vertex_edges(s2.graph@, n as nat, n0);
        assert forall|u: Vx, v: Vx| #[trigger] has_edge(state.graph@, u, v) <==> joined_to(g1, x, big, u, v) by {
            assert(has_edge(s2.graph@, u, v) <==> joined_to(g1, x, big, u, v));
            if joined_to(g1, x, big, u, v) {
                assert(u != n0 && v != n0) by {
                    assert(!nbrs(g, n0).contains(n0));
                    assert(!nbrs(g, n1).contains(n0)) by {
                        assert(!has_edge(g, n1, n0));
                    }
                }
            }
        }
        assert(deg2_fold(&s0, state, x, n0, n1));
        assert(fingers_cleared(state, set![x, n0, n1]));
    }
    Some(())
}

impl Deg2 {
    /// A copy of the rule with its data.
    pub fn duplicate(&self) -> (r: Deg2)
        ensures
            forall|n: nat| self.inv(n) ==> r.inv(n),
            r.0@ == self.0@,
    {
        let r = Deg2(self.0.duplicate());
        proof {
            assert(r.0@ == self.0@);
        }
        r
    }
}

impl Idea for Deg2 {
    closed spec fn inv(&self, n: nat) -> bool {
        forall|v: Vx| self.0@.contains(v) ==> v < n
    }

    closed spec fn pending(&self, dirty: Set<Vx>) -> bool {
        dirty.len() > 0 || self.0@.len() > 0
    }

    fn new(g: &Graph) -> (r: Self)
        ensures
            r.0@ == Set::<Vx>::empty(),
    {
        Deg2(IdSet::empty())
    }

    fn priority(&self, state: &State, dirty: &IdSet) -> (r: usize)
        ensures
            r == (if self.pending(dirty@) { 4usize } else { 0 }),
    {
        if dirty.len() == 0 && self.0.len() == 0 {
            return 0;
        }
        4
    }

    fn apply(&mut self, state: &mut State, dirty: &IdSet) -> (r: Option<()>)
        ensures
            r is Some ==> progressed(old(state), final(state)) || (unchanged(old(state), final(state))
                && !final(self).pending(Set::empty())),
            r is Some ==> exists|k: nat| deg2_steps(*old(state), *final(state), k),
            r is Some ==> forall|y: Vx| old(self).0@.contains(y) || dirty@.contains(y)
                ==> #[trigger] deg2_seen(*old(state), *final(state), y),
            r is None ==> exists|m: State, k: nat, x: Vx| #![trigger deg2_steps(*old(state), m, k), deg2_refused(&m, x)]
                deg2_steps(*old(state), m, k) && m.wf() && m.graph@.dom().contains(x) && deg2_refused(&m, x),
    {
        let n = state.graph.n();
        let ds = dirty.elements();
        let mut k: usize = 0;
        while k < ds.len()
            invariant
                k <= ds@.len(),
                *state == *old(state),
                n == state.graph.spec_n(),
                ds@.to_set() == dirty@,
                forall|v: Vx| dirty@.contains(v) ==> v < n,
                forall|v: Vx| self.0@.contains(v) ==> v < n,
                forall|v: Vx| old(self).0@.contains(v) ==> self.0@.contains(v),
                forall|j: int| 0 <= j < k ==> self.0@.contains(#[trigger] ds@[j]),
            decreases ds@.len() - k,
        {
            proof {
                assert(ds@.to_set().contains(ds@[k as int]));
            }
            let ghost sb = self.0@;
            self.0.insert(ds[k]);
            proof {
                assert forall|v: Vx| self.0@.contains(v) implies v < n by {
                    if v != ds@[k as int] {
                        assert(sb.contains(v));
                    }
                }
            }
            k = k + 1;
        }
        let ghost s0 = *state;
        let ghost mut progress = false;
        let ghost mut done: Set<Vx> = Set::empty();
        proof {
            lemma_reduced_refl(state);
            assert(deg2_steps(s0, *state, 0));
            assert forall|y: Vx| old(self).0@.contains(y) || dirty@.contains(y) implies self.0@.contains(y) by {
                if dirty@.contains(y) {
                    assert(ds@.to_set().contains(y));
                    let j = choose|j: int| 0 <= j < ds@.len() && ds@[j] == y;
                    assert(self.0@.contains(ds@[j]));
                }
            }
        }
        loop
            invariant
                state.wf(),
                s0.wf(),
                n == state.graph.spec_n(),
                n == s0.graph.spec_n(),
                forall|v: Vx| self.0@.contains(v) ==> v < n,
                reduced(&s0, state),
                s0 == *old(state),
                progress ==> progressed(&s0, state),
                !progress ==> *state == s0,
                exists|k: nat| deg2_steps(s0, *state, k),
                forall|y: Vx| old(self).0@.contains(y) || dirty@.contains(y) ==> self.0@.contains(y) || done.contains(y),
                forall|y: Vx| done.contains(y) ==> #[trigger] deg2_seen(s0, *state, y),
            decreases self.0@.len(),
        {
            proof {
                lemma_bounded_set_len(self.0@, n);
            }
            let x = match self.0.some_element() {
                None => {
                    proof {
                        if !progress {
                            lemma_reduced_refl(&s0);
                        }
                        assert(self.0@.len() == 0);
                        let k = choose|k: nat| deg2_steps(s0, *state, k);
                        crate::sound::lemma_deg2_steps_within(s0, *state, k);
                        crate::sound::lemma_within_from_graph(&s0, state);
                    }
                    return Some(());
                },
                Some(x) => x,
            };
            let ghost sb = self.0@;
            self.0.remove(x);
            proof {
                assert forall|v: Vx| self.0@.contains(v) implies v < n by {
                    assert(sb.contains(v));
                }
                done = done.insert(x);
            }
            if state.graph.get_degree(x) == 2 {
                proof {
                    if !state.graph@.dom().contains(x) {
                        assert(nbrs(state.graph@, x) =~= Set::<Vx>::empty());
                    }
                }
                let ghost before = *state;
                let r = apply_deg2(state, x);
                if r.is_none() {
                    proof {
                        let k = choose|k: nat| deg2_steps(s0, before, k);
                        assert(deg2_steps(*old(state), before, k) && deg2_refused(&before, x));
                    }
                    return None;
                }
                proof {
                    lemma_reduced_trans(&s0, &before, state);
                    progress = true;
                    let k = choose|k: nat| deg2_steps(s0, before, k);
                    let (n0, n1) = choose|n0: Vx, n1: Vx| #[trigger] deg2_fold(&before, state, x, n0, n1);
                    assert(deg2_steps(s0, *state, k + 1));
                    assert forall|y: Vx| done.contains(y) implies #[trigger] deg2_seen(s0, *state, y) by {
                        if y == x {
                            assert(deg2_steps(before, before, 0));
                            lemma_deg2_steps_push(before, before, 0, *state, x, n0, n1);
                            assert(deg2_steps(*state, *state, 0));
                            assert(deg2_fold(&before, state, x, n0, n1) && deg2_steps(*state, *state, 0));
                            assert(deg2_steps(s0, before, k) && deg2_steps(before, *state, 1));
                        } else {
                            lemma_deg2_seen_push(s0, before, *state, y, x, n0, n1);
                        }
                    }
                }
            } else {
                proof {
                    let k = choose|k: nat| deg2_steps(s0, *state, k);
                    assert(deg2_steps(*state, *state, 0));
                    assert(deg2_steps(s0, *state, k) && deg2_steps(*state, *state, 0));
                    assert(deg2_seen(s0, *state, x));
                }
            }
        }
    }
}

} // verus!
