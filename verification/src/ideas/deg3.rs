//! Degree-three folding: a vertex `v` whose three neighbours `a`, `b`, `c`
//! are pairwise non-adjacent leaves the graph; `a`, `b`, `c` get the edges
//! `ab`, `bc`, and `a`, `b`, `c` take over the neighbours of `b`, `c`, `a`
//! respectively; an undo step settles `v` at the end.

use vstd::prelude::*;
use crate::idset::IdSet;
use crate::graph::{Vx, Edge, Graph, nbrs, has_edge, with_edge, simple_graph, lists_edge, lemma_bounded_set_len,
    lemma_with_edge_edges, lemma_without_vertex_edges};
use crate::state::{fingers_cleared, State, reduced, progressed, unchanged, lemma_reduced_refl, lemma_reduced_trans};
use crate::cleanup::Cleanup;
use crate::idea::Idea;
use crate::state::{is_vertex_cover, cover_within};

verus! {

/// The degree-three rule; it keeps the vertices it has still to look at.
pub struct Deg3(pub IdSet);

/// The new edges from `p` to every neighbour of `q` other than `p`,
/// appended to `out`.
fn edges_to_neighbours(g: &Graph, p: Vx, q: Vx, out: &mut Vec<Edge>, Ghost(d0): Ghost<Set<Vx>>)
    requires
        g.wf(),
        g@.dom() == d0,
        d0.contains(p),
        p < g.spec_n(),
        forall|i: int| 0 <= i < old(out)@.len() ==> (#[trigger] old(out)@[i]).0 != old(out)@[i].1
            && d0.contains(old(out)@[i].0) && d0.contains(old(out)@[i].1) && old(out)@[i].0 < g.spec_n() && old(out)@[i].1 < g.spec_n(),
    ensures
        forall|i: int| 0 <= i < final(out)@.len() ==> (#[trigger] final(out)@[i]).0 != final(out)@[i].1
            && d0.contains(final(out)@[i].0) && d0.contains(final(out)@[i].1) && final(out)@[i].0 < g.spec_n() && final(out)@[i].1 < g.spec_n(),
        forall|e: Edge| #[trigger] final(out)@.contains(e) <==> (old(out)@.contains(e) || (e.0 == p && nbrs(g@, q).remove(p).contains(e.1))),
{
    let nei = g.neighbours(q);
    let mut k: usize = 0;
    proof {
        g.lemma_simple();
    }
    while k < nei.len()
        invariant
            g.wf(),
            g@.dom() == d0,
            simple_graph(g@, g.spec_n()),
            d0.contains(p),
            p < g.spec_n(),
            k <= nei@.len(),
            nei@.to_set() == nbrs(g@, q),
            forall|i: int| 0 <= i < out@.len() ==> (#[trigger] out@[i]).0 != out@[i].1
                && d0.contains(out@[i].0) && d0.contains(out@[i].1) && out@[i].0 < g.spec_n() && out@[i].1 < g.spec_n(),
            forall|e: Edge| #[trigger] out@.contains(e) <==> (old(out)@.contains(e) || (e.0 == p && nei@.take(k as int).to_set().remove(p).contains(e.1))),
        decreases nei@.len() - k,
    {
        let m = nei[k];
        let ghost ob = out@;
        proof {
            assert(nei@.take(k + 1) == nei@.take(k as int).push(m));
            crate::graph::lemma_to_set_push(nei@.take(k as int), m);
        }
        proof {
            assert(nei@.to_set().contains(nei@[k as int]));
            assert(has_edge(g@, q, m));
        }
        if m != p {
            let ghost o0 = out@;
            out.push((p, m));
            proof {
                assert forall|i: int| 0 <= i < out@.len() implies (#[trigger] out@[i]).0 != out@[i].1
                    && d0.contains(out@[i].0) && d0.contains(out@[i].1) && out@[i].0 < g.spec_n() && out@[i].1 < g.spec_n() by {
                    if i < o0.len() {
                        assert(out@[i] == o0[i]);
                    }
                }
            }
        }
        proof {
            assert forall|e: Edge| #[trigger] out@.contains(e) <==> (old(out)@.contains(e) || (e.0 == p && nei@.take(k + 1).to_set().remove(p).contains(e.1))) by {
                crate::graph::lemma_push_contains(ob, (p, m), e);
            }
        }
        k = k + 1;
    }
    proof {
        assert(nei@.take(k as int) == nei@);
    }
}

/// `{x, y}` is one of the edges that the fold at `v` with neighbours
/// `a`, `b`, `c` adds: from `a`, `b`, `c` to the other neighbours of `b`,
/// `c`, `a` respectively, and `ab`, `bc`.
pub open spec fn deg3_pair(g: Map<Vx, Set<Vx>>, a: Vx, b: Vx, c: Vx, x: Vx, y: Vx) -> bool {
    ||| (x == a && nbrs(g, b).remove(a).contains(y)) || (y == a && nbrs(g, b).remove(a).contains(x))
    ||| (x == b && nbrs(g, c).remove(b).contains(y)) || (y == b && nbrs(g, c).remove(b).contains(x))
    ||| (x == c && nbrs(g, a).remove(c).contains(y)) || (y == c && nbrs(g, a).remove(c).contains(x))
    ||| (x == a && y == b) || (x == b && y == a)
    ||| (x == b && y == c) || (x == c && y == b)
}

/// One degree-three fold at `v`, whose neighbours `a`, `b`, `c` are
/// pairwise non-adjacent: `v` leaves the graph, the edges of `deg3_pair`
/// come in, and the undo step is recorded.
pub open spec fn deg3_fold(s: &State, t: &State, v: Vx, a: Vx, b: Vx, c: Vx) -> bool {
    let g = s.graph@;
    &&& nbrs(g, v) == set![a, b, c]
    &&& a != b && b != c && a != c
    &&& !has_edge(g, a, b) && !has_edge(g, b, c) && !has_edge(g, a, c)
    &&& t.solution@ == s.solution@
    &&& forall|x: Vx, y: Vx| #[trigger] has_edge(t.graph@, x, y) <==> (x != v && y != v && (has_edge(g, x, y) || deg3_pair(g, a, b, c, x, y)))
    &&& t.cleanup_funcs@ == s.cleanup_funcs@.push(Cleanup::Deg3 { v, a, b, c })
}

/// `t` comes from `s` by `k` degree-three folds.
pub open spec fn deg3_steps(s: State, t: State, k: nat) -> bool
    decreases k,
{
    if k == 0 {
        t.graph@ == s.graph@ && t.solution@ == s.solution@ && t.cleanup_funcs@ == s.cleanup_funcs@
    } else {
        exists|m: State, v: Vx, a: Vx, b: Vx, c: Vx| deg3_steps(s, m, (k - 1) as nat) && m.wf() && #[trigger] deg3_fold(&m, &t, v, a, b, c)
    }
}

/// Folds the degree-three vertex `v` where its neighbours are pairwise
/// non-adjacent; leaves the state as it is otherwise.
/// Folding a vertex `v` of degree three whose neighbours `a`, `b`, `c`
/// are pairwise apart keeps the minimum: `h` is `g` without `v`, with
/// `a` joined to `b` and to the other neighbours of `b`, `b` to `c` and
/// to the other neighbours of `c`, and `c` to the other neighbours of
/// `a`; each vertex cover `cv` of `g` gives one of `h` no larger.
pub proof fn law_deg3_keeps_min(g: Map<Vx, Set<Vx>>, n: nat, v: Vx, a: Vx, b: Vx, c: Vx, h: Map<Vx, Set<Vx>>, cv: Set<Vx>)
    requires
        simple_graph(g, n),
        nbrs(g, v) == set![a, b, c],
        a != b && b != c && a != c,
        !has_edge(g, a, b) && !has_edge(g, b, c) && !has_edge(g, a, c),
        forall|x: Vx, y: Vx| #[trigger] has_edge(h, x, y) <==> (x != v && y != v && (has_edge(g, x, y) || deg3_pair(g, a, b, c, x, y))),
        is_vertex_cover(g, cv),
        cv.finite(),
    ensures
        exists|c2: Set<Vx>| #[trigger] is_vertex_cover(h, c2) && c2.finite() && c2.len() <= cv.len(),
{
    assert(nbrs(g, v).contains(a) && nbrs(g, v).contains(b) && nbrs(g, v).contains(c));
    assert(has_edge(g, v, a) && has_edge(g, v, b) && has_edge(g, v, c));
    assert(v != a && v != b && v != c) by {
        assert(!g[v].contains(v));
    }
    assert forall|x: Vx, y: Vx| #[trigger] has_edge(g, x, y) implies has_edge(g, y, x) by {}
    // A neighbour of `v` outside the cover has all its neighbours in it.
    assert forall|t: Vx, y: Vx| !cv.contains(t) && #[trigger] nbrs(g, t).contains(y) implies cv.contains(y) by {
        assert(has_edge(g, t, y));
    }
    if !cv.contains(v) {
        assert(cv.contains(a) && cv.contains(b) && cv.contains(c));
        assert forall|x: Vx, y: Vx| #[trigger] has_edge(h, x, y) implies cv.contains(x) || cv.contains(y) by {
            if has_edge(g, x, y) {
            }
        }
        assert(is_vertex_cover(h, cv));
    } else {
        let t = if cv.contains(a) && cv.contains(b) && cv.contains(c) { a }
            else if cv.contains(a) && cv.contains(b) { c }
            else if cv.contains(a) && cv.contains(c) { b }
            else if cv.contains(b) && cv.contains(c) { a }
            else if cv.contains(a) { c }
            else if cv.contains(b) { a }
            else { b };
        let c2 = cv.remove(v).insert(t);
        assert forall|x: Vx, y: Vx| #[trigger] has_edge(h, x, y) implies c2.contains(x) || c2.contains(y) by {
            if has_edge(g, x, y) {
                assert(cv.contains(x) || cv.contains(y));
            } else {
                assert(deg3_pair(g, a, b, c, x, y));
                if x == a && nbrs(g, b).remove(a).contains(y) {
                    assert(nbrs(g, b).contains(y));
                } else if y == a && nbrs(g, b).remove(a).contains(x) {
                    assert(nbrs(g, b).contains(x));
                } else if x == b && nbrs(g, c).remove(b).contains(y) {
                    assert(nbrs(g, c).contains(y));
                } else if y == b && nbrs(g, c).remove(b).contains(x) {
                    assert(nbrs(g, c).contains(x));
                } else if x == c && nbrs(g, a).remove(c).contains(y) {
                    assert(nbrs(g, a).contains(y));
                } else if y == c && nbrs(g, a).remove(c).contains(x) {
                    assert(nbrs(g, a).contains(x));
                }
            }
        }
        assert(is_vertex_cover(h, c2));
        assert(c2.len() <= cv.len()) by {
            assert(cv.remove(v).len() + 1 == cv.len());
        }
    }
}

/// Degree-three steps keep the minimum: where the graph of `a` has a
/// cover of at most `k` vertices, so has the graph of `b`.
pub proof fn law_deg3_steps_keep_min(a: State, b: State, steps: nat, k: int)
    requires
        a.wf(),
        deg3_steps(a, b, steps),
        cover_within(a.graph@, k),
    ensures
        cover_within(b.graph@, k),
        b.solution@ == a.solution@,
    decreases steps,
{
    if steps == 0 {
    } else {
        let (m, v, x, y, z) = choose|m: State, v: Vx, p: Vx, q: Vx, r: Vx| deg3_steps(a, m, (steps - 1) as nat) && m.wf()
            && #[trigger] deg3_fold(&m, &b, v, p, q, r);
        law_deg3_steps_keep_min(a, m, (steps - 1) as nat, k);
        let c = choose|c: Set<Vx>| #[trigger] is_vertex_cover(m.graph@, c) && c.finite() && c.len() <= k;
        m.graph.lemma_simple();
        law_deg3_keeps_min(m.graph@, m.graph.spec_n(), v, x, y, z, b.graph@, c);
    }
}

/// The neighbours of `v` in `g` are three, and two of them are adjacent.
pub open spec fn deg3_joined(g: Map<Vx, Set<Vx>>, v: Vx) -> bool {
    exists|a: Vx, b: Vx, c: Vx| #[trigger] nbrs(g, v) == set![a, b, c]
        && (has_edge(g, a, b) || has_edge(g, b, c) || has_edge(g, a, c))
}

/// On the way from `s0` to `fin` by degree-three steps, the rule looked at
/// `v` in some state `m` of the way: `v` did not have degree three there,
/// two of its neighbours were adjacent, or the step at `v` was taken from `m`.
pub open spec fn deg3_seen(s0: State, fin: State, v: Vx) -> bool {
    exists|m: State, k1: nat, k2: nat| #![trigger deg3_steps(s0, m, k1), deg3_steps(m, fin, k2)]
        deg3_steps(s0, m, k1) && deg3_steps(m, fin, k2) && m.wf() && (nbrs(m.graph@, v).len() != 3
            || deg3_joined(m.graph@, v)
            || exists|m2: State, a: Vx, b: Vx, c: Vx, k3: nat| #![trigger deg3_fold(&m, &m2, v, a, b, c), deg3_steps(m2, fin, k3)]
                deg3_fold(&m, &m2, v, a, b, c) && deg3_steps(m2, fin, k3))
}

/// A run of steps followed by one more step is a run.
pub proof fn lemma_deg3_steps_push(s: State, t: State, k: nat, u: State, v: Vx, a: Vx, b: Vx, c: Vx)
    requires
        deg3_steps(s, t, k),
        t.wf(),
        deg3_fold(&t, &u, v, a, b, c),
    ensures
        deg3_steps(s, u, k + 1),
{
}

/// What was looked at on the way stays looked at one step further.
proof fn lemma_deg3_seen_push(s0: State, fin: State, fin2: State, x: Vx, v: Vx, a: Vx, b: Vx, c: Vx)
    requires
        deg3_seen(s0, fin, x),
        fin.wf(),
        deg3_fold(&fin, &fin2, v, a, b, c),
    ensures
        deg3_seen(s0, fin2, x),
{
    let (m, k1, k2) = choose|m: State, k1: nat, k2: nat| #![trigger deg3_steps(s0, m, k1), deg3_steps(m, fin, k2)]
        deg3_steps(s0, m, k1) && deg3_steps(m, fin, k2) && m.wf() && (nbrs(m.graph@, x).len() != 3
            || deg3_joined(m.graph@, x)
            || exists|m2: State, a: Vx, b: Vx, c: Vx, k3: nat| #![trigger deg3_fold(&m, &m2, x, a, b, c), deg3_steps(m2, fin, k3)]
                deg3_fold(&m, &m2, x, a, b, c) && deg3_steps(m2, fin, k3));
    lemma_deg3_steps_push(m, fin, k2, fin2, v, a, b, c);
    if nbrs(m.graph@, x).len() == 3 && !deg3_joined(m.graph@, x) {
        let (m2, a0, b0, c0, k3) = choose|m2: State, a: Vx, b: Vx, c: Vx, k3: nat| #![trigger deg3_fold(&m, &m2, x, a, b, c), deg3_steps(m2, fin, k3)]
            deg3_fold(&m, &m2, x, a, b, c) && deg3_steps(m2, fin, k3);
        lemma_deg3_steps_push(m2, fin, k3, fin2, v, a, b, c);
        assert(deg3_fold(&m, &m2, x, a0, b0, c0) && deg3_steps(m2, fin2, k3 + 1));
    }
    assert(deg3_steps(s0, m, k1) && deg3_steps(m, fin2, k2 + 1));
}

fn apply_deg3(state: &mut State, v: Vx) -> (r: Option<()>)
    requires
        old(state).wf(),
        old(state).graph@.dom().contains(v),
        nbrs(old(state).graph@, v).len() == 3,
    ensures
        r is Some,
        (reduced(old(state), final(state)) && progressed(old(state), final(state))) || *final(state) == *old(state),
        *final(state) != *old(state) ==> exists|a: Vx, b: Vx, c: Vx| #[trigger] deg3_fold(old(state), final(state), v, a, b, c)
            && fingers_cleared(final(state), set![v, a, b, c]),
        *final(state) == *old(state) ==> deg3_joined(old(state).graph@, v),
{
    let ghost s0 = *state;
    let ghost d0 = state.graph@.dom();
    let n = state.graph.n();
    proof {
        state.graph.lemma_simple();
    }
    let nb = state.graph.neighbours(v);
    proof {
        nb@.unique_seq_to_set();
        assert(nb@.to_set().contains(nb@[0]));
        assert(nb@.to_set().contains(nb@[1]));
        assert(nb@.to_set().contains(nb@[2]));
        assert(has_edge(s0.graph@, v, nb@[0]));
        assert(has_edge(s0.graph@, v, nb@[1]));
        assert(has_edge(s0.graph@, v, nb@[2]));
    }
    let a = nb[0];
    let b = nb[1];
    let c = nb[2];
    let ghost g = s0.graph@;
    proof {
        assert(nbrs(g, v) =~= set![a, b, c]) by {
            assert forall|w: Vx| nbrs(g, v).contains(w) implies w == a || w == b || w == c by {
                assert(nb@.to_set().contains(w));
                let i = choose|i: int| 0 <= i < nb@.len() && nb@[i] == w;
            }
        }
    }
    if state.graph.get_edge(a, b) {
        return Some(());
    }
    if state.graph.get_edge(b, c) {
        return Some(());
    }
    if state.graph.get_edge(a, c) {
        return Some(());
    }
    let mut new_edges: Vec<Edge> = Vec::new();
    edges_to_neighbours(&state.graph, a, b, &mut new_edges, Ghost(d0));
    edges_to_neighbours(&state.graph, b, c, &mut new_edges, Ghost(d0));
    edges_to_neighbours(&state.graph, c, a, &mut new_edges, Ghost(d0));
    let ghost ne0 = new_edges@;
    new_edges.push((a, b));
    new_edges.push((b, c));
    proof {
        assert forall|x: Vx, y: Vx| #[trigger] lists_edge(new_edges@, x, y) <==> deg3_pair(g, a, b, c, x, y) by {
            assert forall|e: Edge| #[trigger] new_edges@.contains(e) <==> (ne0.contains(e) || e == (a, b) || e == (b, c)) by {
                crate::graph::lemma_push_contains(ne0, (a, b), e);
                crate::graph::lemma_push_contains(ne0.push((a, b)), (b, c), e);
            }
            if lists_edge(new_edges@, x, y) {
                let i = choose|i: int| 0 <= i < new_edges@.len() && (new_edges@[i] == (x, y) || new_edges@[i] == (y, x));
                assert(new_edges@.contains(new_edges@[i]));
            }
            if deg3_pair(g, a, b, c, x, y) {
                let e: Edge = if new_edges@.contains((x, y)) { (x, y) } else { (y, x) };
                assert(new_edges@.contains(e));
                let i = choose|i: int| 0 <= i < new_edges@.len() && new_edges@[i] == e;
            }
        }
    }
    state.shallow_clear_constraints(a);
    state.shallow_clear_constraints(b);
    state.shallow_clear_constraints(c);
    state.shallow_clear_constraints(v);
    let ghost s1 = *state;
    proof {
        assert(fingers_cleared(&s1, set![v, a, b, c]));
        assert forall|i: int| 0 <= i < new_edges@.len() implies (#[trigger] new_edges@[i]).0 != new_edges@[i].1
            && d0.contains(new_edges@[i].0) && d0.contains(new_edges@[i].1) && new_edges@[i].0 < n && new_edges@[i].1 < n by {
        }
    }
    let mut k: usize = 0;
    while k < new_edges.len()
        invariant
            state.wf(),
            state.graph.spec_n() == n,
            n == s0.graph.spec_n(),
            k <= new_edges@.len(),
            forall|i: int| 0 <= i < new_edges@.len() ==> (#[trigger] new_edges@[i]).0 != new_edges@[i].1
                && d0.contains(new_edges@[i].0) && d0.contains(new_edges@[i].1) && new_edges@[i].0 < n && new_edges@[i].1 < n,
            state.graph@.dom().subset_of(d0),
            state.solution == s0.solution,
            state.upper_bound == s0.upper_bound,
            state.dirty@.len() == s0.dirty@.len(),
            state.constraints_vec@.len() == s0.constraints_vec@.len(),
            state.cleanup_funcs == s0.cleanup_funcs,
            state.fingertable == s1.fingertable,
            g == s0.graph@,
            forall|x: Vx, y: Vx| #[trigger] has_edge(state.graph@, x, y) <==> (has_edge(g, x, y) || lists_edge(new_edges@.take(k as int), x, y)),
        decreases new_edges@.len() - k,
    {
        let (x, y) = new_edges[k];
        let ghost gb = state.graph@;
        state.add_edge(x, y);
        proof {
            lemma_with_edge_edges(gb, x, y);
            assert(new_edges@.take(k + 1) == new_edges@.take(k as int).push((x, y)));
            assert forall|p: Vx, q: Vx| #[trigger] has_edge(state.graph@, p, q) <==> (has_edge(g, p, q) || lists_edge(new_edges@.take(k + 1), p, q)) by {
                let t0 = new_edges@.take(k as int);
                let t1 = new_edges@.take(k + 1);
                assert(has_edge(gb, p, q) <==> (has_edge(g, p, q) || lists_edge(t0, p, q)));
                if lists_edge(t1, p, q) && !(p == x && q == y) && !(p == y && q == x) {
                    let i = choose|i: int| 0 <= i < t1.len() && (t1[i] == (p, q) || t1[i] == (q, p));
                    assert(t0[i] == t1[i]);
                }
                if lists_edge(t0, p, q) {
                    let i = choose|i: int| 0 <= i < t0.len() && (t0[i] == (p, q) || t0[i] == (q, p));
                    assert(t1[i] == t0[i]);
                }
                if (p == x && q == y) || (p == y && q == x) {
                    assert(t1[k as int] == (x, y));
                }
            }
        }
        k = k + 1;
    }
    proof {
        assert(new_edges@.take(k as int) == new_edges@);
    }
    let ghost s2 = *state;
    state.remove_vertex(v);
    state.cleanup_funcs.push(Cleanup::Deg3 { v, a, b, c });
    proof {
        s2.graph.lemma_simple();
        lemma_without_vertex_edges(s2.graph@, n as nat, v);
        assert(deg3_fold(&s0, state, v, a, b, c));
        assert(fingers_cleared(state, set![v, a, b, c]));
        assert(!state.graph@.dom().contains(v));
        assert(state.graph@.dom().subset_of(d0));
        assert(state.solution@.subrange(0, s0.solution@.len() as int) =~= s0.solution@);
        assert(state.graph@.dom() != d0);
    }
    Some(())
}

impl Deg3 {
    /// A copy of the rule with its data.
    pub fn duplicate(&self) -> (r: Deg3)
        ensures
            forall|n: nat| self.inv(n) ==> r.inv(n),
            r.0@ == self.0@,
    {
        let r = Deg3(self.0.duplicate());
        proof {
            assert(r.0@ == self.0@);
        }
        r
    }
}

impl Idea for Deg3 {
    closed spec fn inv(&self, n: nat) -> bool {
        forall|v: Vx| self.0@.contains(v) ==> v < n
    }

    closed spec fn pending(&self, dirty: Set<Vx>) -> bool {
        dirty.len() > 0 || self.0@.len() > 0
    }

    fn new(g: &Graph) -> (r: Self)
        ensures
            r.0@ == Set::<Vx>::empty(),
    {
        Deg3(IdSet::empty())
    }

    fn priority(&self, state: &State, dirty: &IdSet) -> (r: usize)
        ensures
            r == (if self.pending(dirty@) { 4usize } else { 0 }),
    {
        if dirty.len() == 0 && self.0.len() == 0 {
            return 0;
        }
        4
    }

    fn apply(&mut self, state: &mut State, dirty: &IdSet) -> (r: Option<()>)
        ensures
            r is Some ==> progressed(old(state), final(state)) || (unchanged(old(state), final(state))
                && !final(self).pending(Set::empty())),
            r is Some ==> exists|k: nat| deg3_steps(*old(state), *final(state), k),
            r is Some ==> forall|y: Vx| old(self).0@.contains(y) || dirty@.contains(y)
                ==> #[trigger] deg3_seen(*old(state), *final(state), y),
            r is Some,
    {
        let n = state.graph.n();
        let ds = dirty.elements();
        let mut k: usize = 0;
        while k < ds.len()
            invariant
                k <= ds@.len(),
                *state == *old(state),
                n == state.graph.spec_n(),
                ds@.to_set() == dirty@,
                forall|v: Vx| dirty@.contains(v) ==> v < n,
                forall|v: Vx| self.0@.contains(v) ==> v < n,
                forall|v: Vx| old(self).0@.contains(v) ==> self.0@.contains(v),
                forall|j: int| 0 <= j < k ==> self.0@.contains(#[trigger] ds@[j]),
            decreases ds@.len() - k,
        {
            proof {
                assert(ds@.to_set().contains(ds@[k as int]));
            }
            let ghost sb = self.0@;
            self.0.insert(ds[k]);
            proof {
                assert forall|v: Vx| self.0@.contains(v) implies v < n by {
                    if v != ds@[k as int] {
                        assert(sb.contains(v));
                    }
                }
            }
            k = k + 1;
        }
        let ghost s0 = *state;
        let ghost mut progress = false;
        let ghost mut done: Set<Vx> = Set::empty();
        proof {
            lemma_reduced_refl(state);
            assert(deg3_steps(s0, *state, 0));
            assert forall|y: Vx| old(self).0@.contains(y) || dirty@.contains(y) implies self.0@.contains(y) by {
                if dirty@.contains(y) {
                    assert(ds@.to_set().contains(y));
                    let j = choose|j: int| 0 <= j < ds@.len() && ds@[j] == y;
                    assert(self.0@.contains(ds@[j]));
                }
            }
        }
        loop
            invariant
                state.wf(),
                s0.wf(),
                n == state.graph.spec_n(),
                n == s0.graph.spec_n(),
                forall|v: Vx| self.0@.contains(v) ==> v < n,
                reduced(&s0, state),
                s0 == *old(state),
                progress ==> progressed(&s0, state),
                !progress ==> *state == s0,
                exists|k: nat| deg3_steps(s0, *state, k),
                forall|y: Vx| old(self).0@.contains(y) || dirty@.contains(y) ==> self.0@.contains(y) || done.contains(y),
                forall|y: Vx| done.contains(y) ==> #[trigger] deg3_seen(s0, *state, y),
            decreases self.0@.len(),
        {
            proof {
                lemma_bounded_set_len(self.0@, n);
            }
            let x = match self.0.some_element() {
                None => {
                    proof {
                        if !progress {
                            lemma_reduced_refl(&s0);
                        }
                        assert(self.0@.len() == 0);
                        let k = choose|k: nat| deg3_steps(s0, *state, k);
                        crate::sound::lemma_deg3_steps_within(s0, *state, k);
                        crate::sound::lemma_within_from_graph(&s0, state);
                    }
                    return Some(());
                },
                Some(x) => x,
            };
            let ghost sb = self.0@;
            self.0.remove(x);
            proof {
                assert forall|v: Vx| self.0@.contains(v) implies v < n by {
                    assert(sb.contains(v));
                }
                done = done.insert(x);
            }
            if state.graph.get_degree(x) == 3 {
                proof {
                    if !state.graph@.dom().contains(x) {
                        assert(nbrs(state.graph@, x) =~= Set::<Vx>::empty());
                    }
                }
                let ghost before = *state;
                let _ = apply_deg3(state, x);
                proof {
                    let k = choose|k: nat| deg3_steps(s0, before, k);
                    if *state != before {
                        lemma_reduced_trans(&s0, &before, state);
                        progress = true;
                        let (a, b, c) = choose|a: Vx, b: Vx, c: Vx| #[trigger] deg3_fold(&before, state, x, a, b, c);
                        assert(deg3_steps(s0, *state, k + 1));
                        assert forall|y: Vx| done.contains(y) implies #[trigger] deg3_seen(s0, *state, y) by {
                            if y == x {
                                assert(deg3_steps(before, before, 0));
                                lemma_deg3_steps_push(before, before, 0, *state, x, a, b, c);
                                assert(deg3_steps(*state, *state, 0));
                                assert(deg3_fold(&before, state, x, a, b, c) && deg3_steps(*state, *state, 0));
                                assert(deg3_steps(s0, before, k) && deg3_steps(before, *state, 1));
                            } else {
                                lemma_deg3_seen_push(s0, before, *state, y, x, a, b, c);
                            }
                        }
                    } else {
                        assert(deg3_steps(*state, *state, 0));
                        assert(deg3_joined(state.graph@, x));
                        assert(deg3_steps(s0, *state, k) && deg3_steps(*state, *state, 0));
                        assert(deg3_seen(s0, *state, x));
                    }
                }
            } else {
                proof {
                    let k = choose|k: nat| deg3_steps(s0, *state, k);
                    assert(deg3_steps(*state, *state, 0));
                    assert(deg3_steps(s0, *state, k) && deg3_steps(*state, *state, 0));
                    assert(deg3_seen(s0, *state, x));
                }
            }
        }
    }
}

} // verus!
