//! Branching on a vertex of maximum degree: either its mirrors join the
//! solution, or its neighbours do.

use vstd::prelude::*;
use vstd::set_lib::lemma_set_subset_finite;
use crate::idset::IdSet;
use crate::graph::{Vx, Graph, nbrs, has_edge, neighbourhood, without_set, simple_graph, lemma_to_set_push, lemma_bounded_set_len};
use crate::state::{is_vertex_cover, cover_within, held, fingers, lemma_takes_set_same, takes_set, lemma_takes_set, lemma_takes_set_new_constraint, State, reduced, progressed, state_eq, lemma_reduced_trans, lemma_reduced_refl, cover_safe, from_graph,
    lemma_cover_safe_same, lemma_cover_safe_trans, lemma_from_graph_extend};
use crate::sound::{keeps_sound, within, lemma_safe_step, lemma_copy_views, lemma_keeps_sound_trans, lemma_within_trans,
    cleanups_eq};

verus! {

/// Any two distinct vertices of `s` are joined by an edge.
pub open spec fn is_clique(g: Map<Vx, Set<Vx>>, s: Set<Vx>) -> bool {
    forall|a: Vx, b: Vx| s.contains(a) && s.contains(b) && a != b ==> has_edge(g, a, b)
}

/// `u` is a mirror of `v`: the neighbours of `v` that are not neighbours
/// of `u` form a clique.
pub open spec fn mirror_of(g: Map<Vx, Set<Vx>>, v: Vx, u: Vx) -> bool {
    is_clique(g, nbrs(g, v).difference(nbrs(g, u)))
}

/// `M[v]`: `v` together with its mirrors, the vertices `u` at distance
/// two from `v` for which the neighbours of `v` outside `N(u)` form a
/// clique.
pub open spec fn mirrors(g: Map<Vx, Set<Vx>>, v: Vx) -> Set<Vx> {
    Set::new(|u: Vx| neighbourhood(g, nbrs(g, v)).contains(u) && !nbrs(g, v).contains(u) && mirror_of(g, v, u)).insert(v)
}

/// Branching on `v` loses no minimum: each vertex cover `c` of `g`
/// holds `v` and all its mirrors, or gives a cover no larger that holds
/// every neighbour of `v`.
pub proof fn law_mirror_branch(g: Map<Vx, Set<Vx>>, n: nat, v: Vx, c: Set<Vx>)
    requires
        simple_graph(g, n),
        g.dom().contains(v),
        is_vertex_cover(g, c),
        c.finite(),
    ensures
        mirrors(g, v).subset_of(c) || exists|c2: Set<Vx>| #[trigger] is_vertex_cover(g, c2) && c2.finite()
            && c2.len() <= c.len() && nbrs(g, v).subset_of(c2),
{
    assert forall|t: Vx, q: Vx| !c.contains(t) && #[trigger] nbrs(g, t).contains(q) implies c.contains(q) by {
        assert(has_edge(g, t, q));
    }
    if !c.contains(v) {
        assert(nbrs(g, v).subset_of(c));
    } else if !mirrors(g, v).subset_of(c) {
        let u = choose|u: Vx| mirrors(g, v).contains(u) && !c.contains(u);
        assert(u != v);
        assert(mirror_of(g, v, u));
        let k = nbrs(g, v).difference(nbrs(g, u));
        if !nbrs(g, v).subset_of(c) {
            let x = choose|x: Vx| nbrs(g, v).contains(x) && !c.contains(x);
            assert(k.contains(x)) by {
                if nbrs(g, u).contains(x) {
                    assert(c.contains(x));
                }
            }
            assert(x != v) by {
                assert(!g[v].contains(v));
            }
            let c2 = c.remove(v).insert(x);
            assert forall|p: Vx, q: Vx| #[trigger] has_edge(g, p, q) implies c2.contains(p) || c2.contains(q) by {
                if p == v {
                    assert(nbrs(g, v).contains(q));
                    if q != x {
                        if !c.contains(q) {
                            assert(k.contains(q)) by {
                                if nbrs(g, u).contains(q) {
                                    assert(c.contains(q));
                                }
                            }
                            assert(has_edge(g, x, q));
                        }
                        assert(q != v) by {
                            assert(!g[v].contains(v));
                        }
                    }
                } else if q == v {
                    assert(has_edge(g, q, p));
                    assert(nbrs(g, v).contains(p));
                    if p != x {
                        if !c.contains(p) {
                            assert(k.contains(p)) by {
                                if nbrs(g, u).contains(p) {
                                    assert(c.contains(p));
                                }
                            }
                            assert(has_edge(g, x, p));
                        }
                    }
                }
            }
            assert(is_vertex_cover(g, c2));
            assert(c2.len() == c.len());
            assert forall|y: Vx| nbrs(g, v).contains(y) implies c2.contains(y) by {
                if y != x && !c.contains(y) {
                    assert(k.contains(y)) by {
                        if nbrs(g, u).contains(y) {
                            assert(c.contains(y));
                        }
                    }
                    assert(has_edge(g, x, y));
                }
                if y != x {
                    assert(y != v) by {
                        assert(!g[v].contains(v));
                    }
                }
            }
        }
    }
}

/// A cover of `g` that holds `s` leaves, less the vertices of `s`, a
/// cover of `g` without `s`.
pub proof fn lemma_cover_without(g: Map<Vx, Set<Vx>>, s: Set<Vx>, c: Set<Vx>)
    requires
        is_vertex_cover(g, c),
        c.finite(),
        s.subset_of(c),
    ensures
        is_vertex_cover(without_set(g, s), c.difference(s)),
        c.difference(s).len() + s.len() == c.len(),
{
    assert forall|x: Vx, y: Vx| #[trigger] has_edge(without_set(g, s), x, y) implies c.difference(s).contains(x) || c.difference(s).contains(y) by {
        assert(g[x].difference(s).contains(y));
        assert(has_edge(g, x, y));
    }
    vstd::set_lib::lemma_set_difference_len(c, s);
    assert(c.intersect(s) =~= s);
    lemma_set_subset_finite(c, s);
}

/// One of the two branches on `v` keeps the minimum: where `g` has a
/// cover of at most `k` vertices, `g` without `v` and its mirrors has one
/// of at most `k` less their number, or `g` without the neighbours of `v`
/// has one of at most `k` less theirs.
pub proof fn law_branch_keeps_min(g: Map<Vx, Set<Vx>>, n: nat, v: Vx, k: int)
    requires
        simple_graph(g, n),
        g.dom().contains(v),
        cover_within(g, k),
    ensures
        cover_within(without_set(g, mirrors(g, v)), k - mirrors(g, v).len())
            || cover_within(without_set(g, nbrs(g, v)), k - nbrs(g, v).len()),
{
    let c = choose|c: Set<Vx>| #[trigger] is_vertex_cover(g, c) && c.finite() && c.len() <= k;
    law_mirror_branch(g, n, v, c);
    if mirrors(g, v).subset_of(c) {
        lemma_cover_without(g, mirrors(g, v), c);
    } else {
        let c2 = choose|c2: Set<Vx>| #[trigger] is_vertex_cover(g, c2) && c2.finite()
            && c2.len() <= c.len() && nbrs(g, v).subset_of(c2);
        lemma_cover_without(g, nbrs(g, v), c2);
    }
}

/// The number of entries of `sol` that belong to `s`.
pub open spec fn count_in(sol: Seq<Vx>, s: Set<Vx>) -> nat
    decreases sol.len(),
{
    if sol.len() == 0 {
        0
    } else {
        count_in(sol.drop_last(), s) + if s.contains(sol.last()) { 1nat } else { 0nat }
    }
}

proof fn lemma_nbhd_push(g: Map<Vx, Set<Vx>>, pre: Seq<Vx>, u: Vx, before: Seq<Vx>, nu: Seq<Vx>)
    requires
        before.to_set() == neighbourhood(g, pre.to_set()),
        nu.to_set() == nbrs(g, u),
    ensures
        (before + nu).to_set() == neighbourhood(g, pre.push(u).to_set()),
{
    let c = before + nu;
    lemma_to_set_push(pre, u);
    assert forall|w: Vx| c.to_set().contains(w) implies neighbourhood(g, pre.push(u).to_set()).contains(w) by {
        let k = choose|k: int| 0 <= k < c.len() && c[k] == w;
        if k < before.len() {
            assert(before[k] == w);
            assert(before.to_set().contains(w));
            let y = choose|y: Vx| pre.to_set().contains(y) && has_edge(g, y, w);
            assert(pre.push(u).to_set().contains(y));
        } else {
            assert(nu[k - before.len()] == w);
            assert(nu.to_set().contains(w));
            assert(has_edge(g, u, w));
            assert(pre.push(u).to_set().contains(u));
        }
    }
    assert forall|w: Vx| neighbourhood(g, pre.push(u).to_set()).contains(w) implies c.to_set().contains(w) by {
        let y = choose|y: Vx| pre.push(u).to_set().contains(y) && has_edge(g, y, w);
        if y == u {
            assert(nbrs(g, u).contains(w));
            assert(nu.to_set().contains(w));
            let k = choose|k: int| 0 <= k < nu.len() && nu[k] == w;
            assert(c[before.len() + k] == w);
        } else {
            assert(pre.to_set().contains(y));
            assert(neighbourhood(g, pre.to_set()).contains(w));
            assert(before.to_set().contains(w));
            let k = choose|k: int| 0 <= k < before.len() && before[k] == w;
            assert(c[k] == w);
        }
    }
    assert(c.to_set() =~= neighbourhood(g, pre.push(u).to_set()));
}

/// A vertex of maximum degree.
pub fn max_degree(g: &Graph) -> (r: Vx)
    requires
        g.wf(),
        g@.dom() != Set::<Vx>::empty(),
    ensures
        g@.dom().contains(r),
        forall|v: Vx| g@.dom().contains(v) ==> nbrs(g@, v).len() <= nbrs(g@, r).len(),
{
    let vs = g.vertices();
    proof {
        if vs@.len() == 0 {
            assert(vs@.to_set() =~= Set::<Vx>::empty());
        }
        assert(vs@.to_set().contains(vs@[0]));
        g.lemma_simple();
    }
    let mut best = vs[0];
    let mut i: usize = 1;
    while i < vs.len()
        invariant
            g.wf(),
            1 <= i <= vs@.len(),
            vs@.to_set() == g@.dom(),
            g@.dom().contains(best),
            forall|j: int| 0 <= j < i ==> nbrs(g@, #[trigger] vs@[j]).len() <= nbrs(g@, best).len(),
        decreases vs@.len() - i,
    {
        let v = vs[i];
        proof {
            assert(vs@.to_set().contains(v));
            g.lemma_simple();
        }
        if g.get_degree(v) >= g.get_degree(best) {
            best = v;
        }
        i = i + 1;
    }
    proof {
        assert forall|v: Vx| g@.dom().contains(v) implies nbrs(g@, v).len() <= nbrs(g@, best).len() by {
            assert(vs@.to_set().contains(v));
            let j = choose|j: int| 0 <= j < vs@.len() && vs@[j] == v;
        }
    }
    best
}

/// Whether `u` is a mirror of the vertex with neighbours `n_v`.
fn is_mirror(g: &Graph, u: Vx, n_v: &IdSet) -> (r: bool)
    requires
        g.wf(),
        g@.dom().contains(u),
    ensures
        r == is_clique(g@, n_v@.difference(g@[u])),
{
    let nu = g.neighbours_hashset(u).unwrap();
    let nv = n_v.elements();
    let mut induced: Vec<Vx> = Vec::new();
    let mut i: usize = 0;
    while i < nv.len()
        invariant
            g.wf(),
            g@.dom().contains(u),
            nu@ == g@[u],
            i <= nv@.len(),
            nv@.to_set() == n_v@,
            induced@.to_set() == nv@.subrange(0, i as int).to_set().difference(g@[u]),
        decreases nv@.len() - i,
    {
        let w = nv[i];
        proof {
            assert(nv@.subrange(0, i + 1) == nv@.subrange(0, i as int).push(w));
            lemma_to_set_push(nv@.subrange(0, i as int), w);
            lemma_to_set_push(induced@, w);
        }
        if !nu.contains(w) {
            induced.push(w);
        }
        proof {
            assert(induced@.to_set() =~= nv@.subrange(0, i + 1).to_set().difference(g@[u]));
        }
        i = i + 1;
    }
    proof {
        assert(nv@.subrange(0, i as int) == nv@);
    }
    let ghost ind = induced@.to_set();
    proof {
        assert(ind =~= n_v@.difference(g@[u]));
    }
    let mut a: usize = 0;
    while a < induced.len()
        invariant
            g.wf(),
            a <= induced@.len(),
            ind == induced@.to_set(),
            ind == n_v@.difference(g@[u]),
            forall|x: int, y: int| 0 <= x < a && 0 <= y < induced@.len() && induced@[x] != induced@[y] ==> has_edge(g@, induced@[x], induced@[y]),
        decreases induced@.len() - a,
    {
        let mut b: usize = 0;
        while b < induced.len()
            invariant
                g.wf(),
                a < induced@.len(),
                b <= induced@.len(),
                ind == induced@.to_set(),
                ind == n_v@.difference(g@[u]),
                forall|y: int| 0 <= y < b && induced@[a as int] != induced@[y] ==> has_edge(g@, induced@[a as int], induced@[y]),
            decreases induced@.len() - b,
        {
            if !(induced[b] == induced[a] || g.get_edge(induced[b], induced[a])) {
                proof {
                    g.lemma_simple();
                    assert(ind.contains(induced@[a as int]) && ind.contains(induced@[b as int]));
                    if has_edge(g@, induced@[a as int], induced@[b as int]) {
                        assert(g@[induced@[a as int]].contains(induced@[b as int]));
                    }
                }
                return false;
            }
            proof {
                g.lemma_simple();
                if induced@[b as int] != induced@[a as int] {
                    assert(g@[induced@[b as int]].contains(induced@[a as int]));
                }
            }
            b = b + 1;
        }
        a = a + 1;
    }
    proof {
        assert forall|x: Vx, y: Vx| ind.contains(x) && ind.contains(y) && x != y implies has_edge(g@, x, y) by {
            let i = choose|i: int| 0 <= i < induced@.len() && induced@[i] == x;
            let j = choose|j: int| 0 <= j < induced@.len() && induced@[j] == y;
        }
    }
    true
}

/// The vertex `v` and its mirrors.
fn find_mirrors(g: &Graph, v: Vx) -> (r: IdSet)
    requires
        g.wf(),
        g@.dom().contains(v),
    ensures
        r@ == mirrors(g@, v),
        forall|u: Vx| r@.contains(u) ==> g@.dom().contains(u),
{
    let n_v = g.neighbours_hashset(v).unwrap();
    let nv = n_v.elements();
    let mut candidates: Vec<Vx> = Vec::new();
    let mut i: usize = 0;
    proof {
        g.lemma_simple();
    }
    while i < nv.len()
        invariant
            g.wf(),
            simple_graph(g@, g.spec_n()),
            g@.dom().contains(v),
            n_v@ == g@[v],
            i <= nv@.len(),
            nv@.to_set() == n_v@,
            candidates@.to_set() == neighbourhood(g@, nv@.subrange(0, i as int).to_set()),
        decreases nv@.len() - i,
    {
        let u = nv[i];
        let nu = g.neighbours(u);
        let ghost before = candidates@;
        let mut j: usize = 0;
        while j < nu.len()
            invariant
                j <= nu@.len(),
                candidates@ == before + nu@.subrange(0, j as int),
            decreases nu@.len() - j,
        {
            candidates.push(nu[j]);
            proof {
                assert(candidates@ =~= before + nu@.subrange(0, j + 1));
            }
            j = j + 1;
        }
        proof {
            assert(nu@.subrange(0, j as int) == nu@);
            assert(nv@.subrange(0, i + 1) == nv@.subrange(0, i as int).push(u));
            lemma_nbhd_push(g@, nv@.subrange(0, i as int), u, before, nu@);
            assert(candidates@.to_set() =~= neighbourhood(g@, nv@.subrange(0, i + 1).to_set()));
        }
        i = i + 1;
    }
    proof {
        assert(nv@.subrange(0, i as int) == nv@);
    }
    let mut result = IdSet::empty();
    let mut k: usize = 0;
    while k < candidates.len()
        invariant
            g.wf(),
            simple_graph(g@, g.spec_n()),
            g@.dom().contains(v),
            n_v@ == g@[v],
            k <= candidates@.len(),
            candidates@.to_set() == neighbourhood(g@, n_v@),
            result@ == Set::new(|u: Vx| candidates@.subrange(0, k as int).to_set().contains(u) && !n_v@.contains(u) && mirror_of(g@, v, u)),
        decreases candidates@.len() - k,
    {
        let u = candidates[k];
        proof {
            assert(candidates@.to_set().contains(u));
            let y = choose|y: Vx| n_v@.contains(y) && has_edge(g@, y, u);
            assert(g@.dom().contains(u));
            assert(candidates@.subrange(0, k + 1) == candidates@.subrange(0, k as int).push(u));
            lemma_to_set_push(candidates@.subrange(0, k as int), u);
        }
        if !n_v.contains(u) && is_mirror(g, u, n_v) {
            result.insert(u);
        }
        proof {
            assert(nbrs(g@, u) == g@[u]);
            assert(result@ =~= Set::new(|w: Vx| candidates@.subrange(0, k + 1).to_set().contains(w) && !n_v@.contains(w) && mirror_of(g@, v, w)));
        }
        k = k + 1;
    }
    result.insert(v);
    proof {
        assert(candidates@.subrange(0, k as int) == candidates@);
        assert(result@ =~= mirrors(g@, v));
        assert forall|u: Vx| result@.contains(u) implies g@.dom().contains(u) by {
            if u != v {
                let y = choose|y: Vx| nbrs(g@, v).contains(y) && has_edge(g@, y, u);
            }
        }
    }
    result
}

/// The number of entries of `sol` in `s`, as the budget loop counts them;
/// `None` where the count exceeds `start`.
fn budget(sol: &Vec<Vx>, s: &IdSet, start: usize) -> (r: Option<usize>)
    ensures
        r is Some <==> count_in(sol@, s@) <= start,
        r matches Some(d) ==> d == start - count_in(sol@, s@),
{
    let mut diff = start;
    let mut i: usize = 0;
    while i < sol.len()
        invariant
            i <= sol@.len(),
            count_in(sol@.subrange(0, i as int), s@) <= start,
            diff == start - count_in(sol@.subrange(0, i as int), s@),
        decreases sol@.len() - i,
    {
        proof {
            assert(sol@.subrange(0, i + 1).drop_last() == sol@.subrange(0, i as int));
        }
        if s.contains(sol[i]) {
            if diff == 0 {
                proof {
                    lemma_count_prefix(sol@, s@, i + 1, sol@.len() as int);
                    assert(sol@.subrange(0, sol@.len() as int) == sol@);
                }
                return None;
            }
            diff = diff - 1;
        }
        i = i + 1;
    }
    proof {
        assert(sol@.subrange(0, i as int) == sol@);
    }
    Some(diff)
}

proof fn lemma_count_prefix(sol: Seq<Vx>, s: Set<Vx>, a: int, b: int)
    requires
        0 <= a <= b <= sol.len(),
    ensures
        count_in(sol.subrange(0, a), s) <= count_in(sol.subrange(0, b), s),
    decreases b - a,
{
    if a < b {
        lemma_count_prefix(sol, s, a, b - 1);
        assert(sol.subrange(0, b).drop_last() == sol.subrange(0, b - 1));
    }
}

/// The branch that puts `v` and its mirrors into the solution of `s` is
/// open: fewer of the neighbours of `v` than all are in the solution, and
/// the solution takes the mirrors, with no more of them among the
/// neighbours than the budget of the constraint on the neighbourhood.
pub open spec fn left_fits(s: &State, v: Vx) -> bool {
    let nb = nbrs(s.graph@, v);
    let m = mirrors(s.graph@, v);
    &&& count_in(s.solution@, nb) < nb.len()
    &&& takes_set(s, m)
    &&& m.intersect(nb).len() <= nb.len() - 1 - count_in(s.solution@, nb)
}

/// The branch in which `v` and its mirrors join the solution; the
/// neighbourhood of `v` becomes a packing constraint.
fn branch_left(s: State, v: Vx) -> (r: Option<State>)
    requires
        s.wf(),
        s.graph@.dom().contains(v),
    ensures
        r matches Some(t) ==> {
            &&& reduced(&s, &t)
            &&& t.graph@ == without_set(s.graph@, mirrors(s.graph@, v))
            &&& t.solution@.subrange(s.solution@.len() as int, t.solution@.len() as int).to_set() == mirrors(s.graph@, v)
            &&& t.solution@.subrange(s.solution@.len() as int, t.solution@.len() as int).no_duplicates()
            &&& t.solution@.len() > s.solution@.len()
            &&& forall|j: int| 0 <= j < s.constraints_vec@.len() ==> (#[trigger] t.constraints_vec@[j])@ == s.constraints_vec@[j]@
            &&& t.constraints_vec@.len() == s.constraints_vec@.len() + 1
            &&& t.constraints_vec@[s.constraints_vec@.len() as int]@ == nbrs(s.graph@, v)
            &&& count_in(s.solution@, nbrs(s.graph@, v)) < nbrs(s.graph@, v).len()
            &&& t.cleanup_funcs@ == s.cleanup_funcs@
            &&& cover_safe(&s, &t)
            &&& from_graph(&s, &t)
        },
        r is Some <==> left_fits(&s, v),
{
    let mut s = s;
    let ghost s0 = s;
    let mirrors = find_mirrors(&s.graph, v);
    let neighbours = s.graph.neighbours_hashset(v).unwrap().duplicate();
    proof {
        s.graph.lemma_simple();
    }
    let deg = neighbours.len();
    let diff = match budget(&s.solution, &neighbours, deg - 1) {
        Some(d) => d,
        None => {
            return None;
        },
    };
    proof {
        assert forall|x: Vx| neighbours@.contains(x) implies x < s.graph.spec_n() by {
            assert(s.graph@[v].contains(x));
        }
    }
    s.add_constraint(neighbours, diff);
    let ghost s1 = s;
    proof {
        assert(s.solution@.subrange(0, s0.solution@.len() as int) =~= s0.solution@);
        assert(reduced(&s0, &s1));
    }
    let ms = mirrors.elements();
    proof {
        assert forall|k: int| 0 <= k < ms@.len() implies ms@[k] < s.graph.spec_n() by {
            assert(ms@.to_set().contains(ms@[k]));
            assert(s0.graph@.dom().contains(ms@[k]));
        }
    }
    proof {
        let m = crate::branch::mirrors(s0.graph@, v);
        assert(ms@.to_set() == m);
        lemma_takes_set(&s1, ms@);
        assert forall|x: Vx| #[trigger] m.contains(x) implies x < s0.graph.spec_n() by {
            assert(s0.graph@.dom().contains(x));
            s0.graph.lemma_simple();
        }
        lemma_set_subset_finite(s0.graph@.dom(), m);
        lemma_takes_set_new_constraint(&s0, &s1, nbrs(s0.graph@, v), diff, m);
    }
    let r = s.extend_solution(ms);
    if r.is_none() {
        return None;
    }
    proof {
        lemma_reduced_trans(&s0, &s1, &s);
        assert(s.solution@.subrange(s0.solution@.len() as int, s.solution@.len() as int) =~= ms@);
        lemma_cover_safe_same(&s0, &s1);
        lemma_cover_safe_trans(&s0, &s1, &s);
        assert forall|x: Vx| #[trigger] ms@.contains(x) implies s0.graph@.dom().contains(x) by {
            assert(ms@.to_set().contains(x));
        }
        lemma_from_graph_extend(&s0, &s, ms@);
        assert(ms@.contains(v)) by {
            assert(ms@.to_set().contains(v));
        }
        assert(ms@.len() > 0);
        assert forall|j: int| 0 <= j < s0.constraints_vec@.len() implies (#[trigger] s.constraints_vec@[j])@ == s0.constraints_vec@[j]@ by {
            assert(s1.constraints_vec@[j] == s0.constraints_vec@[j]);
        }
    }
    Some(s)
}

/// The neighbours of `w` outside the closed neighbourhood of `v`.
pub open spec fn private_nbrs(g: Map<Vx, Set<Vx>>, v: Vx, w: Vx) -> Set<Vx> {
    nbrs(g, w).filter(|x: Vx| x != v && !has_edge(g, v, x))
}

/// The constraint that the branch on the neighbours of `v` puts on the
/// neighbour `w` is open: `w` has neighbours outside `N[v]`, and fewer
/// than all of them are in the solution of `s`.
pub open spec fn private_fits(s: &State, v: Vx, w: Vx) -> bool {
    &&& private_nbrs(s.graph@, v, w).len() > 0
    &&& count_in(s.solution@, private_nbrs(s.graph@, v, w)) <= private_nbrs(s.graph@, v, w).len() - 1
}

/// The branch that puts the neighbours of `v` into the solution of `s`
/// is open: each neighbour's constraint is, and the solution takes the
/// neighbours.
pub open spec fn right_fits(s: &State, v: Vx) -> bool {
    &&& forall|w: Vx| #[trigger] nbrs(s.graph@, v).contains(w) ==> private_fits(s, v, w)
    &&& takes_set(s, nbrs(s.graph@, v))
}

/// The branch in which the neighbours of `v` join the solution; for each
/// neighbour `w`, the neighbours of `w` outside `N[v]` become a packing
/// constraint. `None` where one of them has no such neighbour.
#[verifier::loop_isolation(false)]
fn branch_right(s: State, v: Vx) -> (r: Option<State>)
    requires
        s.wf(),
        s.graph@.dom().contains(v),
    ensures
        r matches Some(t) ==> {
            &&& reduced(&s, &t)
            &&& t.graph@ == without_set(s.graph@, nbrs(s.graph@, v))
            &&& t.solution@.subrange(s.solution@.len() as int, t.solution@.len() as int).to_set() == nbrs(s.graph@, v)
            &&& t.solution@.subrange(s.solution@.len() as int, t.solution@.len() as int).no_duplicates()
            &&& t.solution@.len() > s.solution@.len()
            &&& forall|j: int| 0 <= j < s.constraints_vec@.len() ==> (#[trigger] t.constraints_vec@[j])@ == s.constraints_vec@[j]@
            &&& t.constraints_vec@.len() == s.constraints_vec@.len() + nbrs(s.graph@, v).len()
            &&& t.cleanup_funcs@ == s.cleanup_funcs@
            &&& cover_safe(&s, &t)
            &&& from_graph(&s, &t)
        },
        r is Some <==> right_fits(&s, v),
{
    let mut s = s;
    let ghost s0 = s;
    let nv = s.graph.neighbours(v);
    proof {
        s.graph.lemma_simple();
        nv@.unique_seq_to_set();
        lemma_reduced_refl(&s);
    }
    let mut i: usize = 0;
    while i < nv.len()
        invariant
            i <= nv@.len(),
            s.wf(),
            s0.wf(),
            reduced(&s0, &s),
            s.graph == s0.graph,
            s.solution == s0.solution,
            s.cleanup_funcs == s0.cleanup_funcs,
            nv@.to_set() == nbrs(s0.graph@, v),
            nv@.no_duplicates(),
            s0.graph@.dom().contains(v),
            s.constraints_vec@.len() == s0.constraints_vec@.len() + i,
            s.upper_bound == s0.upper_bound,
            s0.diff_vec@.len() <= s.diff_vec@.len(),
            forall|j: int| 0 <= j < s0.diff_vec@.len() ==> #[trigger] s.diff_vec@[j] == s0.diff_vec@[j],
            forall|j: int| 0 <= j < s0.constraints_vec@.len() ==> (#[trigger] s.constraints_vec@[j])@ == s0.constraints_vec@[j]@,
            forall|x: Vx| #[trigger] nbrs(s0.graph@, v).contains(x) ==> fingers(&s, x) == fingers(&s0, x),
            forall|j: int| 0 <= j < i ==> private_fits(&s0, v, #[trigger] nv@[j]),
        decreases nv@.len() - i,
    {
        let w = nv[i];
        proof {
            assert(nv@.to_set().contains(w));
            s.graph.lemma_simple();
            assert(s.graph@[v].contains(w));
        }
        let nw = s.graph.neighbours(w);
        let mut private = IdSet::empty();
        let mut k: usize = 0;
        while k < nw.len()
            invariant
                s.wf(),
                k <= nw@.len(),
                nw@.to_set() == nbrs(s.graph@, w),
                forall|x: Vx| private@.contains(x) ==> x < s.graph.spec_n(),
                private@ == nw@.subrange(0, k as int).to_set().filter(|x: Vx| x != v && !has_edge(s.graph@, v, x)),
            decreases nw@.len() - k,
        {
            let x = nw[k];
            proof {
                assert(nw@.to_set().contains(x));
                s.graph.lemma_simple();
                assert(s.graph@[w].contains(x));
            }
            let ghost pp = private@;
            proof {
                assert(nw@.subrange(0, k + 1) == nw@.subrange(0, k as int).push(x));
                crate::graph::lemma_to_set_push(nw@.subrange(0, k as int), x);
            }
            if x != v && !s.graph.get_edge(v, x) {
                private.insert(x);
                proof {
                    assert(private@ == pp.insert(x));
                    assert(s.graph@.dom().contains(x));
                }
            }
            proof {
                assert(private@ =~= nw@.subrange(0, k + 1).to_set().filter(|x: Vx| x != v && !has_edge(s.graph@, v, x)));
            }
            k = k + 1;
        }
        proof {
            assert(nw@.subrange(0, k as int) == nw@);
            assert(private@ =~= private_nbrs(s0.graph@, v, w));
        }
        if private.len() == 0 {
            proof {
                assert(!private_fits(&s0, v, w));
                assert(nbrs(s0.graph@, v).contains(w));
                assert(!right_fits(&s0, v));
            }
            return None;
        }
        let diff = match budget(&s.solution, &private, private.len() - 1) {
            Some(d) => d,
            None => {
                proof {
                    assert(!private_fits(&s0, v, w));
                    assert(nbrs(s0.graph@, v).contains(w));
                    assert(!right_fits(&s0, v));
                }
                return None;
            },
        };
        let ghost prev = s;
        let ghost pv = private@;
        s.add_constraint(private, diff);
        proof {
            assert forall|x: Vx| #[trigger] nbrs(s0.graph@, v).contains(x) implies fingers(&s, x) == fingers(&s0, x) by {
                assert(!pv.contains(x)) by {
                    assert(has_edge(s0.graph@, v, x));
                }
                assert(fingers(&s, x) == fingers(&prev, x));
            }
            assert forall|j: int| 0 <= j < s0.constraints_vec@.len() implies (#[trigger] s.constraints_vec@[j])@ == s0.constraints_vec@[j]@ by {
                assert(s.constraints_vec@[j] == prev.constraints_vec@[j]);
            }
            assert forall|j: int| 0 <= j < i + 1 implies private_fits(&s0, v, #[trigger] nv@[j]) by {
                if j == i {
                    assert(nv@[j] == w);
                }
            }
            assert(s.solution@.subrange(0, prev.solution@.len() as int) =~= prev.solution@);
            assert(reduced(&prev, &s));
            lemma_reduced_trans(&s0, &prev, &s);
        }
        i = i + 1;
    }
    let ghost s1 = s;
    proof {
        assert forall|k: int| 0 <= k < nv@.len() implies nv@[k] < s.graph.spec_n() by {
            assert(nv@.to_set().contains(nv@[k]));
            assert(s.graph@[v].contains(nv@[k]));
        }
    }
    proof {
        lemma_takes_set(&s1, nv@);
        lemma_takes_set_same(&s0, &s1, nv@.to_set());
        assert forall|w: Vx| #[trigger] nbrs(s0.graph@, v).contains(w) implies private_fits(&s0, v, w) by {
            assert(nv@.to_set().contains(w));
            let j = choose|j: int| 0 <= j < nv@.len() && nv@[j] == w;
        }
    }
    let r = s.extend_solution(nv);
    if r.is_none() {
        return None;
    }
    proof {
        lemma_reduced_trans(&s0, &s1, &s);
        assert(s.solution@.subrange(s0.solution@.len() as int, s.solution@.len() as int) =~= nv@);
        lemma_cover_safe_same(&s0, &s1);
        lemma_cover_safe_trans(&s0, &s1, &s);
        assert forall|x: Vx| #[trigger] nv@.contains(x) implies s0.graph@.dom().contains(x) by {
            assert(nv@.to_set().contains(x));
            s0.graph.lemma_simple();
            assert(s0.graph@[v].contains(x));
        }
        lemma_from_graph_extend(&s0, &s, nv@);
        let w = s0.graph@[v].choose();
        assert(s0.graph@[v].contains(w)) by {
            if !s0.graph@[v].contains(w) {
                assert(s0.graph@[v] =~= Set::<Vx>::empty());
            }
        }
        assert(nv@.to_set().contains(w));
        assert(nv@.len() > 0);
    }
    Some(s)
}

/// `gs` are the graphs of the open branches of `s` on `v`, a vertex of
/// maximum degree: first the one with the mirrors of `v` in the solution,
/// then the one with its neighbours, each where it is open.
pub open spec fn branch_graphs(s: &State, v: Vx, gs: Seq<Map<Vx, Set<Vx>>>) -> bool {
    &&& s.graph@.dom().contains(v)
    &&& forall|u: Vx| s.graph@.dom().contains(u) ==> nbrs(s.graph@, u).len() <= nbrs(s.graph@, v).len()
    &&& gs.len() == (if left_fits(s, v) { 1int } else { 0int }) + (if right_fits(s, v) { 1int } else { 0int })
    &&& left_fits(s, v) ==> gs[0] == without_set(s.graph@, mirrors(s.graph@, v))
    &&& right_fits(s, v) ==> gs[gs.len() - 1] == without_set(s.graph@, nbrs(s.graph@, v))
}

/// The graphs of the states `r`.
pub open spec fn graphs_of(r: Seq<State>) -> Seq<Map<Vx, Set<Vx>>> {
    r.map_values(|t: State| t.graph@)
}

/// What the branch on `v` depends on is the same in two states that hold
/// the same.
proof fn lemma_fits_eq(a: &State, b: &State, v: Vx)
    requires
        state_eq(a, b),
    ensures
        right_fits(a, v) == right_fits(b, v),
{
    assert forall|x: Vx| fingers(a, x) == fingers(b, x) by {
        if x < a.fingertable@.len() {
            assert(a.fingertable@[x as int]@ == b.fingertable@[x as int]@);
        }
    }
    let n = nbrs(a.graph@, v);
    assert forall|i: usize| held(a, n, i) == held(b, n, i) by {
        assert(held(a, n, i) =~= held(b, n, i));
    }
    assert(takes_set(a, n) == takes_set(b, n));
}

/// The two branches on a vertex of maximum degree, where they are
/// feasible: one with its mirrors in the solution, one with its
/// neighbours.
pub fn branch(s: State) -> (r: Vec<State>)
    requires
        s.wf(),
        s.graph@.dom() != Set::<Vx>::empty(),
    ensures
        r@.len() <= 2,
        forall|i: int| 0 <= i < r@.len() ==> {
            &&& reduced(&s, #[trigger] &r@[i])
            &&& r@[i].graph@.dom().len() < s.graph@.dom().len()
            &&& keeps_sound(&s, &r@[i])
            &&& within(&s, &r@[i])
            &&& r@[i].solution@.len() > s.solution@.len()
            &&& r@[i].solution@.subrange(s.solution@.len() as int, r@[i].solution@.len() as int).no_duplicates()
            &&& forall|j: int| 0 <= j < s.constraints_vec@.len() ==> (#[trigger] r@[i].constraints_vec@[j])@ == s.constraints_vec@[j]@
        },
        exists|v: Vx| {
            &&& s.graph@.dom().contains(v)
            &&& forall|u: Vx| s.graph@.dom().contains(u) ==> nbrs(s.graph@, u).len() <= nbrs(s.graph@, v).len()
            &&& forall|i: int| 0 <= i < r@.len() ==> {
                ||| (#[trigger] r@[i]).graph@ == without_set(s.graph@, mirrors(s.graph@, v))
                ||| r@[i].graph@ == without_set(s.graph@, nbrs(s.graph@, v))
            }
        },
        exists|v: Vx| #[trigger] branch_graphs(&s, v, graphs_of(r@)),
{
    let v = max_degree(&s.graph);
    let mut branches: Vec<State> = Vec::new();
    let s_clone = s.clone();
    let ghost s0 = s;
    proof {
        s0.graph.lemma_simple();
        lemma_reduced_refl(&s0);
        assert(s_clone.solution@.subrange(0, s0.solution@.len() as int) =~= s0.solution@);
        assert(reduced(&s0, &s_clone));
        assert(mirrors(s0.graph@, v).contains(v));
        assert(cleanups_eq(s_clone.cleanup_funcs@, s0.cleanup_funcs@)) by {
            assert forall|i: int| 0 <= i < s_clone.cleanup_funcs@.len()
                implies crate::cleanup::cleanup_eq(#[trigger] s_clone.cleanup_funcs@[i], s0.cleanup_funcs@[i]) by {
                assert(crate::cleanup::cleanup_eq(s0.cleanup_funcs@[i], s_clone.cleanup_funcs@[i]));
            }
        }
        lemma_copy_views(&s0, &s_clone);
        lemma_fits_eq(&s0, &s_clone, v);
    }
    match branch_left(s, v) {
        Some(s1) => {
            proof {
                let g = s0.graph@;
                let t = s1.graph@;
                assert(!t.dom().contains(v));
                vstd::set_lib::lemma_len_subset(t.dom(), g.dom());
                t.dom().lemma_subset_not_in_lt(g.dom(), v);
                lemma_safe_step(&s0, &s1);
            }
            branches.push(s1);
        },
        None => {},
    }
    match branch_right(s_clone, v) {
        Some(s2) => {
            proof {
                lemma_reduced_trans(&s0, &s_clone, &s2);
                let g = s0.graph@;
                let t = s2.graph@;
                let w = g[v].choose();
                assert(g[v].contains(w)) by {
                    if !g[v].contains(w) {
                        assert(g[v] =~= Set::<Vx>::empty());
                    }
                }
                assert(nbrs(g, v).contains(w));
                assert(!t.dom().contains(w));
                t.dom().lemma_subset_not_in_lt(g.dom(), w);
                lemma_safe_step(&s_clone, &s2);
                lemma_keeps_sound_trans(&s0, &s_clone, &s2);
                lemma_within_trans(&s0, &s_clone, &s2);
            }
            branches.push(s2);
        },
        None => {},
    }
    proof {
        let gs = graphs_of(branches@);
        assert(branch_graphs(&s0, v, gs));
    }
    branches
}

} // verus!
