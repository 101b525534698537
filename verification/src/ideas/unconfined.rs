//! Unconfined vertices: a vertex `v` is unconfined where growing a set
//! around it (each time by the single outside neighbour of a vertex with
//! one neighbour in the set) reaches a vertex with one neighbour in the set
//! and none outside its closed neighbourhood. Some minimum cover holds
//! every unconfined vertex.

use vstd::prelude::*;
use vstd::set_lib::*;
use crate::idset::IdSet;
use crate::graph::{Vx, Graph, nbrs, has_edge, neighbourhood, simple_graph, without_vertex, lemma_to_set_push, lemma_bounded_set_len};
use crate::state::{State, progressed, unchanged, lemma_reduced_refl};
use crate::idea::Idea;
use crate::state::{is_vertex_cover, cover_within};

verus! {

/// The unconfined-vertex rule; its flag says whether the last search
/// found a vertex.
pub struct Unconfined(pub bool);

/// `s` with its neighbours.
pub open spec fn closed_nbhd(g: Map<Vx, Set<Vx>>, s: Set<Vx>) -> Set<Vx> {
    s.union(neighbourhood(g, s))
}

/// `u` ends the search from the set `s`: it lies next to `s`, has exactly
/// one neighbour in `s` and none outside the closed neighbourhood of `s`.
pub open spec fn ends_search(g: Map<Vx, Set<Vx>>, s: Set<Vx>, u: Vx) -> bool {
    &&& closed_nbhd(g, s).contains(u)
    &&& !s.contains(u)
    &&& nbrs(g, u).intersect(s).len() == 1
    &&& nbrs(g, u).subset_of(closed_nbhd(g, s))
}

/// `w` is where the search from `s` goes next: some candidate `u` (next
/// to `s`, with exactly one neighbour in `s`) has `w` as its single
/// neighbour outside the closed neighbourhood of `s`.
pub open spec fn next_of(g: Map<Vx, Set<Vx>>, s: Set<Vx>, w: Vx) -> bool {
    exists|u: Vx| #[trigger] closed_nbhd(g, s).contains(u) && !s.contains(u) && nbrs(g, u).intersect(s).len() == 1
        && nbrs(g, u).difference(closed_nbhd(g, s)) == set![w]
}

/// No vertex ends the search from `s`.
pub open spec fn no_end(g: Map<Vx, Set<Vx>>, s: Set<Vx>) -> bool {
    forall|u: Vx| !#[trigger] ends_search(g, s, u)
}

/// `ws` is a run of the search from `ws[0]`: each later vertex is where
/// the search goes next from the vertices before it, which did not end
/// the search.
pub open spec fn search_path(g: Map<Vx, Set<Vx>>, ws: Seq<Vx>) -> bool {
    forall|k: int| 0 < k < ws.len() ==> next_of(g, ws.take(k).to_set(), #[trigger] ws[k])
        && no_end(g, ws.take(k).to_set())
}

/// `ws` is a run of the search from `v` among the vertices of `g`.
pub open spec fn search_run(g: Map<Vx, Set<Vx>>, v: Vx, ws: Seq<Vx>) -> bool {
    &&& ws.len() > 0
    &&& ws[0] == v
    &&& ws.to_set().subset_of(g.dom())
    &&& search_path(g, ws)
}

/// Some run of the search from `v` ends: `v` is unconfined.
pub open spec fn found_unconfined(g: Map<Vx, Set<Vx>>, v: Vx) -> bool {
    exists|ws: Seq<Vx>, u: Vx| #![trigger search_run(g, v, ws), ends_search(g, ws.to_set(), u)]
        search_run(g, v, ws) && ends_search(g, ws.to_set(), u)
}

/// Some run of the search from `v` gets stuck: `v` is confined.
pub open spec fn found_confined(g: Map<Vx, Set<Vx>>, v: Vx) -> bool {
    exists|ws: Seq<Vx>| #![trigger search_run(g, v, ws), stuck(g, ws.to_set())]
        search_run(g, v, ws) && stuck(g, ws.to_set())
}

/// The search from `s` does not go on past `u`: `u` is no candidate (a
/// vertex next to `s` with exactly one neighbour in `s`), or it has at
/// least two neighbours outside the closed neighbourhood of `s`.
pub open spec fn stuck_at(g: Map<Vx, Set<Vx>>, s: Set<Vx>, u: Vx) -> bool {
    (closed_nbhd(g, s).contains(u) && !s.contains(u) && nbrs(g, u).intersect(s).len() == 1)
        ==> nbrs(g, u).difference(closed_nbhd(g, s)).len() >= 2
}

/// The search from `s` has nowhere to go: no candidate ends it or leads
/// on to a single next vertex.
pub open spec fn stuck(g: Map<Vx, Set<Vx>>, s: Set<Vx>) -> bool {
    forall|u: Vx| #[trigger] stuck_at(g, s, u)
}

/// `d` is a vertex cover of `g` of `m` vertices.
pub open spec fn cover_of_size(g: Map<Vx, Set<Vx>>, d: Set<Vx>, m: nat) -> bool {
    is_vertex_cover(g, d) && d.finite() && d.len() == m
}

/// A candidate `u` next to `s`, with its one neighbour `t` in `s`, can
/// swap with `t` in a cover `d` that misses `s` and holds every neighbour
/// of `u` outside `s`: the result is a cover of the same size.
proof fn lemma_swap_candidate(g: Map<Vx, Set<Vx>>, n: nat, s: Set<Vx>, u: Vx, t: Vx, d: Set<Vx>)
    requires
        simple_graph(g, n),
        is_vertex_cover(g, d),
        d.finite(),
        s.disjoint(d),
        s.contains(t),
        has_edge(g, u, t),
        nbrs(g, u).intersect(s) == set![t],
        forall|q: Vx| #[trigger] nbrs(g, u).contains(q) && q != t ==> d.contains(q),
    ensures
        d.contains(u),
        is_vertex_cover(g, d.remove(u).insert(t)),
        d.remove(u).insert(t).len() == d.len(),
{
    assert(has_edge(g, t, u));
    assert(!d.contains(t));
    assert(u != t) by {
        assert(!g[u].contains(u));
    }
    let d2 = d.remove(u).insert(t);
    assert forall|p: Vx, q: Vx| #[trigger] has_edge(g, p, q) implies d2.contains(p) || d2.contains(q) by {
        if p == u {
            assert(nbrs(g, u).contains(q));
            if q != t {
                assert(d.contains(q));
                assert(q != u) by {
                    assert(!g[u].contains(u));
                }
            }
        } else if q == u {
            assert(has_edge(g, q, p));
            assert(nbrs(g, u).contains(p));
            if p != t {
                assert(d.contains(p));
            }
        }
    }
}

/// On a run of the search from `v` in a graph whose covers of the least
/// size `m` all miss `v`, every such cover misses every vertex of the run.
proof fn lemma_run_misses(g: Map<Vx, Set<Vx>>, n: nat, v: Vx, ws: Seq<Vx>, m: nat, k: int)
    requires
        simple_graph(g, n),
        search_run(g, v, ws),
        1 <= k <= ws.len(),
        forall|d: Set<Vx>| #[trigger] is_vertex_cover(g, d) && d.finite() ==> d.len() >= m,
        forall|d: Set<Vx>| #[trigger] cover_of_size(g, d, m) ==> !d.contains(v),
    ensures
        forall|d: Set<Vx>| #[trigger] cover_of_size(g, d, m) ==> ws.take(k).to_set().disjoint(d),
    decreases k,
{
    if k == 1 {
        assert forall|d: Set<Vx>| #[trigger] cover_of_size(g, d, m) implies ws.take(k).to_set().disjoint(d) by {
            assert(ws.take(1) == seq![v]);
            assert(seq![v].to_set() =~= set![v]) by {
                assert(seq![v] == Seq::<Vx>::empty().push(v));
                lemma_to_set_push(Seq::<Vx>::empty(), v);
                assert(Seq::<Vx>::empty().to_set() =~= Set::<Vx>::empty());
            }
        }
    } else {
        lemma_run_misses(g, n, v, ws, m, k - 1);
        let s = ws.take(k - 1).to_set();
        let w = ws[k - 1];
        assert(next_of(g, ws.take(k - 1).to_set(), ws[k - 1]));
        let u = choose|u: Vx| #[trigger] closed_nbhd(g, s).contains(u) && !s.contains(u) && nbrs(g, u).intersect(s).len() == 1
            && nbrs(g, u).difference(closed_nbhd(g, s)) == set![w];
        assert(ws.take(k) == ws.take(k - 1).push(w));
        lemma_to_set_push(ws.take(k - 1), w);
        assert forall|d: Set<Vx>| #[trigger] cover_of_size(g, d, m) implies ws.take(k).to_set().disjoint(d) by {
            assert(s.disjoint(d));
            if d.contains(w) {
                let y = choose|y: Vx| s.contains(y) && has_edge(g, y, u);
                let t = nbrs(g, u).intersect(s).choose();
                vstd::set_lib::lemma_set_empty_equivalency_len(nbrs(g, u).intersect(s));
                assert(nbrs(g, u).intersect(s).contains(t));
                crate::ideas::deg1::lemma_single(nbrs(g, u).intersect(s), t);
                assert(has_edge(g, u, t));
                assert forall|q: Vx| #[trigger] nbrs(g, u).contains(q) && q != t implies d.contains(q) by {
                    if q == w {
                    } else if !s.contains(q) {
                        assert(!nbrs(g, u).difference(closed_nbhd(g, s)).contains(q));
                        assert(neighbourhood(g, s).contains(q));
                        let y2 = choose|y2: Vx| s.contains(y2) && has_edge(g, y2, q);
                        assert(!d.contains(y2));
                    } else {
                        assert(nbrs(g, u).intersect(s).contains(q));
                    }
                }
                lemma_swap_candidate(g, n, s, u, t, d);
                let d2 = d.remove(u).insert(t);
                assert(cover_of_size(g, d2, m));
                assert(!s.disjoint(d2)) by {
                    assert(s.contains(t) && d2.contains(t));
                }
            }
        }
    }
}

/// Some cover of the least size holds an unconfined vertex: taking it
/// keeps the minimum.
pub proof fn law_unconfined_in_min_cover(g: Map<Vx, Set<Vx>>, n: nat, v: Vx, m: nat, c: Set<Vx>)
    requires
        simple_graph(g, n),
        found_unconfined(g, v),
        cover_of_size(g, c, m),
        forall|d: Set<Vx>| #[trigger] is_vertex_cover(g, d) && d.finite() ==> d.len() >= m,
    ensures
        exists|d: Set<Vx>| #[trigger] cover_of_size(g, d, m) && d.contains(v),
{
    if forall|d: Set<Vx>| #[trigger] cover_of_size(g, d, m) ==> !d.contains(v) {
        let (ws, u) = choose|ws: Seq<Vx>, u: Vx| #![trigger search_run(g, v, ws), ends_search(g, ws.to_set(), u)]
            search_run(g, v, ws) && ends_search(g, ws.to_set(), u);
        lemma_run_misses(g, n, v, ws, m, ws.len() as int);
        assert(ws.take(ws.len() as int) == ws);
        let s = ws.to_set();
        assert(s.disjoint(c));
        let t = nbrs(g, u).intersect(s).choose();
        vstd::set_lib::lemma_set_empty_equivalency_len(nbrs(g, u).intersect(s));
        assert(nbrs(g, u).intersect(s).contains(t));
        crate::ideas::deg1::lemma_single(nbrs(g, u).intersect(s), t);
        assert(has_edge(g, u, t));
        assert forall|q: Vx| #[trigger] nbrs(g, u).contains(q) && q != t implies c.contains(q) by {
            if !s.contains(q) {
                assert(closed_nbhd(g, s).contains(q));
                assert(neighbourhood(g, s).contains(q));
                let y2 = choose|y2: Vx| s.contains(y2) && has_edge(g, y2, q);
                assert(!c.contains(y2));
            } else {
                assert(nbrs(g, u).intersect(s).contains(q));
            }
        }
        lemma_swap_candidate(g, n, s, u, t, c);
        let d2 = c.remove(u).insert(t);
        assert(cover_of_size(g, d2, m));
        assert(d2.contains(t));
        assert(false);
    }
}

/// `m` is the least size of a vertex cover of `g`.
pub open spec fn least_cover_size(g: Map<Vx, Set<Vx>>, m: nat) -> bool {
    &&& exists|c: Set<Vx>| #[trigger] cover_of_size(g, c, m)
    &&& forall|d: Set<Vx>| #[trigger] is_vertex_cover(g, d) && d.finite() ==> d.len() >= m
}

/// A graph with a cover of at most `k` vertices has a cover of least
/// size `m`, at most `k`.
pub proof fn lemma_least_cover(g: Map<Vx, Set<Vx>>, k: int)
    requires
        cover_within(g, k),
    ensures
        exists|m: nat| m <= k && #[trigger] least_cover_size(g, m),
    decreases k,
{
    let c = choose|c: Set<Vx>| #[trigger] is_vertex_cover(g, c) && c.finite() && c.len() <= k;
    if k > 0 && cover_within(g, k - 1) {
        lemma_least_cover(g, k - 1);
    } else {
        assert(cover_of_size(g, c, c.len()));
        assert forall|d: Set<Vx>| #[trigger] is_vertex_cover(g, d) && d.finite() implies d.len() >= c.len() by {
            if d.len() < c.len() {
                assert(k > 0);
                assert(cover_within(g, k - 1));
            }
        }
        assert(least_cover_size(g, c.len()));
    }
}

/// Taking an unconfined vertex keeps the minimum: where `g` has a cover
/// of at most `k` vertices, `g` without `v` has one of at most `k - 1`.
pub proof fn law_unconfined_step_keeps_min(g: Map<Vx, Set<Vx>>, n: nat, v: Vx, k: int)
    requires
        simple_graph(g, n),
        found_unconfined(g, v),
        cover_within(g, k),
    ensures
        cover_within(without_vertex(g, v), k - 1),
{
    lemma_least_cover(g, k);
    let m = choose|m: nat| m <= k && #[trigger] least_cover_size(g, m);
    let c = choose|c: Set<Vx>| #[trigger] cover_of_size(g, c, m);
    law_unconfined_in_min_cover(g, n, v, m, c);
    let d = choose|d: Set<Vx>| #[trigger] cover_of_size(g, d, m) && d.contains(v);
    crate::graph::lemma_without_vertex_edges(g, n, v);
    let d2 = d.remove(v);
    assert forall|x: Vx, y: Vx| #[trigger] has_edge(without_vertex(g, v), x, y) implies d2.contains(x) || d2.contains(y) by {
        assert(has_edge(g, x, y));
    }
    assert(is_vertex_cover(without_vertex(g, v), d2));
}

/// The elements `x` of `a` with `b.contains(x) == inside`.
pub open spec fn select(a: Set<Vx>, b: Set<Vx>, inside: bool) -> Set<Vx> {
    a.filter(|x: Vx| b.contains(x) == inside)
}

/// Counts the elements of `a` that lie in `b` (with `inside`) or outside
/// it, up to two, and gives the first one met.
fn count_upto_two(a: &IdSet, b: &IdSet, inside: bool) -> (r: (usize, Option<Vx>))
    requires
        a@.finite(),
    ensures
        r.0 <= 2,
        r.0 == 0 <==> select(a@, b@, inside).len() == 0,
        r.0 == 1 <==> select(a@, b@, inside).len() == 1,
        r.0 >= 1 ==> r.1 is Some && select(a@, b@, inside).contains(r.1->0),
        select(a@, b@, inside).finite(),
{
    let xs = a.elements();
    let mut count: usize = 0;
    let mut first: Option<Vx> = None;
    let mut i: usize = 0;
    let ghost mut seen: Set<Vx> = Set::empty();
    proof {
        lemma_set_subset_finite(a@, select(a@, b@, inside));
    }
    while i < xs.len() && count < 2
        invariant
            i <= xs@.len(),
            xs@.no_duplicates(),
            xs@.to_set() == a@,
            a@.finite(),
            seen == select(xs@.subrange(0, i as int).to_set(), b@, inside),
            seen.finite(),
            count == seen.len(),
            count <= 2,
            count >= 1 ==> first is Some && seen.contains(first->0),
        decreases xs@.len() - i,
    {
        let x = xs[i];
        proof {
            assert(xs@.subrange(0, i + 1) == xs@.subrange(0, i as int).push(x));
            lemma_to_set_push(xs@.subrange(0, i as int), x);
            assert(!xs@.subrange(0, i as int).contains(x)) by {
                if xs@.subrange(0, i as int).contains(x) {
                    let j = choose|j: int| 0 <= j < i && xs@.subrange(0, i as int)[j] == x;
                    assert(xs@[j] == xs@[i as int]);
                }
            }
        }
        if b.contains(x) == inside {
            if count == 0 {
                first = Some(x);
            }
            count = count + 1;
            proof {
                assert(select(xs@.subrange(0, i + 1).to_set(), b@, inside) =~= seen.insert(x));
                seen = seen.insert(x);
            }
        } else {
            proof {
                assert(select(xs@.subrange(0, i + 1).to_set(), b@, inside) =~= seen);
            }
        }
        i = i + 1;
    }
    proof {
        let full = select(a@, b@, inside);
        assert(seen.subset_of(full)) by {
            assert forall|y: Vx| seen.contains(y) implies full.contains(y) by {
                assert(xs@.subrange(0, i as int).to_set().contains(y));
                let j = choose|j: int| 0 <= j < i && xs@.subrange(0, i as int)[j] == y;
                assert(xs@.to_set().contains(xs@[j]));
            }
        }
        lemma_len_subset(seen, full);
        if count < 2 {
            assert(xs@.subrange(0, i as int) == xs@);
            assert(seen =~= full);
        }
    }
    (count, first)
}

/// Whether `v` is unconfined in `g` (`v` must be a vertex of `g`). The
/// candidates are looked at in the order of the hash set that holds the
/// closed neighbourhood; of several next vertices, the last one met wins.
pub fn is_unconfined(g: &Graph, v: Vx) -> (r: bool)
    requires
        g.wf(),
        g@.dom().contains(v),
    ensures
        r ==> found_unconfined(g@, v),
        !r ==> found_confined(g@, v),
{
    let mut s = IdSet::empty();
    let mut n_s = IdSet::empty();
    let mut w: Vx = v;
    let ghost mut ws: Seq<Vx> = Seq::empty();
    proof {
        assert(Seq::<Vx>::empty().to_set() =~= Set::<Vx>::empty());
        g.lemma_simple();
        assert(s@.insert(v).subset_of(g@.dom()));
        assert(neighbourhood(g@, Set::<Vx>::empty()) =~= Set::<Vx>::empty());
        assert(n_s@ =~= closed_nbhd(g@, s@));
    }
    loop
        invariant
            g.wf(),
            simple_graph(g@, g.spec_n()),
            g@.dom().finite(),
            g@.dom().contains(w),
            !n_s@.contains(w),
            n_s@ == closed_nbhd(g@, s@),
            s@.subset_of(g@.dom()),
            s@.len() == 0 ==> w == v,
            s@.len() > 0 ==> s@.contains(v),
            s@.finite(),
            s@ == ws.to_set(),
            ws.len() == 0 ==> w == v,
            ws.len() > 0 ==> ws[0] == v && next_of(g@, s@, w) && no_end(g@, s@),
            search_path(g@, ws),
        decreases g@.dom().len() - s@.len(),
    {
        let ghost s0 = s@;
        let ghost ws0 = ws;
        s.insert(w);
        proof {
            ws = ws.push(w);
            crate::graph::lemma_to_set_push(ws0, w);
            assert forall|k: int| 0 < k < ws.len() implies next_of(g@, ws.take(k).to_set(), #[trigger] ws[k]) && no_end(g@, ws.take(k).to_set()) by {
                if k < ws0.len() {
                    assert(ws.take(k) == ws0.take(k));
                    assert(ws[k] == ws0[k]);
                    assert(next_of(g@, ws0.take(k).to_set(), ws0[k]) && no_end(g@, ws0.take(k).to_set()));
                } else {
                    assert(ws.take(k) == ws0);
                }
            }
        }
        if let Some(h) = g.neighbours_hashset(w) {
            let hx = h.elements();
            let mut k: usize = 0;
            while k < hx.len()
                invariant
                    k <= hx@.len(),
                    n_s@ == closed_nbhd(g@, s0).union(hx@.subrange(0, k as int).to_set()),
                decreases hx@.len() - k,
            {
                n_s.insert(hx[k]);
                proof {
                    assert(hx@.subrange(0, k + 1) == hx@.subrange(0, k as int).push(hx@[k as int]));
                    lemma_to_set_push(hx@.subrange(0, k as int), hx@[k as int]);
                    assert(n_s@ =~= closed_nbhd(g@, s0).union(hx@.subrange(0, k + 1).to_set()));
                }
                k = k + 1;
            }
            proof {
                assert(hx@.subrange(0, k as int) == hx@);
                assert(n_s@ == closed_nbhd(g@, s0).union(nbrs(g@, w)));
            }
        } else {
            proof {
                assert(false);
            }
        }
        n_s.insert(w);
        proof {
            assert(s@ == s0.insert(w));
            assert(n_s@ == closed_nbhd(g@, s0).union(nbrs(g@, w)).insert(w));
            assert forall|x: Vx| n_s@.contains(x) <==> closed_nbhd(g@, s@).contains(x) by {
                if neighbourhood(g@, s@).contains(x) {
                    let y = choose|y: Vx| s@.contains(y) && has_edge(g@, y, x);
                    if y != w {
                        assert(neighbourhood(g@, s0).contains(x));
                    } else {
                        assert(nbrs(g@, w).contains(x));
                    }
                }
                if neighbourhood(g@, s0).contains(x) {
                    let y = choose|y: Vx| s0.contains(y) && has_edge(g@, y, x);
                    assert(s@.contains(y) && has_edge(g@, y, x));
                    assert(neighbourhood(g@, s@).contains(x));
                }
                if nbrs(g@, w).contains(x) {
                    assert(has_edge(g@, w, x));
                    assert(s@.contains(w) && has_edge(g@, w, x));
                    assert(neighbourhood(g@, s@).contains(x));
                }
            }
            assert(n_s@ =~= closed_nbhd(g@, s@));
            assert(s@.subset_of(g@.dom()));
            lemma_set_subset_finite(g@.dom(), s@);
            lemma_set_subset_finite(g@.dom(), s0);
            assert(!s0.contains(w));
            assert(s@.len() == s0.len() + 1);
            lemma_len_subset(s@, g@.dom());
        }
        let mut next: Option<Vx> = None;
        let us = n_s.elements();
        let mut j: usize = 0;
        while j < us.len()
            invariant
                g.wf(),
                simple_graph(g@, g.spec_n()),
                j <= us@.len(),
                us@.to_set() == n_s@,
                n_s@ == closed_nbhd(g@, s@),
                s@.subset_of(g@.dom()),
                s@.contains(v),
                next matches Some(x) ==> g@.dom().contains(x) && !n_s@.contains(x),
                next is None ==> forall|jj: int| 0 <= jj < j ==> stuck_at(g@, s@, #[trigger] us@[jj]),
                next matches Some(x) ==> next_of(g@, s@, x),
                forall|jj: int| 0 <= jj < j ==> !ends_search(g@, s@, #[trigger] us@[jj]),
                s@ == ws.to_set(),
                ws.len() > 0 && ws[0] == v,
                search_path(g@, ws),
            decreases us@.len() - j,
        {
            let u = us[j];
            proof {
                assert(us@.to_set().contains(us@[j as int]));
            }
            if !s.contains(u) {
                if let Some(n_u) = g.neighbours_hashset(u) {
                    proof {
                        assert(n_u@ == g@[u]);
                    }
                    let (c_in, _) = count_upto_two(n_u, &s, true);
                    if c_in == 1 {
                        let (c_out, first) = count_upto_two(n_u, &n_s, false);
                        if c_out == 0 {
                            proof {
                                assert(select(n_u@, s@, true) =~= nbrs(g@, u).intersect(s@));
                                assert forall|x: Vx| nbrs(g@, u).contains(x) implies closed_nbhd(g@, s@).contains(x) by {
                                    if !closed_nbhd(g@, s@).contains(x) {
                                        assert(select(n_u@, n_s@, false).contains(x));
                                    }
                                }
                                assert(ends_search(g@, s@, u));
                                assert(ends_search(g@, ws.to_set(), u));
                                assert(search_run(g@, v, ws));
                            }
                            return true;
                        }
                        if c_out == 1 {
                            proof {
                                let x = first->0;
                                assert(select(n_u@, n_s@, false).contains(x));
                                assert(has_edge(g@, u, x));
                                assert(select(n_u@, n_s@, false) =~= nbrs(g@, u).difference(closed_nbhd(g@, s@)));
                                crate::ideas::deg1::lemma_single(select(n_u@, n_s@, false), x);
                                assert(select(n_u@, s@, true) =~= nbrs(g@, u).intersect(s@));
                                assert(us@.to_set().contains(u));
                                assert(next_of(g@, s@, x));
                                assert(!nbrs(g@, u).subset_of(closed_nbhd(g@, s@)));
                            }
                            next = first;
                        } else {
                            proof {
                                assert(select(n_u@, n_s@, false) =~= nbrs(g@, u).difference(closed_nbhd(g@, s@)));
                                assert(select(n_u@, n_s@, false).len() > 0);
                                let y = select(n_u@, n_s@, false).choose();
                                assert(!nbrs(g@, u).subset_of(closed_nbhd(g@, s@)));
                            }
                        }
                    } else {
                        proof {
                            assert(select(n_u@, s@, true) =~= nbrs(g@, u).intersect(s@));
                        }
                    }
                } else {
                    proof {
                        assert(nbrs(g@, u).intersect(s@) =~= Set::<Vx>::empty());
                    }
                }
            }
            proof {
                if next is None {
                    assert forall|jj: int| 0 <= jj < j + 1 implies stuck_at(g@, s@, #[trigger] us@[jj]) by {
                        if jj == j {
                            assert(us@[jj] == u);
                        }
                    }
                }
                assert forall|jj: int| 0 <= jj < j + 1 implies !ends_search(g@, s@, #[trigger] us@[jj]) by {
                    if jj == j {
                        assert(us@[jj] == u);
                    }
                }
            }
            j = j + 1;
        }
        match next {
            None => {
                proof {
                    assert forall|u: Vx| #[trigger] stuck_at(g@, s@, u) by {
                        if closed_nbhd(g@, s@).contains(u) {
                            assert(us@.to_set().contains(u));
                            let jj = choose|jj: int| 0 <= jj < us@.len() && us@[jj] == u;
                            assert(stuck_at(g@, s@, us@[jj]));
                        }
                    }
                    assert(stuck(g@, s@));
                    assert(stuck(g@, ws.to_set()));
                    assert(search_run(g@, v, ws));
                }
                return false;
            },
            Some(x) => {
                proof {
                    assert forall|u: Vx| !#[trigger] ends_search(g@, s@, u) by {
                        if closed_nbhd(g@, s@).contains(u) {
                            assert(us@.to_set().contains(u));
                            let jj = choose|jj: int| 0 <= jj < us@.len() && us@[jj] == u;
                            assert(!ends_search(g@, s@, us@[jj]));
                        }
                    }
                }
                w = x;
            },
        }
    }
}

impl Idea for Unconfined {
    open spec fn inv(&self, n: nat) -> bool {
        true
    }

    open spec fn pending(&self, dirty: Set<Vx>) -> bool {
        self.0 || dirty.len() > 0
    }

    fn new(g: &Graph) -> (r: Self)
        ensures
            r.0,
    {
        Unconfined(true)
    }

    fn priority(&self, state: &State, dirty: &IdSet) -> (r: usize)
        ensures
            r == (if self.pending(dirty@) { 3usize } else { 0 }),
    {
        if !self.0 && dirty.len() == 0 {
            return 0;
        }
        3
    }

    fn apply(&mut self, state: &mut State, dirty: &IdSet) -> (r: Option<()>)
        ensures
            final(self).0 == (final(state).solution@.len() > old(state).solution@.len()),
            r is Some ==> progressed(old(state), final(state)) || (unchanged(old(state), final(state))
                && !final(self).pending(Set::empty())),
            final(state).solution@.len() > old(state).solution@.len() ==> ({
                let v = final(state).solution@.last();
                &&& final(state).solution@ == old(state).solution@.push(v)
                &&& found_unconfined(old(state).graph@, v)
            }),
            final(state).solution@.len() == old(state).solution@.len() ==> *final(state) == *old(state)
                && forall|v: Vx| #[trigger] old(state).graph@.dom().contains(v) ==> found_confined(old(state).graph@, v),
            final(state).cleanup_funcs == old(state).cleanup_funcs,
            crate::state::cover_safe(old(state), final(state)),
            r is None ==> exists|v: Vx| #[trigger] old(state).graph@.dom().contains(v)
                && found_unconfined(old(state).graph@, v)
                && !crate::state::takes_set(old(state), set![v]),
    {
        self.0 = true;
        let vs = state.graph.vertices();
        let mut i: usize = 0;
        let mut found: Option<Vx> = None;
        while i < vs.len() && found.is_none()
            invariant
                state.wf(),
                *state == *old(state),
                i <= vs@.len(),
                vs@.to_set() == state.graph@.dom(),
                found matches Some(v) ==> state.graph@.dom().contains(v) && found_unconfined(state.graph@, v),
                found is None ==> forall|j: int| 0 <= j < i ==> found_confined(state.graph@, #[trigger] vs@[j]),
            decreases vs@.len() - i,
        {
            let v = vs[i];
            proof {
                assert(vs@.to_set().contains(vs@[i as int]));
            }
            if is_unconfined(&state.graph, v) {
                found = Some(v);
            }
            i = i + 1;
        }
        match found {
            Some(v) => {
                proof {
                    state.graph.lemma_simple();
                    crate::state::lemma_takes_one(state, v);
                }
                let r = state.add_to_solution(v);
                r
            },
            None => {
                self.0 = false;
                proof {
                    assert forall|v: Vx| #[trigger] state.graph@.dom().contains(v) implies found_confined(state.graph@, v) by {
                        assert(vs@.to_set().contains(v));
                        let j = choose|j: int| 0 <= j < vs@.len() && vs@[j] == v;
                        assert(found_confined(state.graph@, vs@[j]));
                    }
                    lemma_reduced_refl(state);
                    crate::state::lemma_cover_safe_refl(state);
                }
                Some(())
            },
        }
    }
}

} // verus!
