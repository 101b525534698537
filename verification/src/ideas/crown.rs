//! Crown reduction: from a maximal matching, a minimum cover of the
//! bipartite graph between the matched vertices and the others yields a
//! set `H` of matched vertices and a set `I` of unmatched ones with every
//! neighbour of `I` in `H`; `H` joins the solution and `I` leaves the
//! graph.

use vstd::prelude::*;
use vstd::set_lib::*;
use crate::idset::IdSet;
use crate::graph::{Vx, Edge, Graph, nbrs, has_edge, without_set, without_vertex, simple_graph, lists_edge,
    lemma_without_set_insert, lemma_bounded_set_len, lemma_contains_len};
use crate::state::{takes_set, lemma_takes_set, State, progressed, unchanged, lemma_reduced_refl, lemma_reduced_trans};
use crate::idea::Idea;
use crate::ideas::flow::hopcroftkarp::{max_matching_bipartite, side_ok, bipartite, left_end};

verus! {

/// The crown rule.
pub struct Crown;

/// `e` has `x` as an end point.
pub open spec fn touches(e: Edge, x: Vx) -> bool {
    e.0 == x || e.1 == x
}

/// The end points of the edges of `m`.
pub open spec fn endpoints(m: Seq<Edge>) -> Set<Vx> {
    Set::new(|x: Vx| exists|k: int| 0 <= k < m.len() && touches(#[trigger] m[k], x))
}

/// `e` joins `x` and `y`, in either direction.
pub open spec fn same_edge(e: Edge, x: Vx, y: Vx) -> bool {
    e == (x, y) || e == (y, x)
}

/// `m` lists the edge `{x, y}`.
pub open spec fn in_m(m: Seq<Edge>, x: Vx, y: Vx) -> bool {
    exists|k: int| 0 <= k < m.len() && same_edge(#[trigger] m[k], x, y)
}

/// Two edges without a common end point.
pub open spec fn disjoint_edges(a: Edge, b: Edge) -> bool {
    !touches(b, a.0) && !touches(b, a.1)
}

/// The end points of the edges of `m`.
fn vertex_set_of_matching(m: &Vec<Edge>) -> (r: IdSet)
    ensures
        r@ == endpoints(m@),
{
    let mut r = IdSet::empty();
    let mut k: usize = 0;
    while k < m.len()
        invariant
            k <= m@.len(),
            forall|x: Vx| r@.contains(x) <==> endpoints(m@.subrange(0, k as int)).contains(x),
        decreases m@.len() - k,
    {
        let (u, v) = m[k];
        let ghost r0 = r@;
        r.insert(u);
        r.insert(v);
        proof {
            let pre = m@.subrange(0, k as int);
            let post = m@.subrange(0, k + 1);
            assert(r@ == r0.insert(u).insert(v));
            assert forall|x: Vx| r@.contains(x) <==> endpoints(post).contains(x) by {
                assert(r0.contains(x) <==> endpoints(pre).contains(x));
                if endpoints(post).contains(x) {
                    let j = choose|j: int| 0 <= j < post.len() && touches(#[trigger] post[j], x);
                    if j < k {
                        assert(pre[j] == post[j]);
                        assert(endpoints(pre).contains(x));
                    }
                }
                if endpoints(pre).contains(x) {
                    let j = choose|j: int| 0 <= j < pre.len() && touches(#[trigger] pre[j], x);
                    assert(post[j] == pre[j]);
                }
                if x == u || x == v {
                    assert(touches(post[k as int], x));
                }
            }
        }
        k = k + 1;
    }
    proof {
        assert(m@.subrange(0, k as int) == m@);
        assert(r@ =~= endpoints(m@));
    }
    r
}

/// A maximal matching, taken greedily edge by edge.
fn get_maximal_matching(g: &Graph) -> (m: Vec<Edge>)
    requires
        g.wf(),
    ensures
        forall|k: int| 0 <= k < m@.len() ==> has_edge(g@, (#[trigger] m@[k]).0, m@[k].1),
        forall|a: int, b: int| 0 <= a < b < m@.len() ==> disjoint_edges(#[trigger] m@[a], #[trigger] m@[b]),
        forall|u: Vx, v: Vx| #[trigger] has_edge(g@, u, v) ==> endpoints(m@).contains(u) || endpoints(m@).contains(v),
{
    let mut h = g.clone();
    let mut m: Vec<Edge> = Vec::new();
    proof {
        g.lemma_simple();
        lemma_without_set_insert(g@, g.spec_n(), Set::empty(), 0);
        assert(endpoints(m@) =~= Set::<Vx>::empty());
    }
    loop
        invariant
            h.wf(),
            g.wf(),
            h.spec_n() == g.spec_n(),
            simple_graph(g@, g.spec_n()),
            h@ == without_set(g@, endpoints(m@)),
            forall|k: int| 0 <= k < m@.len() ==> has_edge(g@, (#[trigger] m@[k]).0, m@[k].1),
            forall|a: int, b: int| 0 <= a < b < m@.len() ==> disjoint_edges(#[trigger] m@[a], #[trigger] m@[b]),
        ensures
            h@.dom() == Set::<Vx>::empty(),
        decreases h@.dom().len(),
    {
        let e = match h.next_edge() {
            None => {
                break;
            },
            Some(e) => e,
        };
        let ghost h0 = h@;
        let ghost m0 = m@;
        proof {
            h.lemma_simple();
            assert(!endpoints(m0).contains(e.0) && !endpoints(m0).contains(e.1)) by {
                assert(h0.dom().contains(e.0));
                assert(h0[e.0].contains(e.1));
            }
        }
        m.push(e);
        h.rm_vertex(e.0);
        h.rm_vertex(e.1);
        proof {
            lemma_without_set_insert(g@, g.spec_n(), endpoints(m0), e.0);
            lemma_without_set_insert(g@, g.spec_n(), endpoints(m0).insert(e.0), e.1);
            assert forall|x: Vx| endpoints(m@).contains(x) <==> endpoints(m0).insert(e.0).insert(e.1).contains(x) by {
                if endpoints(m@).contains(x) {
                    let j = choose|j: int| 0 <= j < m@.len() && touches(#[trigger] m@[j], x);
                    if j < m0.len() {
                        assert(m0[j] == m@[j]);
                    }
                }
                if endpoints(m0).contains(x) {
                    let j = choose|j: int| 0 <= j < m0.len() && touches(#[trigger] m0[j], x);
                    assert(m@[j] == m0[j]);
                }
                if x == e.0 || x == e.1 {
                    assert(touches(m@[m0.len() as int], x));
                }
            }
            assert(endpoints(m@) =~= endpoints(m0).insert(e.0).insert(e.1));
            assert(has_edge(g@, e.0, e.1)) by {
                assert(h0.dom().contains(e.0));
            }
            assert forall|a: int, b: int| 0 <= a < b < m@.len() implies disjoint_edges(#[trigger] m@[a], #[trigger] m@[b]) by {
                if b == m0.len() {
                    assert(touches(m0[a], m0[a].0));
                    assert(touches(m0[a], m0[a].1));
                    assert(endpoints(m0).contains(m0[a].0));
                    assert(endpoints(m0).contains(m0[a].1));
                } else {
                    assert(disjoint_edges(m0[a], m0[b]));
                }
            }
            assert(h@.dom().subset_of(h0.dom().remove(e.0)));
            lemma_len_subset(h@.dom(), h0.dom().remove(e.0));
        }
    }
    proof {
        assert forall|u: Vx, v: Vx| #[trigger] has_edge(g@, u, v) implies endpoints(m@).contains(u) || endpoints(m@).contains(v) by {
            if !endpoints(m@).contains(u) && !endpoints(m@).contains(v) {
                assert(g@[u].difference(endpoints(m@)).contains(v));
                lemma_contains_len(g@[u].difference(endpoints(m@)), v);
                assert(h@.dom().contains(u));
            }
        }
    }
    m
}

/// Whether `m` lists the edge `{x, y}`.
fn in_matching(m: &Vec<Edge>, x: Vx, y: Vx) -> (r: bool)
    ensures
        r == in_m(m@, x, y),
{
    let mut k: usize = 0;
    while k < m.len()
        invariant
            k <= m@.len(),
            forall|j: int| 0 <= j < k ==> !same_edge(#[trigger] m@[j], x, y),
        decreases m@.len() - k,
    {
        let e = m[k];
        if (e.0 == x && e.1 == y) || (e.0 == y && e.1 == x) {
            proof {
                assert(same_edge(m@[k as int], x, y));
            }
            return true;
        }
        k = k + 1;
    }
    false
}

/// Some vertex of `dm` of lower rank in `d` reaches `y` along an edge
/// outside `m`.
pub open spec fn reached_by(g: Map<Vx, Set<Vx>>, m: Seq<Edge>, dm: Set<Vx>, d: Map<Vx, nat>, y: Vx) -> bool {
    exists|x: Vx| dm.contains(x) && #[trigger] has_edge(g, x, y) && !in_m(m, x, y) && d[x] < d[y]
}

/// `d` ranks the vertices of `r` so that each one is a start vertex of `z`
/// or is entered by an alternating step from a vertex of `r` of lower
/// rank: a left vertex along an edge of `m` from a right one, a right
/// vertex along an edge outside `m` from a left one. So every vertex of
/// `r` lies at the end of an alternating walk from `z`.
pub open spec fn alt_ranked(g: Map<Vx, Set<Vx>>, m: Seq<Edge>, l: Set<Vx>, z: Seq<Vx>, r: Set<Vx>, d: Map<Vx, nat>) -> bool {
    &&& forall|x: Vx| #[trigger] r.contains(x) && l.contains(x) ==> z.contains(x)
        || exists|y: Vx| r.contains(y) && !l.contains(y) && #[trigger] in_m(m, y, x) && d[y] < d[x]
    &&& forall|y: Vx| #[trigger] r.contains(y) && !l.contains(y) ==> exists|x: Vx| r.contains(x) && l.contains(x)
        && #[trigger] has_edge(g, x, y) && !in_m(m, x, y) && d[x] < d[y]
}

/// The vertices reached from `z` along alternating paths: from a vertex
/// of the left side `l` along edges outside `m`, from one of the right
/// side along edges of `m`. The result holds `z`, is closed under those
/// steps, and every left vertex in it outside `z` is reached through an
/// edge of `m` from a right vertex in it, and every right vertex in it
/// through an edge outside `m` from a left vertex in it, each time from
/// one of lower rank: nothing is in it that no alternating walk from `z`
/// reaches.
fn enrich_altpath(g: &Graph, z: &Vec<Vx>, m: &Vec<Edge>, Ghost(l): Ghost<Set<Vx>>) -> (r: IdSet)
    requires
        g.wf(),
        side_ok(g@, l, g.spec_n()),
        forall|k: int| 0 <= k < z@.len() ==> l.contains(#[trigger] z@[k]),
        forall|k: int| 0 <= k < m@.len() ==> has_edge(g@, (#[trigger] m@[k]).0, m@[k].1),
    ensures
        forall|k: int| 0 <= k < z@.len() ==> r@.contains(#[trigger] z@[k]),
        forall|x: Vx, y: Vx| r@.contains(x) && l.contains(x) && #[trigger] has_edge(g@, x, y) && !in_m(m@, x, y) ==> r@.contains(y),
        forall|x: Vx, y: Vx| r@.contains(x) && !l.contains(x) && #[trigger] has_edge(g@, x, y) && in_m(m@, x, y) ==> r@.contains(y),
        forall|x: Vx| #[trigger] r@.contains(x) && l.contains(x) ==> z@.contains(x)
            || exists|y: Vx| r@.contains(y) && !l.contains(y) && #[trigger] in_m(m@, y, x),
        forall|y: Vx| #[trigger] r@.contains(y) && !l.contains(y) ==> exists|x: Vx| r@.contains(x) && l.contains(x)
            && #[trigger] has_edge(g@, x, y) && !in_m(m@, x, y),
        exists|d: Map<Vx, nat>| alt_ranked(g@, m@, l, z@, r@, d),
{
    let ghost n = g.spec_n();
    let mut done_m = IdSet::empty();
    let mut done_u = IdSet::empty();
    let mut reach_u = IdSet::empty();
    let mut reach_m = IdSet::from_vec(z);
    let ghost mut d: Map<Vx, nat> = Map::new(|x: Vx| z@.contains(x), |x: Vx| 0nat);
    proof {
        g.lemma_simple();
        assert(d.dom() =~= done_m@.union(reach_m@).union(done_u@).union(reach_u@));
    }
    loop
        invariant
            g.wf(),
            n == g.spec_n(),
            n < u32::MAX,
            simple_graph(g@, n),
            side_ok(g@, l, n),
            forall|k: int| 0 <= k < m@.len() ==> has_edge(g@, (#[trigger] m@[k]).0, m@[k].1),
            forall|k: int| 0 <= k < z@.len() ==> l.contains(#[trigger] z@[k]),
            forall|x: Vx| #[trigger] reach_m@.contains(x) ==> !done_m@.contains(x) && l.contains(x),
            forall|x: Vx| #[trigger] done_m@.contains(x) ==> l.contains(x),
            forall|x: Vx| #[trigger] reach_u@.contains(x) ==> !done_u@.contains(x) && !l.contains(x) && x < n,
            forall|x: Vx| #[trigger] done_u@.contains(x) ==> !l.contains(x) && x < n,
            forall|k: int| 0 <= k < z@.len() ==> done_m@.contains(#[trigger] z@[k]) || reach_m@.contains(z@[k]),
            forall|x: Vx, y: Vx| done_m@.contains(x) && #[trigger] has_edge(g@, x, y) && !in_m(m@, x, y)
                ==> done_u@.contains(y) || reach_u@.contains(y),
            forall|x: Vx, y: Vx| done_u@.contains(x) && #[trigger] has_edge(g@, x, y) && in_m(m@, x, y)
                ==> done_m@.contains(y) || reach_m@.contains(y),
            forall|x: Vx| #[trigger] done_m@.contains(x) || reach_m@.contains(x) ==> z@.contains(x)
                || exists|y: Vx| done_u@.contains(y) && #[trigger] in_m(m@, y, x) && d[y] < d[x],
            forall|y: Vx| #[trigger] done_u@.contains(y) || reach_u@.contains(y) ==> reached_by(g@, m@, done_m@, d, y),
            d.dom() == done_m@.union(reach_m@).union(done_u@).union(reach_u@),
        ensures
            reach_m@ == Set::<Vx>::empty(),
            reach_u@ == Set::<Vx>::empty(),
        decreases 2 * n - done_m@.len() - done_u@.len(),
    {
        proof {
            assert forall|x: usize| done_m@.contains(x) implies x < n as usize by {
                assert(l.contains(x));
            }
            lemma_bounded_set_len(done_m@, n as usize);
            lemma_bounded_set_len(done_u@, n as usize);
            assert forall|x: usize| done_u@.contains(x) implies x < n as usize by {
                assert(x < n);
            }
        }
        let ghost dm0 = done_m@;
        let ghost du0 = done_u@;
        let ghost rm0 = reach_m@;
        let ghost ru0 = reach_u@;
        let opt1 = reach_m.some_element();
        if let Some(x) = opt1 {
            reach_m.remove(x);
            done_m.insert(x);
            proof {
                assert forall|y: Vx| #[trigger] done_u@.contains(y) || reach_u@.contains(y) implies reached_by(g@, m@, done_m@, d, y) by {
                    assert(reached_by(g@, m@, dm0, d, y));
                    let w = choose|w: Vx| dm0.contains(w) && #[trigger] has_edge(g@, w, y) && !in_m(m@, w, y) && d[w] < d[y];
                    assert(done_m@.contains(w));
                }
                assert(d.dom() =~= done_m@.union(reach_m@).union(done_u@).union(reach_u@));
                assert forall|x2: Vx| #[trigger] done_m@.contains(x2) || reach_m@.contains(x2) implies z@.contains(x2)
                    || exists|y2: Vx| done_u@.contains(y2) && #[trigger] in_m(m@, y2, x2) && d[y2] < d[x2] by {
                    assert(dm0.contains(x2) || rm0.contains(x2));
                }
            }
            let nb = g.neighbours(x);
            let mut j: usize = 0;
            while j < nb.len()
                invariant
                    g.wf(),
                    n == g.spec_n(),
                    side_ok(g@, l, n),
                    j <= nb@.len(),
                    nb@.to_set() == nbrs(g@, x),
                    done_m@.contains(x),
                    l.contains(x),
                    forall|y: Vx| #[trigger] reach_u@.contains(y) ==> !done_u@.contains(y) && !l.contains(y) && y < n,
                    forall|jj: int| 0 <= jj < j ==> #[trigger] in_m(m@, x, nb@[jj]) || done_u@.contains(nb@[jj]) || reach_u@.contains(nb@[jj]),
                    ru0.subset_of(reach_u@),
                    forall|y: Vx| #[trigger] done_u@.contains(y) || reach_u@.contains(y) ==> reached_by(g@, m@, done_m@, d, y),
                    d.dom() == done_m@.union(reach_m@).union(done_u@).union(reach_u@),
                    forall|w: Vx| #[trigger] done_m@.contains(w) ==> l.contains(w),
                    forall|w: Vx| #[trigger] reach_m@.contains(w) ==> l.contains(w),
                    forall|x2: Vx| #[trigger] done_m@.contains(x2) || reach_m@.contains(x2) ==> z@.contains(x2)
                        || exists|y2: Vx| done_u@.contains(y2) && #[trigger] in_m(m@, y2, x2) && d[y2] < d[x2],
                decreases nb@.len() - j,
            {
                let y = nb[j];
                proof {
                    assert(nb@.to_set().contains(nb@[j as int]));
                    assert(has_edge(g@, x, y));
                    g.lemma_simple();
                }
                let ghost dh = d;
                let ghost ah = forall|x2: Vx| #[trigger] done_m@.contains(x2) || reach_m@.contains(x2) ==> z@.contains(x2)
                    || exists|y2: Vx| done_u@.contains(y2) && #[trigger] in_m(m@, y2, x2) && dh[y2] < dh[x2];
                proof {
                    assert(ah);
                }
                if !in_matching(m, x, y) && !done_u.contains(y) {
                    proof {
                        assert(l.contains(x) != l.contains(y));
                        assert(y < n);
                    }
                    let ghost rub = reach_u@;
                    let ghost db = d;
                    proof {
                        if !rub.contains(y) {
                            assert(!db.dom().contains(y));
                            d = d.insert(y, (db[x] + 1) as nat);
                        }
                        assert forall|k: Vx| db.dom().contains(k) implies #[trigger] d.dom().contains(k) && d[k] == db[k] by {
                            if !rub.contains(y) {
                                assert(k != y);
                            }
                        }
                    }
                    reach_u.insert(y);
                    proof {
                        assert(reach_u@ == rub.insert(y));
                        assert(d.dom() =~= done_m@.union(reach_m@).union(done_u@).union(reach_u@));
                        assert forall|w: Vx| #[trigger] reach_u@.contains(w) implies !done_u@.contains(w) && !l.contains(w) && w < n by {
                            if w != y {
                                assert(rub.contains(w));
                            }
                        }
                        assert(db.dom().contains(x));
                        if !rub.contains(y) {
                            assert(has_edge(g@, x, y) && !in_m(m@, x, y) && d[x] < d[y]);
                            assert(reached_by(g@, m@, done_m@, d, y));
                        } else {
                            assert(reached_by(g@, m@, done_m@, db, y));
                            let w = choose|w: Vx| done_m@.contains(w) && #[trigger] has_edge(g@, w, y) && !in_m(m@, w, y) && db[w] < db[y];
                            assert(db.dom().contains(w));
                            assert(reached_by(g@, m@, done_m@, d, y));
                        }
                        assert forall|w: Vx| #[trigger] done_u@.contains(w) || reach_u@.contains(w) implies reached_by(g@, m@, done_m@, d, w) by {
                            if w != y {
                                assert(done_u@.contains(w) || rub.contains(w));
                                assert(reached_by(g@, m@, done_m@, db, w));
                                let v = choose|v: Vx| done_m@.contains(v) && #[trigger] has_edge(g@, v, w) && !in_m(m@, v, w) && db[v] < db[w];
                                assert(db.dom().contains(v) && db.dom().contains(w));
                            }
                        }
                    }
                }
                proof {
                    assert forall|k: Vx| dh.dom().contains(k) implies #[trigger] d.dom().contains(k) && d[k] == dh[k] by {}
                    assert forall|x2: Vx| #[trigger] done_m@.contains(x2) || reach_m@.contains(x2) implies z@.contains(x2)
                        || exists|y2: Vx| done_u@.contains(y2) && #[trigger] in_m(m@, y2, x2) && d[y2] < d[x2] by {
                        if !z@.contains(x2) {
                            assert(ah);
                            let y2 = choose|y2: Vx| done_u@.contains(y2) && #[trigger] in_m(m@, y2, x2) && dh[y2] < dh[x2];
                            assert(dh.dom().contains(y2));
                            assert(dh.dom().contains(x2));
                        }
                    }
                }
                j = j + 1;
            }
            proof {
                assert forall|y: Vx| has_edge(g@, x, y) && !in_m(m@, x, y) implies done_u@.contains(y) || reach_u@.contains(y) by {
                    assert(nb@.to_set().contains(y));
                    let jj = choose|jj: int| 0 <= jj < nb@.len() && nb@[jj] == y;
                    assert(in_m(m@, x, nb@[jj]) || done_u@.contains(nb@[jj]) || reach_u@.contains(nb@[jj]));
                }
            }
        }
        proof {
            if opt1 is Some {
                assert(reach_m@ == rm0.remove(opt1->0));
                assert(done_m@ == dm0.insert(opt1->0));
            } else {
                assert(reach_m@ == rm0);
                assert(done_m@ == dm0);
                assert(reach_u@ == ru0);
            }
            assert forall|y: Vx| #[trigger] reach_m@.contains(y) implies !done_m@.contains(y) && l.contains(y) by {
                assert(rm0.contains(y));
            }
            assert forall|y: Vx| #[trigger] reach_u@.contains(y) implies !done_u@.contains(y) && !l.contains(y) && y < n by {
                if opt1 is None {
                    assert(ru0.contains(y));
                }
            }
        }
        let ghost dm1 = done_m@;
        let ghost du1 = done_u@;
        let ghost rm1 = reach_m@;
        let ghost ru1 = reach_u@;
        proof {
            assert(dm0.subset_of(dm1));
            assert(du1 == du0);
            assert forall|k: int| 0 <= k < z@.len() implies dm1.contains(#[trigger] z@[k]) || rm1.contains(z@[k]) by {
                if !dm0.contains(z@[k]) {
                    assert(rm0.contains(z@[k]));
                }
            }
            assert forall|x: Vx, y: Vx| dm1.contains(x) && #[trigger] has_edge(g@, x, y) && !in_m(m@, x, y)
                implies du1.contains(y) || ru1.contains(y) by {
                if dm0.contains(x) {
                    assert(du0.contains(y) || ru0.contains(y));
                }
            }
        }
        let opt2 = reach_u.some_element();
        if let Some(x) = opt2 {
            proof {
                assert(reach_u@.contains(x));
                assert(!l.contains(x));
            }
            let ghost dub = done_u@;
            let ghost rub = reach_u@;
            reach_u.remove(x);
            done_u.insert(x);
            proof {
                assert forall|y: Vx| #[trigger] done_u@.contains(y) || reach_u@.contains(y) implies reached_by(g@, m@, done_m@, d, y) by {
                    assert(dub.contains(y) || rub.contains(y));
                }
                assert(d.dom() =~= done_m@.union(reach_m@).union(done_u@).union(reach_u@));
                assert forall|x2: Vx| #[trigger] done_m@.contains(x2) || reach_m@.contains(x2) implies z@.contains(x2)
                    || exists|y2: Vx| done_u@.contains(y2) && #[trigger] in_m(m@, y2, x2) && d[y2] < d[x2] by {
                    if !z@.contains(x2) {
                        let y2 = choose|y2: Vx| dub.contains(y2) && #[trigger] in_m(m@, y2, x2) && d[y2] < d[x2];
                        assert(done_u@.contains(y2));
                    }
                }
            }
            let nb = g.neighbours(x);
            let mut j: usize = 0;
            while j < nb.len()
                invariant
                    g.wf(),
                    n == g.spec_n(),
                    side_ok(g@, l, n),
                    j <= nb@.len(),
                    nb@.to_set() == nbrs(g@, x),
                    done_u@.contains(x),
                    !l.contains(x),
                    forall|y: Vx| #[trigger] reach_m@.contains(y) ==> !done_m@.contains(y) && l.contains(y),
                    forall|jj: int| 0 <= jj < j ==> !#[trigger] in_m(m@, x, nb@[jj]) || done_m@.contains(nb@[jj]) || reach_m@.contains(nb@[jj]),
                    rm1.subset_of(reach_m@),
                    forall|y: Vx| #[trigger] done_u@.contains(y) || reach_u@.contains(y) ==> reached_by(g@, m@, done_m@, d, y),
                    d.dom() == done_m@.union(reach_m@).union(done_u@).union(reach_u@),
                    forall|w: Vx| #[trigger] done_u@.contains(w) ==> !l.contains(w),
                    forall|w: Vx| #[trigger] reach_u@.contains(w) ==> !l.contains(w),
                    forall|x2: Vx| #[trigger] done_m@.contains(x2) || reach_m@.contains(x2) ==> z@.contains(x2)
                        || exists|y2: Vx| done_u@.contains(y2) && #[trigger] in_m(m@, y2, x2) && d[y2] < d[x2],
                decreases nb@.len() - j,
            {
                let y = nb[j];
                proof {
                    assert(nb@.to_set().contains(nb@[j as int]));
                    assert(has_edge(g@, x, y));
                    assert(l.contains(x) != l.contains(y));
                }
                if in_matching(m, x, y) && !done_m.contains(y) {
                    let ghost rmb = reach_m@;
                    let ghost db = d;
                    proof {
                        if !rmb.contains(y) {
                            assert(!db.dom().contains(y));
                            d = d.insert(y, (db[x] + 1) as nat);
                        }
                        assert forall|k: Vx| db.dom().contains(k) implies #[trigger] d.dom().contains(k) && d[k] == db[k] by {
                            if !rmb.contains(y) {
                                assert(k != y);
                            }
                        }
                    }
                    reach_m.insert(y);
                    proof {
                        assert(reach_m@ == rmb.insert(y));
                        assert(d.dom() =~= done_m@.union(reach_m@).union(done_u@).union(reach_u@));
                        assert(db.dom().contains(x));
                        assert forall|w: Vx| #[trigger] reach_m@.contains(w) implies !done_m@.contains(w) && l.contains(w) by {
                            if w != y {
                                assert(rmb.contains(w));
                            }
                        }
                        let k = choose|k: int| 0 <= k < m@.len() && same_edge(#[trigger] m@[k], x, y);
                        assert(in_m(m@, x, y));
                        assert forall|w: Vx| #[trigger] done_m@.contains(w) || reach_m@.contains(w) implies z@.contains(w)
                            || exists|v: Vx| done_u@.contains(v) && #[trigger] in_m(m@, v, w) && d[v] < d[w] by {
                            if w == y && !rmb.contains(y) {
                                assert(in_m(m@, x, w) && done_u@.contains(x) && d[x] < d[w]);
                            } else if !z@.contains(w) {
                                assert(done_m@.contains(w) || rmb.contains(w));
                                let v = choose|v: Vx| done_u@.contains(v) && #[trigger] in_m(m@, v, w) && db[v] < db[w];
                                assert(db.dom().contains(v) && db.dom().contains(w));
                            }
                        }
                        assert forall|w: Vx| #[trigger] done_u@.contains(w) || reach_u@.contains(w) implies reached_by(g@, m@, done_m@, d, w) by {
                            assert(reached_by(g@, m@, done_m@, db, w));
                            let v = choose|v: Vx| done_m@.contains(v) && #[trigger] has_edge(g@, v, w) && !in_m(m@, v, w) && db[v] < db[w];
                            assert(db.dom().contains(v) && db.dom().contains(w));
                        }
                    }
                }
                j = j + 1;
            }
            proof {
                assert forall|y: Vx| has_edge(g@, x, y) && in_m(m@, x, y) implies done_m@.contains(y) || reach_m@.contains(y) by {
                    assert(nb@.to_set().contains(y));
                    let jj = choose|jj: int| 0 <= jj < nb@.len() && nb@[jj] == y;
                    assert(!in_m(m@, x, nb@[jj]) || done_m@.contains(nb@[jj]) || reach_m@.contains(nb@[jj]));
                }
            }
        }
        proof {
            assert(dm1 == done_m@);
            assert(du1.subset_of(done_u@));
            assert(rm1.subset_of(reach_m@));
            assert forall|k: int| 0 <= k < z@.len() implies done_m@.contains(#[trigger] z@[k]) || reach_m@.contains(z@[k]) by {
                assert(dm1.contains(z@[k]) || rm1.contains(z@[k]));
            }
            assert forall|x: Vx, y: Vx| done_m@.contains(x) && #[trigger] has_edge(g@, x, y) && !in_m(m@, x, y)
                implies done_u@.contains(y) || reach_u@.contains(y) by {
                assert(du1.contains(y) || ru1.contains(y));
                if opt2 is Some && ru1.contains(y) && y != opt2->0 {
                    assert(reach_u@ == ru1.remove(opt2->0));
                }
            }
        }
        if opt1.is_none() && opt2.is_none() {
            break;
        }
        proof {
            assert forall|x: usize| done_m@.contains(x) implies x < n as usize by {
                assert(l.contains(x));
            }
            assert forall|x: usize| done_u@.contains(x) implies x < n as usize by {
                assert(x < n);
            }
            lemma_bounded_set_len(done_m@, n as usize);
            lemma_bounded_set_len(done_u@, n as usize);
            if opt1 is Some {
                assert(!dm0.contains(opt1->0));
                assert(done_m@ == dm0.insert(opt1->0));
            }
            if opt2 is Some {
                assert(!du0.contains(opt2->0));
                assert(done_u@ == du0.insert(opt2->0));
            }
        }
    }
    let mut r = done_m.duplicate();
    let du = done_u.elements();
    let mut k: usize = 0;
    while k < du.len()
        invariant
            k <= du@.len(),
            r@ == done_m@.union(du@.subrange(0, k as int).to_set()),
            forall|x: Vx| #[trigger] done_u@.contains(x) ==> !l.contains(x) && x < n,
            forall|x: Vx| #[trigger] done_m@.contains(x) ==> l.contains(x),
            reach_m@ == Set::<Vx>::empty(),
            reach_u@ == Set::<Vx>::empty(),
            forall|kk: int| 0 <= kk < z@.len() ==> done_m@.contains(#[trigger] z@[kk]) || reach_m@.contains(z@[kk]),
            forall|x: Vx, y: Vx| done_m@.contains(x) && #[trigger] has_edge(g@, x, y) && !in_m(m@, x, y)
                ==> done_u@.contains(y) || reach_u@.contains(y),
            forall|x: Vx, y: Vx| done_u@.contains(x) && #[trigger] has_edge(g@, x, y) && in_m(m@, x, y)
                ==> done_m@.contains(y) || reach_m@.contains(y),
            forall|x: Vx| #[trigger] done_m@.contains(x) || reach_m@.contains(x) ==> z@.contains(x)
                || exists|y: Vx| done_u@.contains(y) && #[trigger] in_m(m@, y, x) && d[y] < d[x],
            forall|y: Vx| #[trigger] done_u@.contains(y) || reach_u@.contains(y) ==> reached_by(g@, m@, done_m@, d, y),
            d.dom() == done_m@.union(reach_m@).union(done_u@).union(reach_u@),
        decreases du@.len() - k,
    {
        r.insert(du[k]);
        proof {
            assert(du@.subrange(0, k + 1) == du@.subrange(0, k as int).push(du@[k as int]));
            crate::graph::lemma_to_set_push(du@.subrange(0, k as int), du@[k as int]);
            assert(r@ =~= done_m@.union(du@.subrange(0, k + 1).to_set()));
        }
        k = k + 1;
    }
    proof {
        assert(du@.subrange(0, k as int) == du@);
        assert(r@ =~= done_m@.union(done_u@));
        assert(reach_m@ =~= Set::<Vx>::empty());
        assert(reach_u@ =~= Set::<Vx>::empty());
        assert forall|x: Vx| #[trigger] r@.contains(x) && l.contains(x) implies z@.contains(x)
            || exists|y: Vx| r@.contains(y) && !l.contains(y) && #[trigger] in_m(m@, y, x) by {
            assert(done_m@.contains(x));
            if !z@.contains(x) {
                let y = choose|y: Vx| done_u@.contains(y) && #[trigger] in_m(m@, y, x);
                assert(r@.contains(y) && !l.contains(y) && in_m(m@, y, x));
            }
        }
        assert forall|kk: int| 0 <= kk < z@.len() implies r@.contains(#[trigger] z@[kk]) by {
            assert(done_m@.contains(z@[kk]) || reach_m@.contains(z@[kk]));
        }
        assert forall|y: Vx| #[trigger] r@.contains(y) && !l.contains(y) implies exists|x: Vx| r@.contains(x) && l.contains(x)
            && #[trigger] has_edge(g@, x, y) && !in_m(m@, x, y) by {
            assert(done_u@.contains(y));
            assert(reached_by(g@, m@, done_m@, d, y));
            let x = choose|x: Vx| done_m@.contains(x) && #[trigger] has_edge(g@, x, y) && !in_m(m@, x, y) && d[x] < d[y];
            assert(r@.contains(x) && l.contains(x));
        }
        assert forall|x: Vx| #[trigger] r@.contains(x) && l.contains(x) implies z@.contains(x)
            || exists|y: Vx| r@.contains(y) && !l.contains(y) && #[trigger] in_m(m@, y, x) && d[y] < d[x] by {
            assert(done_m@.contains(x));
            if !z@.contains(x) {
                let y = choose|y: Vx| done_u@.contains(y) && #[trigger] in_m(m@, y, x) && d[y] < d[x];
                assert(r@.contains(y) && !l.contains(y));
            }
        }
        assert forall|y: Vx| #[trigger] r@.contains(y) && !l.contains(y) implies exists|x: Vx| r@.contains(x) && l.contains(x)
            && #[trigger] has_edge(g@, x, y) && !in_m(m@, x, y) && d[x] < d[y] by {
            assert(done_u@.contains(y));
            assert(reached_by(g@, m@, done_m@, d, y));
            let x = choose|x: Vx| done_m@.contains(x) && #[trigger] has_edge(g@, x, y) && !in_m(m@, x, y) && d[x] < d[y];
            assert(r@.contains(x) && l.contains(x));
        }
        assert(alt_ranked(g@, m@, l, z@, r@, d));
    }
    r
}

/// The vertices of `s` that have neighbours in `g`.
fn with_neighbours(g: &Graph, s: &IdSet) -> (r: IdSet)
    requires
        g.wf(),
        forall|x: Vx| #[trigger] s@.contains(x) ==> x < g.spec_n(),
    ensures
        r@ == s@.intersect(g@.dom()),
{
    let xs = s.elements();
    let mut r = IdSet::empty();
    let mut k: usize = 0;
    while k < xs.len()
        invariant
            g.wf(),
            k <= xs@.len(),
            xs@.to_set() == s@,
            forall|x: Vx| #[trigger] s@.contains(x) ==> x < g.spec_n(),
            r@ == xs@.subrange(0, k as int).to_set().intersect(g@.dom()),
        decreases xs@.len() - k,
    {
        let x = xs[k];
        proof {
            assert(xs@.to_set().contains(xs@[k as int]));
            assert(xs@.subrange(0, k + 1) == xs@.subrange(0, k as int).push(x));
            crate::graph::lemma_to_set_push(xs@.subrange(0, k as int), x);
        }
        if g.get_degree(x) > 0 {
            r.insert(x);
            proof {
                assert(nbrs(g@, x).len() > 0);
                assert(g@.dom().contains(x)) by {
                    if !g@.dom().contains(x) {
                        assert(nbrs(g@, x) =~= Set::<Vx>::empty());
                    }
                }
                assert(r@ =~= xs@.subrange(0, k + 1).to_set().intersect(g@.dom()));
            }
        } else {
            proof {
                g.lemma_simple();
                assert(!g@.dom().contains(x));
                assert(r@ =~= xs@.subrange(0, k + 1).to_set().intersect(g@.dom()));
            }
        }
        k = k + 1;
    }
    proof {
        assert(xs@.subrange(0, k as int) == xs@);
    }
    r
}

/// A minimum cover of the bipartite graph `g` between `l` and `r`, by
/// König's construction: with a maximum matching `M` of the vertices with
/// neighbours, and the set `Z` of vertices reached along alternating paths
/// from the unmatched left ones, the left vertices outside `Z` and the
/// right ones inside it. The result covers every edge.
fn minimum_vertex_cover_of_bip(g: &Graph, l: &IdSet, r: &IdSet) -> (k: IdSet)
    requires
        g.wf(),
        side_ok(g@, l@, g.spec_n()),
        forall|x: Vx| #[trigger] r@.contains(x) ==> x < g.spec_n(),
        forall|u: Vx, v: Vx| #[trigger] has_edge(g@, u, v) && l@.contains(u) ==> r@.contains(v),
    ensures
        forall|u: Vx, v: Vx| #[trigger] has_edge(g@, u, v) ==> k@.contains(u) || k@.contains(v),
        k@.subset_of(l@.union(r@)),
{
    proof {
        g.lemma_simple();
    }
    let l2 = with_neighbours(g, l);
    let r2 = with_neighbours(g, r);
    proof {
        assert(side_ok(g@, l2@, g.spec_n())) by {
            assert forall|u: Vx, v: Vx| #[trigger] has_edge(g@, u, v) implies (l2@.contains(u) != l2@.contains(v)) by {
                assert(l@.contains(u) != l@.contains(v));
                assert(has_edge(g@, v, u));
            }
        }
    }
    let m = max_matching_bipartite(g, &l2);
    let m_set = vertex_set_of_matching(&m);
    let lx = l2.elements();
    let mut u: Vec<Vx> = Vec::new();
    let mut t: usize = 0;
    while t < lx.len()
        invariant
            t <= lx@.len(),
            lx@.to_set() == l2@,
            forall|j: int| 0 <= j < u@.len() ==> l2@.contains(#[trigger] u@[j]) && !m_set@.contains(u@[j]),
        decreases lx@.len() - t,
    {
        let x = lx[t];
        proof {
            assert(lx@.to_set().contains(lx@[t as int]));
        }
        if !m_set.contains(x) {
            u.push(x);
        }
        t = t + 1;
    }
    proof {
        assert forall|j: int| 0 <= j < m@.len() implies has_edge(g@, (#[trigger] m@[j]).0, m@[j].1) by {}
    }
    let z = enrich_altpath(g, &u, &m, Ghost(l2@));
    let mut k = IdSet::empty();
    let mut t: usize = 0;
    while t < lx.len()
        invariant
            t <= lx@.len(),
            lx@.to_set() == l2@,
            forall|x: Vx| #[trigger] k@.contains(x) ==> l2@.contains(x) && !z@.contains(x),
            forall|j: int| 0 <= j < t ==> !z@.contains(#[trigger] lx@[j]) ==> k@.contains(lx@[j]),
        decreases lx@.len() - t,
    {
        let x = lx[t];
        proof {
            assert(lx@.to_set().contains(lx@[t as int]));
        }
        let ghost kb = k@;
        if !z.contains(x) {
            k.insert(x);
            proof {
                assert forall|w: Vx| #[trigger] k@.contains(w) implies l2@.contains(w) && !z@.contains(w) by {
                    if w != x {
                        assert(kb.contains(w));
                    }
                }
            }
        }
        proof {
            assert forall|j: int| 0 <= j < t + 1 implies !z@.contains(#[trigger] lx@[j]) ==> k@.contains(lx@[j]) by {
                if j < t && !z@.contains(lx@[j]) {
                    assert(kb.contains(lx@[j]));
                }
            }
        }
        t = t + 1;
    }
    proof {
        assert forall|x: Vx| l2@.contains(x) && !z@.contains(x) implies k@.contains(x) by {
            assert(lx@.to_set().contains(x));
            let j = choose|j: int| 0 <= j < lx@.len() && lx@[j] == x;
            assert(!z@.contains(lx@[j]) ==> k@.contains(lx@[j]));
        }
    }
    let rx = r2.elements();
    let mut t: usize = 0;
    while t < rx.len()
        invariant
            t <= rx@.len(),
            rx@.to_set() == r2@,
            forall|x: Vx| #[trigger] k@.contains(x) ==> (l2@.contains(x) && !z@.contains(x)) || (r2@.contains(x) && z@.contains(x)),
            forall|x: Vx| l2@.contains(x) && !z@.contains(x) ==> #[trigger] k@.contains(x),
            forall|j: int| 0 <= j < t ==> z@.contains(#[trigger] rx@[j]) ==> k@.contains(rx@[j]),
        decreases rx@.len() - t,
    {
        let x = rx[t];
        proof {
            assert(rx@.to_set().contains(rx@[t as int]));
        }
        let ghost kb = k@;
        if z.contains(x) {
            k.insert(x);
            proof {
                assert forall|w: Vx| #[trigger] k@.contains(w) implies (l2@.contains(w) && !z@.contains(w)) || (r2@.contains(w) && z@.contains(w)) by {
                    if w != x {
                        assert(kb.contains(w));
                    }
                }
            }
        }
        proof {
            assert forall|w: Vx| l2@.contains(w) && !z@.contains(w) implies #[trigger] k@.contains(w) by {
                assert(kb.contains(w));
            }
            assert forall|j: int| 0 <= j < t + 1 implies z@.contains(#[trigger] rx@[j]) ==> k@.contains(rx@[j]) by {
                if j < t && z@.contains(rx@[j]) {
                    assert(kb.contains(rx@[j]));
                }
            }
        }
        t = t + 1;
    }
    proof {
        assert forall|x: Vx| r2@.contains(x) && z@.contains(x) implies k@.contains(x) by {
            assert(rx@.to_set().contains(x));
            let j = choose|j: int| 0 <= j < rx@.len() && rx@[j] == x;
            assert(z@.contains(rx@[j]) ==> k@.contains(rx@[j]));
        }
        assert forall|a: Vx, b: Vx| #[trigger] has_edge(g@, a, b) implies k@.contains(a) || k@.contains(b) by {
            assert(has_edge(g@, b, a));
            let (x, y) = if l@.contains(a) { (a, b) } else { (b, a) };
            assert(l@.contains(x) && has_edge(g@, x, y));
            assert(l2@.contains(x));
            assert(!l@.contains(y));
            assert(r@.contains(y));
            assert(g@.dom().contains(y));
            assert(r2@.contains(y));
            assert(!l2@.contains(y));
            if z@.contains(x) {
                if !in_m(m@, x, y) {
                    assert(z@.contains(y));
                } else {
                    let k2 = choose|k2: int| 0 <= k2 < m@.len() && same_edge(#[trigger] m@[k2], x, y);
                    assert(m_set@.contains(x)) by {
                        assert(touches(m@[k2], x));
                    }
                    assert(!u@.contains(x));
                    let y2 = choose|y2: Vx| z@.contains(y2) && !l2@.contains(y2) && #[trigger] in_m(m@, y2, x);
                    let k1 = choose|k1: int| 0 <= k1 < m@.len() && same_edge(#[trigger] m@[k1], y2, x);
                    assert(left_end(m@[k1], l2@) == x);
                    assert(left_end(m@[k2], l2@) == x);
                    if k1 < k2 {
                        assert(left_end(m@[k1], l2@) != left_end(m@[k2], l2@));
                    } else if k2 < k1 {
                        assert(left_end(m@[k2], l2@) != left_end(m@[k1], l2@));
                    }
                    assert(y2 == y);
                }
            }
        }
    }
    k
}

/// One crown step from `a` to `b`: the vertices of `hs` join the solution,
/// then those of `is` leave the graph; both lie in the graph of `a`, and
/// every neighbour of a vertex of `is` is in `hs`.
pub open spec fn crown_step(a: &State, b: &State, hs: Seq<Vx>, is: Set<Vx>) -> bool {
    &&& b.solution@ == a.solution@ + hs
    &&& b.graph@ == without_set(without_set(a.graph@, hs.to_set()), is)
    &&& hs.to_set().subset_of(a.graph@.dom())
    &&& is.subset_of(a.graph@.dom())
    &&& forall|v: Vx, w: Vx| is.contains(v) && #[trigger] has_edge(a.graph@, v, w) ==> hs.to_set().contains(w)
}

/// `hs` and `is` are vertices of `g`, and every neighbour of a vertex of
/// `is` lies in `hs`.
pub open spec fn crown_pair(g: Map<Vx, Set<Vx>>, hs: Set<Vx>, is: Set<Vx>) -> bool {
    &&& hs.subset_of(g.dom())
    &&& is.subset_of(g.dom())
    &&& forall|v: Vx, w: Vx| is.contains(v) && #[trigger] has_edge(g, v, w) ==> hs.contains(w)
}

impl Idea for Crown {
    open spec fn inv(&self, n: nat) -> bool {
        true
    }

    open spec fn pending(&self, dirty: Set<Vx>) -> bool {
        dirty.len() > 0
    }

    fn new(g: &Graph) -> (r: Self) {
        Crown
    }

    fn priority(&self, state: &State, dirty: &IdSet) -> (r: usize)
        ensures
            r == (if dirty@.len() > 0 { 2usize } else { 0 }),
    {
        if dirty.len() == 0 {
            return 0;
        }
        2
    }

    fn apply(&mut self, state: &mut State, dirty: &IdSet) -> (r: Option<()>)
        ensures
            r is Some ==> progressed(old(state), final(state)) || unchanged(old(state), final(state)),
            r is Some ==> exists|hs: Seq<Vx>, is: Set<Vx>| #[trigger] crown_step(old(state), final(state), hs, is),
            r is None ==> exists|hs: Set<Vx>, is: Set<Vx>| #[trigger] crown_pair(old(state).graph@, hs, is)
                && !takes_set(old(state), hs),
            final(state).cleanup_funcs == old(state).cleanup_funcs,
            crate::state::cover_safe(old(state), final(state)),
    {
        let ghost s0 = *state;
        let ghost g0 = state.graph@;
        proof {
            state.graph.lemma_simple();
        }
        let matching = get_maximal_matching(&state.graph);
        let a = vertex_set_of_matching(&matching);
        let vs = state.graph.vertices();
        let mut b = IdSet::empty();
        let mut t: usize = 0;
        while t < vs.len()
            invariant
                t <= vs@.len(),
                vs@.to_set() == g0.dom(),
                forall|x: Vx| #[trigger] b@.contains(x) ==> g0.dom().contains(x) && !a@.contains(x),
                forall|j: int| 0 <= j < t ==> !a@.contains(#[trigger] vs@[j]) ==> b@.contains(vs@[j]),
            decreases vs@.len() - t,
        {
            let v = vs[t];
            proof {
                assert(vs@.to_set().contains(vs@[t as int]));
            }
            let ghost bb = b@;
            if !a.contains(v) {
                b.insert(v);
                proof {
                    assert forall|w: Vx| #[trigger] b@.contains(w) implies g0.dom().contains(w) && !a@.contains(w) by {
                        if w != v {
                            assert(bb.contains(w));
                        }
                    }
                }
            }
            proof {
                assert forall|j: int| 0 <= j < t + 1 implies !a@.contains(#[trigger] vs@[j]) ==> b@.contains(vs@[j]) by {
                    if j < t && !a@.contains(vs@[j]) {
                        assert(bb.contains(vs@[j]));
                    }
                }
            }
            t = t + 1;
        }
        proof {
            assert forall|x: Vx| g0.dom().contains(x) && !a@.contains(x) implies b@.contains(x) by {
                assert(vs@.to_set().contains(x));
                let j = choose|j: int| 0 <= j < vs@.len() && vs@[j] == x;
                assert(!a@.contains(vs@[j]) ==> b@.contains(vs@[j]));
            }
        }
        let es = state.graph.edges();
        let mut cross: Vec<Edge> = Vec::new();
        let mut t: usize = 0;
        while t < es.len()
            invariant
                t <= es@.len(),
                forall|i: int| 0 <= i < es@.len() ==> es@[i].0 < es@[i].1 && has_edge(g0, es@[i].0, es@[i].1),
                forall|i: int| 0 <= i < cross@.len() ==> has_edge(g0, (#[trigger] cross@[i]).0, cross@[i].1)
                    && a@.contains(cross@[i].0) != a@.contains(cross@[i].1) && cross@[i].0 != cross@[i].1,
                forall|j: int| 0 <= j < t ==> a@.contains((#[trigger] es@[j]).0) != a@.contains(es@[j].1) ==> cross@.contains(es@[j]),
            decreases es@.len() - t,
        {
            let e = es[t];
            let ghost cb = cross@;
            if a.contains(e.0) != a.contains(e.1) {
                cross.push(e);
                proof {
                    assert(cross@[cross@.len() - 1] == e);
                }
            }
            proof {
                assert forall|j: int| 0 <= j < t + 1 implies a@.contains((#[trigger] es@[j]).0) != a@.contains(es@[j].1) ==> cross@.contains(es@[j]) by {
                    if j < t && a@.contains(es@[j].0) != a@.contains(es@[j].1) {
                        assert(cb.contains(es@[j]));
                        let i = choose|i: int| 0 <= i < cb.len() && cb[i] == es@[j];
                        assert(cross@[i] == cb[i]);
                    }
                    if j == t && a@.contains(es@[j].0) != a@.contains(es@[j].1) {
                        assert(cross@[cross@.len() - 1] == es@[j]);
                    }
                }
            }
            t = t + 1;
        }
        let n = state.graph.n();
        proof {
            assert forall|i: int| 0 <= i < cross.len() implies cross[i].0 < n && cross[i].1 < n && cross[i].0 != cross[i].1 by {
                assert(has_edge(g0, cross@[i].0, cross@[i].1));
            }
        }
        let g = Graph::new(n, cross);
        proof {
            assert forall|u: Vx, v: Vx| #[trigger] has_edge(g@, u, v) implies has_edge(g0, u, v) && a@.contains(u) != a@.contains(v) by {
                assert(lists_edge(cross@, u, v));
                let i = choose|i: int| 0 <= i < cross@.len() && (cross@[i] == (u, v) || cross@[i] == (v, u));
                assert(has_edge(g0, cross@[i].0, cross@[i].1));
            }
            assert forall|x: Vx| #[trigger] a@.contains(x) implies x < g.spec_n() by {
                let k = choose|k: int| 0 <= k < matching@.len() && touches(#[trigger] matching@[k], x);
                assert(has_edge(g0, matching@[k].0, matching@[k].1));
            }
            assert(side_ok(g@, a@, g.spec_n()));
            assert forall|u: Vx, v: Vx| #[trigger] has_edge(g@, u, v) && a@.contains(u) implies b@.contains(v) by {
                assert(has_edge(g0, u, v));
            }
        }
        let x = minimum_vertex_cover_of_bip(&g, &a, &b);
        let ax_elems = a.elements();
        let mut ax = IdSet::empty();
        let mut t: usize = 0;
        while t < ax_elems.len()
            invariant
                t <= ax_elems@.len(),
                ax_elems@.to_set() == a@,
                ax@ == ax_elems@.subrange(0, t as int).to_set().intersect(x@),
            decreases ax_elems@.len() - t,
        {
            let v = ax_elems[t];
            proof {
                assert(ax_elems@.subrange(0, t + 1) == ax_elems@.subrange(0, t as int).push(v));
                crate::graph::lemma_to_set_push(ax_elems@.subrange(0, t as int), v);
            }
            if x.contains(v) {
                ax.insert(v);
            }
            proof {
                assert(ax@ =~= ax_elems@.subrange(0, t + 1).to_set().intersect(x@));
            }
            t = t + 1;
        }
        proof {
            assert(ax_elems@.subrange(0, t as int) == ax_elems@);
        }
        let be = b.elements();
        let mut b0 = IdSet::empty();
        let mut t: usize = 0;
        while t < be.len()
            invariant
                t <= be@.len(),
                be@.to_set() == b@,
                b0@ == be@.subrange(0, t as int).to_set().difference(x@),
            decreases be@.len() - t,
        {
            let v = be[t];
            proof {
                assert(be@.subrange(0, t + 1) == be@.subrange(0, t as int).push(v));
                crate::graph::lemma_to_set_push(be@.subrange(0, t as int), v);
            }
            if !x.contains(v) {
                b0.insert(v);
            }
            proof {
                assert(b0@ =~= be@.subrange(0, t + 1).to_set().difference(x@));
            }
            t = t + 1;
        }
        proof {
            assert(be@.subrange(0, t as int) == be@);
        }
        let h = ax.elements();
        let i = b0.elements();
        proof {
            assert(h@.to_set() == a@.intersect(x@));
            assert forall|k: int| 0 <= k < h@.len() implies h@[k] < state.graph.spec_n() by {
                assert(h@.to_set().contains(h@[k]));
                assert(a@.contains(h@[k]));
            }
            assert forall|k: int| 0 <= k < i@.len() implies i@[k] < state.graph.spec_n() by {
                assert(i@.to_set().contains(i@[k]));
                assert(b@.contains(i@[k]));
            }
        }
        let ghost hs = h@;
        let ghost is = i@.to_set();
        proof {
            assert(hs.to_set().subset_of(g0.dom())) by {
                assert forall|v: Vx| hs.to_set().contains(v) implies g0.dom().contains(v) by {
                    assert(a@.contains(v));
                    let k = choose|k: int| 0 <= k < matching@.len() && touches(#[trigger] matching@[k], v);
                    assert(has_edge(g0, matching@[k].0, matching@[k].1));
                    assert(has_edge(g0, matching@[k].1, matching@[k].0));
                }
            }
            assert(is.subset_of(g0.dom()));
            assert forall|v: Vx, w: Vx| is.contains(v) && #[trigger] has_edge(g0, v, w) implies hs.to_set().contains(w) by {
                assert(b@.contains(v));
                assert(!a@.contains(v));
                assert(endpoints(matching@).contains(v) || endpoints(matching@).contains(w));
                assert(a@.contains(w));
                assert(v < w || w < v);
                if v < w {
                    assert(es@.contains((v, w)));
                    let j = choose|j: int| 0 <= j < es@.len() && es@[j] == (v, w);
                    assert(a@.contains(es@[j].0) != a@.contains(es@[j].1));
                    assert(cross@.contains(es@[j]));
                    let c = choose|c: int| 0 <= c < cross@.len() && cross@[c] == es@[j];
                    assert(lists_edge(cross@, v, w));
                } else {
                    assert(has_edge(g0, w, v));
                    assert(es@.contains((w, v)));
                    let j = choose|j: int| 0 <= j < es@.len() && es@[j] == (w, v);
                    assert(a@.contains(es@[j].0) != a@.contains(es@[j].1));
                    assert(cross@.contains(es@[j]));
                    let c = choose|c: int| 0 <= c < cross@.len() && cross@[c] == es@[j];
                    assert(lists_edge(cross@, v, w));
                }
                assert(has_edge(g@, v, w));
                assert(!x@.contains(v));
                assert(x@.contains(w));
            }
            assert(crown_pair(g0, hs.to_set(), is));
            lemma_takes_set(&s0, hs);
        }
        let r1 = state.extend_solution(h);
        if r1.is_none() {
            return None;
        }
        let ghost s1 = *state;
        proof {
            assert forall|k: int| 0 <= k < i@.len() implies i@[k] < state.graph.spec_n() by {
                assert(i@.to_set().contains(i@[k]));
                assert(b@.contains(i@[k]));
            }
        }
        state.remove_vertices(i);
        proof {
            lemma_reduced_trans(&s0, &s1, state);
            assert(crown_step(&s0, state, hs, is));
            assert forall|v: Vx| #[trigger] is.contains(v) implies !s1.graph@.dom().contains(v) by {
                if s1.graph@.dom().contains(v) {
                    assert(g0[v].difference(hs.to_set()) =~= Set::<Vx>::empty()) by {
                        assert forall|w: Vx| g0[v].contains(w) implies hs.to_set().contains(w) by {
                            assert(has_edge(g0, v, w));
                        }
                    }
                }
            }
            s1.graph.lemma_simple();
            crate::graph::lemma_without_absent(s1.graph@, s1.graph.spec_n(), is);
            crate::state::lemma_cover_safe_same(&s1, state);
            crate::state::lemma_cover_safe_trans(&s0, &s1, state);
            if hs.len() == 0 && i@.len() == 0 {
                assert(hs.to_set() =~= Set::<Vx>::empty());
                assert(i@.to_set() =~= Set::<Vx>::empty());
                crate::graph::lemma_without_set_insert(g0, s0.graph.spec_n(), Set::empty(), 0);
                assert(crate::graph::neighbourhood(g0, Set::<Vx>::empty()) =~= Set::<Vx>::empty());
                assert(state.graph@.dom() =~= g0.dom());
                assert forall|j: int| 0 <= j < s0.dirty@.len() implies (#[trigger] state.dirty@[j])@ == s0.dirty@[j]@ by {
                    assert(s0.dirty@[j]@.union(Set::<Vx>::empty().union(Set::<Vx>::empty())) =~= s0.dirty@[j]@);
                    assert(s1.dirty@[j]@.union(Set::<Vx>::empty().union(Set::<Vx>::empty())) =~= s1.dirty@[j]@);
                }
                assert(unchanged(&s0, state));
            } else if hs.len() == 0 {
                assert(i@.to_set().contains(i@[0]));
                assert(hs.to_set() =~= Set::<Vx>::empty());
                crate::graph::lemma_without_set_insert(g0, s0.graph.spec_n(), Set::empty(), 0);
                assert(s1.graph@.dom().contains(i@[0]));
                assert(progressed(&s1, state));
            }
        }
        Some(())
    }
}

} // verus!
