//! Splitting a graph into its connected components.

use vstd::prelude::*;
use crate::idset::IdSet;
use crate::graph::{Vx, Graph, has_edge, nbrs, without_set, without_vertex, simple_graph, lemma_without_set_insert, lemma_nbrs_without_set, lemma_bounded_set_len};

verus! {

/// `comps` split the vertices of `g` into non-empty parts, none of which
/// has an edge to another.
pub open spec fn is_component_split(g: Map<Vx, Set<Vx>>, comps: Seq<Set<Vx>>) -> bool {
    &&& forall|i: int| 0 <= i < comps.len() ==> (#[trigger] comps[i]).len() > 0 && comps[i].finite()
    &&& forall|i: int, v: Vx| 0 <= i < comps.len() && #[trigger] comps[i].contains(v) ==> g.dom().contains(v)
    &&& forall|v: Vx| g.dom().contains(v) ==> exists|i: int| 0 <= i < comps.len() && #[trigger] comps[i].contains(v)
    &&& forall|i: int, j: int, v: Vx| 0 <= i < comps.len() && 0 <= j < comps.len() && i != j && #[trigger] comps[i].contains(v) ==> !#[trigger] comps[j].contains(v)
    &&& forall|i: int, v: Vx, w: Vx| 0 <= i < comps.len() && #[trigger] comps[i].contains(v) && #[trigger] has_edge(g, v, w) ==> comps[i].contains(w)
}

/// `p` is a walk of `g`: one or more vertices, each adjacent to the next.
pub open spec fn is_walk(g: Map<Vx, Set<Vx>>, p: Seq<Vx>) -> bool {
    &&& p.len() > 0
    &&& forall|i: int| #![trigger p[i]] 0 <= i < p.len() - 1 ==> has_edge(g, p[i], p[i + 1])
}

/// A walk of `g` leads from `u` to `w`.
pub open spec fn joined(g: Map<Vx, Set<Vx>>, u: Vx, w: Vx) -> bool {
    exists|p: Seq<Vx>| #[trigger] is_walk(g, p) && p[0] == u && p.last() == w
}

/// Each part of `comps` is connected in `g`.
pub open spec fn connected_parts(g: Map<Vx, Set<Vx>>, comps: Seq<Set<Vx>>) -> bool {
    forall|i: int, u: Vx, w: Vx| 0 <= i < comps.len() && #[trigger] comps[i].contains(u) && #[trigger] comps[i].contains(w)
        ==> joined(g, u, w)
}

/// Every vertex is joined to itself.
pub proof fn lemma_joined_refl(g: Map<Vx, Set<Vx>>, u: Vx)
    ensures
        joined(g, u, u),
{
    let p = seq![u];
    assert(is_walk(g, p));
}

/// A walk to `v` goes on along an edge to `w`.
pub proof fn lemma_joined_step(g: Map<Vx, Set<Vx>>, u: Vx, v: Vx, w: Vx)
    requires
        joined(g, u, v),
        has_edge(g, v, w),
    ensures
        joined(g, u, w),
{
    let p = choose|p: Seq<Vx>| #[trigger] is_walk(g, p) && p[0] == u && p.last() == v;
    let q = p.push(w);
    assert forall|i: int| 0 <= i < q.len() - 1 implies has_edge(g, #[trigger] q[i], q[i + 1]) by {
        if i < p.len() - 1 {
            assert(q[i] == p[i] && q[i + 1] == p[i + 1]);
        }
    }
    assert(is_walk(g, q));
}

/// In a graph whose edges go both ways, a walk from `u` to `v` gives one
/// back from `v` to `u`.
pub proof fn lemma_joined_sym(g: Map<Vx, Set<Vx>>, u: Vx, v: Vx)
    requires
        joined(g, u, v),
        forall|a: Vx, b: Vx| #[trigger] has_edge(g, a, b) ==> has_edge(g, b, a),
    ensures
        joined(g, v, u),
{
    let p = choose|p: Seq<Vx>| #[trigger] is_walk(g, p) && p[0] == u && p.last() == v;
    let q = p.reverse();
    assert forall|i: int| 0 <= i < q.len() - 1 implies has_edge(g, #[trigger] q[i], q[i + 1]) by {
        let j = p.len() - 2 - i;
        assert(q[i] == p[j + 1] && q[i + 1] == p[j]);
        assert(has_edge(g, p[j], p[j + 1]));
    }
    assert(is_walk(g, q));
}

/// Walks from `u` to `v` and from `v` to `w` make one from `u` to `w`.
pub proof fn lemma_joined_trans(g: Map<Vx, Set<Vx>>, u: Vx, v: Vx, w: Vx)
    requires
        joined(g, u, v),
        joined(g, v, w),
    ensures
        joined(g, u, w),
{
    let p = choose|p: Seq<Vx>| #[trigger] is_walk(g, p) && p[0] == u && p.last() == v;
    let q = choose|q: Seq<Vx>| #[trigger] is_walk(g, q) && q[0] == v && q.last() == w;
    let r = p + q.subrange(1, q.len() as int);
    assert forall|i: int| 0 <= i < r.len() - 1 implies has_edge(g, #[trigger] r[i], r[i + 1]) by {
        if i < p.len() - 1 {
            assert(r[i] == p[i] && r[i + 1] == p[i + 1]);
        } else if i == p.len() - 1 {
            assert(r[i] == v && q[0] == v);
            assert(r[i + 1] == q[1]);
            assert(has_edge(g, q[0], q[1]));
        } else {
            let j = i - p.len() + 1;
            assert(r[i] == q[j] && r[i + 1] == q[j + 1]);
        }
    }
    assert(is_walk(g, r));
    if q.len() == 1 {
        assert(r.last() == p.last());
    } else {
        assert(r.last() == q.last());
    }
}

/// What each set of a sequence holds.
pub open spec fn views(v: Seq<IdSet>) -> Seq<Set<Vx>> {
    v.map_values(|c: IdSet| c@)
}

/// The union of the first `k` parts.
pub open spec fn covered(comps: Seq<Set<Vx>>, k: int) -> Set<Vx> {
    Set::new(|v: Vx| exists|i: int| 0 <= i < k && #[trigger] comps[i].contains(v))
}

impl Graph {
    /// The connected components of the graph, as vertex sets.
    pub fn get_components(&self) -> (r: Vec<IdSet>)
        requires
            self.wf(),
        ensures
            is_component_split(self@, views(r@)),
            connected_parts(self@, views(r@)),
    {
        let ghost g0 = self@;
        let nn = self.n();
        let ghost n = self.spec_n();
        proof {
            self.lemma_simple();
            lemma_without_set_insert(g0, n, Set::empty(), 0);
        }
        let mut g = self.clone();
        let mut v: Vec<IdSet> = Vec::new();
        let ghost mut done: Set<Vx> = Set::empty();
        while !g.is_empty()
            invariant
                g.wf(),
                g.spec_n() == n,
                simple_graph(g0, n),
                g0 == self@,
                done.subset_of(g0.dom()),
                g@ == without_set(g0, done),
                done == covered(views(v@), v@.len() as int),
                nn == n,
                forall|i: int| 0 <= i < v@.len() ==> (#[trigger] v@[i])@.len() > 0 && v@[i]@.finite(),
                forall|i: int, j: int, x: Vx| 0 <= i < v@.len() && 0 <= j < v@.len() && i != j && #[trigger] v@[i]@.contains(x) ==> !#[trigger] v@[j]@.contains(x),
                forall|i: int, x: Vx, w: Vx| 0 <= i < v@.len() && #[trigger] v@[i]@.contains(x) && #[trigger] has_edge(g0, x, w) ==> v@[i]@.contains(w),
                forall|i: int, a: Vx, b: Vx| 0 <= i < v@.len() && #[trigger] v@[i]@.contains(a) && #[trigger] v@[i]@.contains(b) ==> joined(g0, a, b),
            decreases g0.dom().difference(done).len(),
        {
            let vs = g.vertices();
            proof {
                assert(vs@.to_set().contains(vs@[0])) by {
                    if vs@.len() == 0 {
                        assert(vs@.to_set() =~= Set::<Vx>::empty());
                    }
                }
            }
            let x = vs[0];
            let ghost d0 = done;
            proof {
                assert(without_set(g0, done).dom().contains(x));
            }
            let ghost g_outer = g@;
            let mut current = IdSet::empty();
            let mut unchecked = IdSet::empty();
            unchecked.insert(x);
            proof {
                assert(d0.union(current@) =~= d0);
                lemma_joined_refl(g0, x);
            }
            loop
                invariant
                    g.wf(),
                    g.spec_n() == n,
                    simple_graph(g0, n),
                    g0 == self@,
                    d0.subset_of(g0.dom()),
                    done == d0.union(current@),
                    d0.disjoint(current@),
                    g@ == without_set(g0, done),
                    current@.contains(x) || unchecked@.contains(x),
                    unchecked@.subset_of(g0.dom()),
                    unchecked@.disjoint(done),
                    current@.subset_of(g0.dom()),
                    forall|a: Vx, w: Vx| #[trigger] current@.contains(a) && #[trigger] has_edge(g0, a, w) ==> done.contains(w) || unchecked@.contains(w),
                    forall|i: int| 0 <= i < v@.len() ==> (#[trigger] v@[i])@.len() > 0 && v@[i]@.finite(),
                    forall|i: int, j: int, z: Vx| 0 <= i < v@.len() && 0 <= j < v@.len() && i != j && #[trigger] v@[i]@.contains(z) ==> !#[trigger] v@[j]@.contains(z),
                    forall|i: int, a: Vx, w: Vx| 0 <= i < v@.len() && #[trigger] v@[i]@.contains(a) && #[trigger] has_edge(g0, a, w) ==> v@[i]@.contains(w),
                    forall|i: int, a: Vx, b: Vx| 0 <= i < v@.len() && #[trigger] v@[i]@.contains(a) && #[trigger] v@[i]@.contains(b) ==> joined(g0, a, b),
                    forall|z: Vx| #[trigger] current@.contains(z) ==> joined(g0, x, z),
                    forall|z: Vx| #[trigger] unchecked@.contains(z) ==> joined(g0, x, z),
                    d0 == covered(views(v@), v@.len() as int),
                    nn == n,
                    g0.dom().difference(done).len() <= g0.dom().difference(d0).len(),
                    current@.contains(x) ==> g0.dom().difference(done).len() < g0.dom().difference(d0).len(),
                ensures
                    unchecked@ == Set::<Vx>::empty(),
                decreases g0.dom().difference(done).len(),
            {
                let y = match unchecked.some_element() {
                    Some(y) => y,
                    None => {
                        break;
                    },
                };
                let ghost u0 = unchecked@;
                let ghost before = done;
                let nb = g.rm_vertex(y);
                proof {
                    lemma_without_set_insert(g0, n, done, y);
                    lemma_nbrs_without_set(g0, n, done, y);
                    assert(!done.contains(y));
                    assert(nb@ == nbrs(g0, y).difference(done));
                    lemma_bounded_set_len(g0.dom(), nn);
                    g0.dom().lemma_set_insert_diff_decreases(done, y);
                    done = done.insert(y);
                }
                proof {
                    assert forall|w: Vx| #[trigger] nb@.contains(w) implies joined(g0, x, w) by {
                        assert(g0[y].contains(w));
                        lemma_joined_step(g0, x, y, w);
                    }
                }
                let es = nb.elements();
                let mut k: usize = 0;
                while k < es.len()
                    invariant
                        k <= es@.len(),
                        es@.to_set() == nb@,
                        unchecked@ == u0.union(es@.subrange(0, k as int).to_set()),
                        forall|w: Vx| #[trigger] nb@.contains(w) ==> joined(g0, x, w),
                        forall|z: Vx| #[trigger] u0.contains(z) ==> joined(g0, x, z),
                    decreases es@.len() - k,
                {
                    let w = es[k];
                    proof {
                        assert(es@.subrange(0, k + 1) == es@.subrange(0, k as int).push(w));
                        crate::graph::lemma_to_set_push(es@.subrange(0, k as int), w);
                    }
                    unchecked.insert(w);
                    proof {
                        assert(unchecked@ =~= u0.union(es@.subrange(0, k + 1).to_set()));
                    }
                    k = k + 1;
                }
                proof {
                    assert(es@.subrange(0, k as int) == es@);
                }
                unchecked.remove(y);
                current.insert(y);
                proof {
                    assert(unchecked@ =~= u0.union(nb@).remove(y));
                    assert(done =~= d0.union(current@));
                    assert forall|w: Vx| nb@.contains(w) implies g0.dom().contains(w) by {
                        assert(g0[y].contains(w));
                    }
                    assert forall|a: Vx, w: Vx| #[trigger] current@.contains(a) && #[trigger] has_edge(g0, a, w) implies done.contains(w) || unchecked@.contains(w) by {
                        if a == y {
                            assert(nbrs(g0, y).contains(w));
                            assert(w != y);
                        }
                    }
                    assert forall|z: Vx| #[trigger] unchecked@.contains(z) implies joined(g0, x, z) by {
                        assert(u0.contains(z) || nb@.contains(z));
                    }
                    assert forall|z: Vx| #[trigger] current@.contains(z) implies joined(g0, x, z) by {
                        if z == y {
                            assert(u0.contains(y));
                        }
                    }
                }
            }
            proof {
                assert(unchecked@ =~= Set::<Vx>::empty());
                assert(current@.contains(x));
                assert forall|z: Vx| current@.contains(z) implies z < nn by {
                    assert(g0.dom().contains(z));
                }
                lemma_bounded_set_len(current@, nn);
                crate::graph::lemma_contains_len(current@, x);
            }
            let ghost vprev = v@;
            v.push(current);
            proof {
                let cs = views(v@);
                let last = vprev.len() as int;
                assert(cs[last] == current@);
                assert forall|a: Vx, w: Vx| #[trigger] current@.contains(a) && #[trigger] has_edge(g0, a, w) implies current@.contains(w) by {
                    if d0.contains(w) {
                        let i = choose|i: int| 0 <= i < vprev.len() && #[trigger] views(vprev)[i].contains(w);
                        assert(vprev[i]@.contains(w));
                        assert(has_edge(g0, w, a));
                        assert(vprev[i]@.contains(a));
                        assert(d0.contains(a)) by {
                            assert(views(vprev)[i].contains(a));
                        }
                    }
                }
                assert forall|i: int| 0 <= i < v@.len() implies (#[trigger] v@[i])@.len() > 0 && v@[i]@.finite() by {
                    if i < last {
                        assert(v@[i] == vprev[i]);
                    } else {
                        assert(current@.len() > 0);
                    }
                }
                assert forall|i: int, j: int, z: Vx| 0 <= i < v@.len() && 0 <= j < v@.len() && i != j && #[trigger] v@[i]@.contains(z) implies !#[trigger] v@[j]@.contains(z) by {
                    if i < last && j < last {
                        assert(v@[i] == vprev[i] && v@[j] == vprev[j]);
                    } else if i == last {
                        assert(v@[j] == vprev[j]);
                        if vprev[j]@.contains(z) {
                            assert(views(vprev)[j].contains(z));
                            assert(d0.contains(z));
                        }
                    } else {
                        assert(v@[i] == vprev[i]);
                        assert(views(vprev)[i].contains(z));
                        assert(d0.contains(z));
                    }
                }
                assert forall|i: int, a: Vx, w: Vx| 0 <= i < v@.len() && #[trigger] v@[i]@.contains(a) && #[trigger] has_edge(g0, a, w) implies v@[i]@.contains(w) by {
                    if i < last {
                        assert(v@[i] == vprev[i]);
                    }
                }
                assert forall|i: int, a: Vx, b: Vx| 0 <= i < v@.len() && #[trigger] v@[i]@.contains(a) && #[trigger] v@[i]@.contains(b) implies joined(g0, a, b) by {
                    if i < last {
                        assert(v@[i] == vprev[i]);
                    } else {
                        assert(joined(g0, x, a) && joined(g0, x, b));
                        lemma_joined_sym(g0, x, a);
                        lemma_joined_trans(g0, a, x, b);
                    }
                }
                assert forall|z: Vx| done.contains(z) <==> covered(cs, v@.len() as int).contains(z) by {
                    if done.contains(z) {
                        if current@.contains(z) {
                            assert(cs[last].contains(z));
                        } else {
                            assert(d0.contains(z));
                            let i = choose|i: int| 0 <= i < vprev.len() && #[trigger] views(vprev)[i].contains(z);
                            assert(cs[i] == views(vprev)[i]);
                        }
                    }
                    if covered(cs, v@.len() as int).contains(z) {
                        let i = choose|i: int| 0 <= i < v@.len() && #[trigger] cs[i].contains(z);
                        if i < last {
                            assert(views(vprev)[i] == cs[i]);
                            assert(covered(views(vprev), last).contains(z));
                        }
                    }
                }
                assert(done =~= covered(cs, v@.len() as int));
            }
        }
        proof {
            let cs = views(v@);
            assert forall|z: Vx| g0.dom().contains(z) implies done.contains(z) by {
                if !done.contains(z) {
                    assert(!without_set(g0, done).dom().contains(z));
                    assert(g0[z].difference(done).len() == 0);
                    g0[z].difference(done).lemma_len0_is_empty();
                    let w = g0[z].choose();
                    assert(g0[z].contains(w)) by {
                        if !g0[z].contains(w) {
                            assert(g0[z] =~= Set::<Vx>::empty());
                        }
                    }
                    assert(!g0[z].difference(done).contains(w));
                    assert(done.contains(w));
                    let i = choose|i: int| 0 <= i < v@.len() && #[trigger] cs[i].contains(w);
                    assert(v@[i]@.contains(w));
                    assert(has_edge(g0, w, z));
                    assert(v@[i]@.contains(z));
                    assert(cs[i].contains(z));
                }
            }
            assert forall|z: Vx| g0.dom().contains(z) implies exists|i: int| 0 <= i < cs.len() && #[trigger] cs[i].contains(z) by {
                assert(done.contains(z));
            }
            assert forall|i: int, z: Vx| 0 <= i < cs.len() && #[trigger] cs[i].contains(z) implies g0.dom().contains(z) by {
                assert(covered(cs, v@.len() as int).contains(z));
            }
            assert forall|i: int, a: Vx, b: Vx| 0 <= i < cs.len() && #[trigger] cs[i].contains(a) && #[trigger] cs[i].contains(b)
                implies joined(g0, a, b) by {
                assert(v@[i]@.contains(a) && v@[i]@.contains(b));
            }
        }
        v
    }
}

} // verus!
