//! The two-clique reduction: where the neighbourhood of `x` splits into a
//! part `C1` whose vertices each miss exactly one vertex of the rest, and
//! a clique `C2` of those missed vertices, at least as large as `C1`,
//! each vertex of `C1` takes over the neighbours of the vertex it misses,
//! `x` leaves the graph, `C2` joins the solution, and an undo step settles
//! `x` at the end.

use vstd::prelude::*;
use vstd::set_lib::*;
use crate::idset::IdSet;
use crate::graph::{Vx, Graph, nbrs, has_edge, with_edge, simple_graph, lemma_bounded_set_len, lemma_to_set_push,
    lemma_with_edge_edges, lemma_without_vertex_edges};
use crate::state::{takes, takes_set, lemma_takes_set, hits, fingers, lemma_hits_push, lemma_hits_prefix, State, reduced, progressed, unchanged, lemma_reduced_refl, lemma_reduced_trans};
use crate::cleanup::{Cleanup, position};
use crate::idea::Idea;
use crate::state::{is_vertex_cover, fingers_cleared, cover_within};

verus! {

/// The two-clique rule; it keeps the vertices it has still to look at.
pub struct TwoClique(pub IdSet);

/// The neighbours of `v` other than `x` that `x` is not adjacent to.
pub open spec fn non_nbrs(g: Map<Vx, Set<Vx>>, v: Vx, x: Vx) -> Set<Vx> {
    nbrs(g, v).filter(|w: Vx| w != x && !has_edge(g, x, w))
}

/// `(c1, c2, pairs)` splits the neighbourhood of `v`: `c1` and `c2` are
/// disjoint sets that together hold the neighbours of `v`, `c2` is a clique at most as large
/// as `c1`, and `pairs` lists each vertex `c` of `c1` once, with the only
/// neighbour `s` of `v` that `c` misses, which lies in `c2`.
pub open spec fn split_ok(g: Map<Vx, Set<Vx>>, v: Vx, c1: Set<Vx>, c2: Set<Vx>, pairs: Seq<(Vx, Vx)>) -> bool {
    &&& c1.subset_of(nbrs(g, v))
    &&& c2.subset_of(nbrs(g, v))
    &&& forall|w: Vx| #[trigger] nbrs(g, v).contains(w) ==> c1.contains(w) || c2.contains(w)
    &&& c1.disjoint(c2)
    &&& c2.len() <= c1.len()
    &&& forall|a: Vx, b: Vx| c2.contains(a) && c2.contains(b) && a != b ==> #[trigger] has_edge(g, a, b)
    &&& forall|k: int| 0 <= k < pairs.len() ==> {
        &&& c1.contains((#[trigger] pairs[k]).0)
        &&& c2.contains(pairs[k].1)
        &&& non_nbrs(g, v, pairs[k].0) == set![pairs[k].1]
    }
    &&& forall|a: int, b: int| 0 <= a < b < pairs.len() ==> (#[trigger] pairs[a]).0 != (#[trigger] pairs[b]).0
    &&& forall|c: Vx| c1.contains(c) ==> exists|k: int| 0 <= k < pairs.len() && (#[trigger] pairs[k]).0 == c
}

/// The two-clique step at `x` in `m`, with the split `c1`, `c2`, `pairs`,
/// puts `c2` into a solution that cannot take it.
pub open spec fn two_clique_refused(m: &State, x: Vx, c1: Set<Vx>, c2: Set<Vx>, pairs: Seq<(Vx, Vx)>) -> bool {
    &&& m.graph@.dom().contains(x)
    &&& split_ok(m.graph@, x, c1, c2, pairs)
    &&& !takes_set(m, c2)
}

/// `c1` and `c2` split the neighbours of `v`, and each vertex of `c1`
/// misses exactly one other neighbour of `v`, which lies in `c2`.
pub open spec fn split_shape(g: Map<Vx, Set<Vx>>, v: Vx, c1: Set<Vx>, c2: Set<Vx>) -> bool {
    &&& c1.subset_of(nbrs(g, v))
    &&& c2.subset_of(nbrs(g, v))
    &&& forall|w: Vx| #[trigger] nbrs(g, v).contains(w) ==> c1.contains(w) || c2.contains(w)
    &&& c1.disjoint(c2)
    &&& forall|x: Vx| #[trigger] c1.contains(x) ==> exists|s: Vx| non_nbrs(g, v, x) == set![s] && c2.contains(s)
    &&& forall|x: Vx| #[trigger] c2.contains(x) ==> non_nbrs(g, v, x).len() != 1
        || exists|y: Vx| c1.contains(y) && non_nbrs(g, v, y) == set![x]
}

/// The vertices of the first part that `pairs` pairs with `u`.
pub open spec fn paired_with(pairs: Seq<(Vx, Vx)>, u: Vx) -> Set<Vx> {
    Set::new(|w: Vx| exists|k: int| 0 <= k < pairs.len() && pairs[k] == (w, u))
}

/// In a split of the neighbourhood of `v`, the neighbours of `v` that a
/// vertex `u` of the second part misses are the vertices of the first
/// part paired with `u`.
pub proof fn lemma_second_part_misses(g: Map<Vx, Set<Vx>>, n: nat, v: Vx, c1: Set<Vx>, c2: Set<Vx>, pairs: Seq<(Vx, Vx)>, u: Vx)
    requires
        simple_graph(g, n),
        split_ok(g, v, c1, c2, pairs),
        c2.contains(u),
    ensures
        non_nbrs(g, v, u) == paired_with(pairs, u),
{
    assert forall|w: Vx| non_nbrs(g, v, u).contains(w) implies paired_with(pairs, u).contains(w) by {
        assert(nbrs(g, v).contains(w));
        if c2.contains(w) {
            assert(has_edge(g, u, w));
        }
        assert(c1.contains(w));
        let k = choose|k: int| 0 <= k < pairs.len() && (#[trigger] pairs[k]).0 == w;
        assert(non_nbrs(g, v, w) == set![pairs[k].1]);
        assert(c2.subset_of(nbrs(g, v)));
        assert(nbrs(g, v).contains(u));
        if has_edge(g, w, u) {
            assert(has_edge(g, u, w));
        }
        assert(non_nbrs(g, v, w).contains(u));
        assert(pairs[k] == (w, u));
    }
    assert forall|w: Vx| paired_with(pairs, u).contains(w) implies non_nbrs(g, v, u).contains(w) by {
        let k = choose|k: int| 0 <= k < pairs.len() && pairs[k] == (w, u);
        assert(c1.contains((#[trigger] pairs[k]).0));
        assert(non_nbrs(g, v, w) == set![u]);
        assert(non_nbrs(g, v, w).contains(u));
        if has_edge(g, u, w) {
            assert(has_edge(g, w, u));
        }
        assert(nbrs(g, v).contains(w));
    }
    assert(non_nbrs(g, v, u) =~= paired_with(pairs, u));
}

/// The neighbourhood of `v` is refused a split: `v` has fewer than two
/// neighbours, or some split of the shape the rule builds has a second
/// part larger than the first or not a clique.
pub open spec fn split_refused(g: Map<Vx, Set<Vx>>, v: Vx) -> bool {
    nbrs(g, v).len() < 2 || exists|c1: Set<Vx>, c2: Set<Vx>| #[trigger] split_shape(g, v, c1, c2)
        && (c1.len() < c2.len() || exists|a: Vx, b: Vx| c2.contains(a) && c2.contains(b) && a != b && !#[trigger] has_edge(g, a, b))
}

/// The non-neighbours of `x` among `ne`, other than `x`.
fn non_neighbours_in(g: &Graph, ne: &Vec<Vx>, x: Vx) -> (r: IdSet)
    requires
        g.wf(),
    ensures
        r@ == ne@.to_set().filter(|w: Vx| w != x && !has_edge(g@, x, w)),
{
    let mut r = IdSet::empty();
    let mut j: usize = 0;
    while j < ne.len()
        invariant
            g.wf(),
            j <= ne@.len(),
            r@ == ne@.subrange(0, j as int).to_set().filter(|w: Vx| w != x && !has_edge(g@, x, w)),
        decreases ne@.len() - j,
    {
        let w = ne[j];
        proof {
            assert(ne@.subrange(0, j + 1) == ne@.subrange(0, j as int).push(w));
            lemma_to_set_push(ne@.subrange(0, j as int), w);
        }
        if w != x && !g.get_edge(x, w) {
            r.insert(w);
        }
        proof {
            assert(r@ =~= ne@.subrange(0, j + 1).to_set().filter(|w: Vx| w != x && !has_edge(g@, x, w)));
        }
        j = j + 1;
    }
    proof {
        assert(ne@.subrange(0, j as int) == ne@);
    }
    r
}

/// A finite set of one element that holds `x` is `{x}`.
proof fn lemma_single(s: Set<Vx>, x: Vx)
    requires
        s.finite(),
        s.len() == 1,
        s.contains(x),
    ensures
        s == set![x],
{
    assert(s.remove(x).len() == 0);
    s.remove(x).lemma_len0_is_empty();
    assert(s =~= set![x]) by {
        assert forall|y: Vx| s.contains(y) implies y == x by {
            if y != x {
                assert(s.remove(x).contains(y));
            }
        }
    }
}

/// Splits the neighbourhood of `v` as the two-clique reduction needs it:
/// the neighbours are taken in the order of their hash set; one that
/// misses exactly one other neighbour goes to `c1`, and the one it misses,
/// if not placed yet, to `c2`; every other one goes to `c2`. `None` where
/// `v` has fewer than two neighbours, `c2` is larger than `c1`, or `c2` is
/// no clique.
fn partition_neighbourhood(g: &Graph, v: Vx) -> (r: Option<(IdSet, IdSet, Vec<(Vx, Vx)>)>)
    requires
        g.wf(),
    ensures
        r matches Some(t) ==> split_ok(g@, v, t.0@, t.1@, t.2@),
        r matches Some(t) ==> forall|u: Vx| #[trigger] t.1@.contains(u) ==> non_nbrs(g@, v, u) == paired_with(t.2@, u),
        r is Some ==> g@.dom().contains(v),
        r is None ==> split_refused(g@, v),
{
    proof {
        g.lemma_simple();
    }
    let nb = g.neighbours(v);
    let mut neigh = IdSet::from_vec(&nb);
    if neigh.len() < 2 {
        proof {
            if g@.dom().contains(v) {
                assert(neigh@ =~= nbrs(g@, v));
            } else {
                assert(nbrs(g@, v) =~= Set::<Vx>::empty());
            }
        }
        return None;
    }
    let ne = neigh.elements();
    let ghost nv = nbrs(g@, v);
    proof {
        assert(g@.dom().contains(v)) by {
            if !g@.dom().contains(v) {
                assert(nb@.to_set() =~= Set::<Vx>::empty());
            }
        }
    }
    proof {
        assert(nv.finite()) by {
            if g@.dom().contains(v) {
            } else {
                assert(nv =~= Set::<Vx>::empty());
            }
        }
    }
    let mut mv: Vec<IdSet> = Vec::new();
    let mut i: usize = 0;
    while i < ne.len()
        invariant
            g.wf(),
            i <= ne@.len(),
            ne@.to_set() == nv,
            nv == nbrs(g@, v),
            mv@.len() == i,
            forall|j: int| 0 <= j < i ==> (#[trigger] mv@[j])@ == non_nbrs(g@, v, ne@[j]),
        decreases ne@.len() - i,
    {
        let s = non_neighbours_in(g, &ne, ne[i]);
        proof {
            assert(s@ =~= non_nbrs(g@, v, ne@[i as int]));
        }
        let ghost m0 = mv@;
        mv.push(s);
        proof {
            assert forall|j: int| 0 <= j < i + 1 implies (#[trigger] mv@[j])@ == non_nbrs(g@, v, ne@[j]) by {
                if j < i {
                    assert(mv@[j] == m0[j]);
                }
            }
        }
        i = i + 1;
    }
    let mut c1 = IdSet::empty();
    let mut c2 = IdSet::empty();
    loop
        invariant
            g.wf(),
            simple_graph(g@, g.spec_n()),
            nv == nbrs(g@, v),
            nv.finite(),
            ne@.to_set() == nv,
            ne@.no_duplicates(),
            mv@.len() == ne@.len(),
            forall|j: int| 0 <= j < ne@.len() ==> (#[trigger] mv@[j])@ == non_nbrs(g@, v, ne@[j]),
            neigh@.subset_of(nv),
            c1@.subset_of(nv),
            c2@.subset_of(nv),
            neigh@.disjoint(c1@),
            neigh@.disjoint(c2@),
            c1@.disjoint(c2@),
            forall|x: Vx| nv.contains(x) ==> neigh@.contains(x) || c1@.contains(x) || c2@.contains(x),
            forall|x: Vx| #[trigger] c1@.contains(x) ==> exists|s: Vx| non_nbrs(g@, v, x) == set![s] && c2@.contains(s),
            forall|x: Vx| #[trigger] c2@.contains(x) ==> non_nbrs(g@, v, x).len() != 1
                || exists|y: Vx| c1@.contains(y) && non_nbrs(g@, v, y) == set![x],
            g@.dom().contains(v),
        ensures
            neigh@ == Set::<Vx>::empty(),
        decreases neigh@.len(),
    {
        proof {
            lemma_set_subset_finite(nv, neigh@);
        }
        let n = match neigh.some_element() {
            None => {
                break;
            },
            Some(n) => n,
        };
        let ghost nb0 = neigh@;
        let ghost c10 = c1@;
        let ghost c20 = c2@;
        neigh.remove(n);
        let p = match position(&ne, n) {
            Some(p) => p,
            None => {
                proof {
                    assert(ne@.to_set().contains(n));
                    assert(false);
                }
                return None;
            },
        };
        proof {
            lemma_set_subset_finite(nv, non_nbrs(g@, v, n));
        }
        let cnt = mv[p].len();
        if cnt == 1 {
            c1.insert(n);
            let s = match mv[p].some_element() {
                Some(s) => s,
                None => {
                    proof {
                        assert(mv@[p as int]@.len() == 0);
                    }
                    return None;
                },
            };
            proof {
                lemma_single(non_nbrs(g@, v, n), s);
                assert(s != n);
                assert(nv.contains(s));
            }
            if neigh.contains(s) {
                neigh.remove(s);
                c2.insert(s);
            } else {
                proof {
                    assert(!c10.contains(s)) by {
                        if c10.contains(s) {
                            let t = choose|t: Vx| non_nbrs(g@, v, s) == set![t] && c20.contains(t);
                            assert(!has_edge(g@, n, s));
                            assert(!has_edge(g@, s, n));
                            assert(non_nbrs(g@, v, s).contains(n));
                            assert(n == t);
                        }
                    }
                    assert(c20.contains(s));
                }
            }
        } else {
            c2.insert(n);
        }
        proof {
            assert forall|x: Vx| #[trigger] c1@.contains(x) implies exists|s2: Vx| non_nbrs(g@, v, x) == set![s2] && c2@.contains(s2) by {
                if x != n {
                    assert(c10.contains(x));
                    let t = choose|t: Vx| non_nbrs(g@, v, x) == set![t] && c20.contains(t);
                    assert(c2@.contains(t));
                } else {
                    let s2 = mv@[p as int]@.choose();
                    assert(cnt == 1);
                }
            }
            assert forall|z: Vx| #[trigger] c2@.contains(z) implies non_nbrs(g@, v, z).len() != 1
                || exists|y: Vx| c1@.contains(y) && non_nbrs(g@, v, y) == set![z] by {
                if c20.contains(z) {
                    if non_nbrs(g@, v, z).len() == 1 {
                        let y = choose|y: Vx| c10.contains(y) && non_nbrs(g@, v, y) == set![z];
                        assert(c1@.contains(y));
                    }
                } else if z != n && cnt == 1 {
                    let s2 = mv@[p as int]@.choose();
                    lemma_single(non_nbrs(g@, v, n), z);
                    assert(c1@.contains(n));
                } else if z == n {
                    assert(cnt != 1);
                    assert(mv@[p as int]@ == non_nbrs(g@, v, n));
                }
            }
            assert(neigh@.len() < nb0.len()) by {
                lemma_set_subset_finite(nv, nb0);
                assert(neigh@.subset_of(nb0.remove(n)));
                lemma_len_subset(neigh@, nb0.remove(n));
            }
        }
    }
    proof {
        lemma_set_subset_finite(nv, c1@);
        lemma_set_subset_finite(nv, c2@);
        assert forall|w: Vx| #[trigger] nbrs(g@, v).contains(w) implies c1@.contains(w) || c2@.contains(w) by {
            assert(nv.contains(w));
            assert(!neigh@.contains(w));
        }
    }
    proof {
        assert(split_shape(g@, v, c1@, c2@));
    }
    if c1.len() < c2.len() {
        return None;
    }
    let c2e = c2.elements();
    let mut a: usize = 0;
    while a < c2e.len()
        invariant
            g.wf(),
            a <= c2e@.len(),
            forall|x: int, y: int| 0 <= x < a && 0 <= y < c2e@.len() && c2e@[x] != c2e@[y] ==> #[trigger] has_edge(g@, c2e@[x], c2e@[y]),
            g@.dom().contains(v),
            forall|w: Vx| #[trigger] nbrs(g@, v).contains(w) ==> c1@.contains(w) || c2@.contains(w),
            c2e@.to_set() == c2@,
            split_shape(g@, v, c1@, c2@),
        decreases c2e@.len() - a,
    {
        let mut b: usize = 0;
        while b < c2e.len()
            invariant
                g.wf(),
                a < c2e@.len(),
                b <= c2e@.len(),
                forall|x: int, y: int| 0 <= x < a && 0 <= y < c2e@.len() && c2e@[x] != c2e@[y] ==> #[trigger] has_edge(g@, c2e@[x], c2e@[y]),
                forall|y: int| 0 <= y < b && c2e@[a as int] != c2e@[y] ==> #[trigger] has_edge(g@, c2e@[a as int], c2e@[y]),
                c2e@.to_set() == c2@,
                split_shape(g@, v, c1@, c2@),
            decreases c2e@.len() - b,
        {
            if c2e[a] != c2e[b] && !g.get_edge(c2e[a], c2e[b]) {
                proof {
                    assert(c2e@.to_set().contains(c2e@[a as int]) && c2e@.to_set().contains(c2e@[b as int]));
                }
                return None;
            }
            b = b + 1;
        }
        a = a + 1;
    }
    let c1e = c1.elements();
    let mut pairs: Vec<(Vx, Vx)> = Vec::new();
    let mut k: usize = 0;
    while k < c1e.len()
        invariant
            g.wf(),
            k <= c1e@.len(),
            c1e@.to_set() == c1@,
            c1e@.no_duplicates(),
            ne@.to_set() == nv,
            nv == nbrs(g@, v),
            nv.finite(),
            mv@.len() == ne@.len(),
            forall|j: int| 0 <= j < ne@.len() ==> (#[trigger] mv@[j])@ == non_nbrs(g@, v, ne@[j]),
            c1@.subset_of(nv),
            forall|x: Vx| #[trigger] c1@.contains(x) ==> exists|s: Vx| non_nbrs(g@, v, x) == set![s] && c2@.contains(s),
            pairs@.len() == k,
            g@.dom().contains(v),
            forall|w: Vx| #[trigger] nbrs(g@, v).contains(w) ==> c1@.contains(w) || c2@.contains(w),
            forall|j: int| 0 <= j < k ==> (#[trigger] pairs@[j]).0 == c1e@[j],
            forall|j: int| 0 <= j < k ==> {
                &&& c1@.contains((#[trigger] pairs@[j]).0)
                &&& c2@.contains(pairs@[j].1)
                &&& non_nbrs(g@, v, pairs@[j].0) == set![pairs@[j].1]
            },
        decreases c1e@.len() - k,
    {
        let c = c1e[k];
        proof {
            assert(c1e@.to_set().contains(c1e@[k as int]));
            assert(c1@.contains(c));
        }
        let p = match position(&ne, c) {
            Some(p) => p,
            None => {
                proof {
                    assert(ne@.to_set().contains(c));
                    assert(false);
                }
                return None;
            },
        };
        let s = match mv[p].some_element() {
            Some(s) => s,
            None => {
                proof {
                    let t = choose|t: Vx| non_nbrs(g@, v, c) == set![t] && c2@.contains(t);
                    assert(mv@[p as int]@.contains(t));
                }
                return None;
            },
        };
        proof {
            let t = choose|t: Vx| non_nbrs(g@, v, c) == set![t] && c2@.contains(t);
            assert(mv@[p as int]@ == set![t]);
            assert(s == t);
        }
        let ghost pb = pairs@;
        pairs.push((c, s));
        proof {
            assert forall|j: int| 0 <= j < k + 1 implies (#[trigger] pairs@[j]).0 == c1e@[j] by {
                if j < k {
                    assert(pairs@[j] == pb[j]);
                }
            }
            assert forall|j: int| 0 <= j < k + 1 implies {
                &&& c1@.contains((#[trigger] pairs@[j]).0)
                &&& c2@.contains(pairs@[j].1)
                &&& non_nbrs(g@, v, pairs@[j].0) == set![pairs@[j].1]
            } by {
                if j < k {
                    assert(pairs@[j] == pb[j]);
                }
            }
        }
        k = k + 1;
    }
    proof {
        assert forall|x: Vx, y: Vx| c2@.contains(x) && c2@.contains(y) && x != y implies #[trigger] has_edge(g@, x, y) by {
            assert(c2e@.to_set().contains(x));
            assert(c2e@.to_set().contains(y));
            let i1 = choose|i1: int| 0 <= i1 < c2e@.len() && c2e@[i1] == x;
            let i2 = choose|i2: int| 0 <= i2 < c2e@.len() && c2e@[i2] == y;
            assert(has_edge(g@, c2e@[i1], c2e@[i2]));
        }
        assert forall|x: int, y: int| 0 <= x < y < pairs@.len() implies (#[trigger] pairs@[x]).0 != (#[trigger] pairs@[y]).0 by {
            assert(c1e@[x] != c1e@[y]);
        }
        assert forall|c: Vx| c1@.contains(c) implies exists|j: int| 0 <= j < pairs@.len() && (#[trigger] pairs@[j]).0 == c by {
            assert(c1e@.to_set().contains(c));
            let j = choose|j: int| 0 <= j < c1e@.len() && c1e@[j] == c;
            assert(pairs@[j].0 == c);
        }
    }
    proof {
        assert(g@.dom().contains(v));
    }
    proof {
        assert forall|u: Vx| #[trigger] c2@.contains(u) implies non_nbrs(g@, v, u) == paired_with(pairs@, u) by {
            lemma_second_part_misses(g@, g.spec_n(), v, c1@, c2@, pairs@, u);
        }
    }
    Some((c1, c2, pairs))
}

/// Applies the two-clique reduction at `x` for the split `(c1, c2, pairs)`.
/// `{u, w}` joins the first vertex `c` of the pair `p = (c, s)` to a
/// neighbour of `s` in `g`.
pub open spec fn tc_edge(g: Map<Vx, Set<Vx>>, p: (Vx, Vx), u: Vx, w: Vx) -> bool {
    ||| (u == p.0 && nbrs(g, p.1).contains(w) && w != u)
    ||| (w == p.0 && nbrs(g, p.1).contains(u) && u != w)
}

/// `{u, w}` is a `tc_edge` of one of the pairs of `ps`.
pub open spec fn tc_pair(g: Map<Vx, Set<Vx>>, ps: Seq<(Vx, Vx)>, u: Vx, w: Vx) -> bool {
    exists|k: int| 0 <= k < ps.len() && #[trigger] tc_edge(g, ps[k], u, w)
}

/// The edges of `g` and those that the pairs of `ps` add.
pub open spec fn with_pairs(g: Map<Vx, Set<Vx>>, ps: Seq<(Vx, Vx)>, u: Vx, w: Vx) -> bool {
    has_edge(g, u, w) || tc_pair(g, ps, u, w)
}

/// One two-clique fold at `x` with the split `(c1, c2, pairs)`: each
/// vertex of `c1` is joined to the neighbours of the vertex it misses,
/// `x` and `c2` leave the graph, `c2` joins the solution, and the undo
/// step is recorded.
pub open spec fn two_clique_fold(a: &State, b: &State, x: Vx, c1: Set<Vx>, c2: Set<Vx>, pairs: Seq<(Vx, Vx)>) -> bool {
    let g = a.graph@;
    let added = b.solution@.subrange(a.solution@.len() as int, b.solution@.len() as int);
    &&& split_ok(g, x, c1, c2, pairs)
    &&& g.dom().contains(x)
    &&& a.solution@.len() <= b.solution@.len()
    &&& b.solution@.subrange(0, a.solution@.len() as int) == a.solution@
    &&& added.to_set() == c2
    &&& added.no_duplicates()
    &&& forall|u: Vx, w: Vx| #[trigger] has_edge(b.graph@, u, w) <==> (u != x && w != x && !c2.contains(u) && !c2.contains(w)
        && with_pairs(g, pairs, u, w))
    &&& b.cleanup_funcs@.len() == a.cleanup_funcs@.len() + 1
    &&& b.cleanup_funcs@.drop_last() == a.cleanup_funcs@
    &&& b.cleanup_funcs@.last() matches Cleanup::TwoClique { x: y, pairs: q } && y == x && q@ == pairs
}

/// `b` comes from `a` by `k` two-clique folds.
pub open spec fn two_clique_steps(a: State, b: State, k: nat) -> bool
    decreases k,
{
    if k == 0 {
        b.graph@ == a.graph@ && b.solution@ == a.solution@ && b.cleanup_funcs@ == a.cleanup_funcs@
    } else {
        exists|m: State, x: Vx, c1: Set<Vx>, c2: Set<Vx>, pairs: Seq<(Vx, Vx)>| two_clique_steps(a, m, (k - 1) as nat)
            && m.wf() && #[trigger] two_clique_fold(&m, &b, x, c1, c2, pairs)
    }
}

/// The vertices of `c1` are pairwise adjacent.
pub(crate) proof fn lemma_c1_clique(g: Map<Vx, Set<Vx>>, v: Vx, c1: Set<Vx>, c2: Set<Vx>, pairs: Seq<(Vx, Vx)>, i: int, j: int)
    requires
        split_ok(g, v, c1, c2, pairs),
        0 <= i < pairs.len(),
        0 <= j < pairs.len(),
        i != j,
    ensures
        has_edge(g, pairs[i].0, pairs[j].0),
{
    let c = pairs[i].0;
    let d = pairs[j].0;
    assert(c1.contains(c) && c1.contains(d));
    assert(c != d) by {
        if i < j {
            assert(pairs[i].0 != pairs[j].0);
        } else {
            assert(pairs[j].0 != pairs[i].0);
        }
    }
    if !has_edge(g, c, d) {
        assert(non_nbrs(g, v, c).contains(d));
        assert(set![pairs[i].1].contains(d));
        assert(c2.contains(d));
    }
}

/// Two non-adjacent neighbours of `x` under a split are a vertex of
/// `c1` and the one neighbour of `x` it misses.
proof fn lemma_split_apart(g: Map<Vx, Set<Vx>>, n: nat, x: Vx, c1: Set<Vx>, c2: Set<Vx>, pairs: Seq<(Vx, Vx)>, z1: Vx, z2: Vx)
    requires
        simple_graph(g, n),
        split_ok(g, x, c1, c2, pairs),
        nbrs(g, x).contains(z1),
        nbrs(g, x).contains(z2),
        z1 != z2,
        !has_edge(g, z1, z2),
    ensures
        exists|k: int| 0 <= k < pairs.len() && ((#[trigger] pairs[k] == (z1, z2)) || pairs[k] == (z2, z1)),
{
    assert(!has_edge(g, z2, z1)) by {
        if has_edge(g, z2, z1) {
            assert(g[z2].contains(z1));
            assert(g[z1].contains(z2));
        }
    }
    if c1.contains(z1) {
        let k = choose|k: int| 0 <= k < pairs.len() && (#[trigger] pairs[k]).0 == z1;
        assert(non_nbrs(g, x, z1).contains(z2));
        assert(pairs[k] == (z1, z2));
    } else if c1.contains(z2) {
        let k = choose|k: int| 0 <= k < pairs.len() && (#[trigger] pairs[k]).0 == z2;
        assert(non_nbrs(g, x, z2).contains(z1));
        assert(pairs[k] == (z2, z1));
    } else {
        assert(c2.contains(z1) && c2.contains(z2));
    }
}

/// The two-clique step at `x` keeps the minimum: `h` is `g` without `x`
/// and `c2`, with each vertex of `c1` joined to the neighbours of the one
/// neighbour of `x` it misses, and each vertex cover `c` of `g` leaves,
/// less as many vertices as `c2` holds, a cover of `h`.
pub proof fn law_two_clique_keeps_min(g: Map<Vx, Set<Vx>>, n: nat, x: Vx, c1: Set<Vx>, c2: Set<Vx>, pairs: Seq<(Vx, Vx)>,
    h: Map<Vx, Set<Vx>>, c: Set<Vx>)
    requires
        simple_graph(g, n),
        g.dom().contains(x),
        split_ok(g, x, c1, c2, pairs),
        forall|u: Vx, w: Vx| #[trigger] has_edge(h, u, w) <==> (u != x && w != x && !c2.contains(u) && !c2.contains(w)
            && with_pairs(g, pairs, u, w)),
        is_vertex_cover(g, c),
        c.finite(),
    ensures
        exists|d: Set<Vx>| #[trigger] is_vertex_cover(h, d) && d.finite() && d.len() + c2.len() <= c.len(),
{
    let b = c2.insert(x);
    assert(!c2.contains(x)) by {
        assert(!g[x].contains(x));
    }
    assert(c2.finite()) by {
        lemma_set_subset_finite(nbrs(g, x), c2);
    }
    lemma_set_difference_len(c, b);
    let d0 = c.difference(b);
    // Every vertex of `c1` lies in the neighbourhood of `x`.
    assert forall|t: Vx, q: Vx| !c.contains(t) && #[trigger] nbrs(g, t).contains(q) implies c.contains(q) by {
        assert(has_edge(g, t, q));
    }
    // Edges of `g` between two vertices of `h` stay covered by `d0` or
    // by a vertex of `c1` added back.
    if exists|y: Vx| c1.contains(y) && !c.contains(y) {
        let y = choose|y: Vx| c1.contains(y) && !c.contains(y);
        let k = choose|k: int| 0 <= k < pairs.len() && (#[trigger] pairs[k]).0 == y;
        let sy = pairs[k].1;
        assert(has_edge(g, x, y));
        assert(c.contains(x));
        assert(c2.contains(sy));
        // Any other neighbour of `x` outside `c` is `sy`.
        assert forall|z: Vx| nbrs(g, x).contains(z) && !c.contains(z) && z != y implies z == sy by {
            if !has_edge(g, y, z) {
                lemma_split_apart(g, n, x, c1, c2, pairs, y, z);
                let k2 = choose|k2: int| 0 <= k2 < pairs.len() && ((#[trigger] pairs[k2] == (y, z)) || pairs[k2] == (z, y));
                if pairs[k2] == (z, y) {
                    assert(c1.contains(z) && c2.contains(y));
                } else {
                    assert(pairs[k2].0 == pairs[k].0);
                    if k2 != k {
                        if k2 < k {
                            assert(pairs[k2].0 != pairs[k].0);
                        } else {
                            assert(pairs[k].0 != pairs[k2].0);
                        }
                    }
                }
            } else {
                assert(nbrs(g, y).contains(z));
            }
        }
        if !c.contains(sy) {
            assert(c.intersect(b) =~= c2.remove(sy).insert(x)) by {
                assert forall|z: Vx| c2.contains(z) && z != sy implies c.contains(z) by {
                    assert(nbrs(g, x).contains(z));
                    if !c.contains(z) {
                        assert(z != y) by {
                            assert(c1.disjoint(c2));
                        }
                    }
                }
            }
            assert(c2.remove(sy).len() + 1 == c2.len());
            assert forall|u: Vx, w: Vx| #[trigger] has_edge(h, u, w) implies d0.contains(u) || d0.contains(w) by {
                if has_edge(g, u, w) {
                } else {
                    let kk = choose|kk: int| 0 <= kk < pairs.len() && #[trigger] tc_edge(g, pairs[kk], u, w);
                    let p = pairs[kk];
                    if p.0 == y {
                        if kk != k {
                            if kk < k {
                                assert(pairs[kk].0 != pairs[k].0);
                            } else {
                                assert(pairs[k].0 != pairs[kk].0);
                            }
                        }
                        assert(p.1 == sy);
                        if u == y {
                            assert(nbrs(g, sy).contains(w));
                        } else {
                            assert(nbrs(g, sy).contains(u));
                        }
                    } else {
                        assert(c1.contains(p.0));
                        assert(nbrs(g, x).contains(p.0));
                        assert(c.contains(p.0)) by {
                            if !c.contains(p.0) {
                                assert(p.0 == sy);
                                assert(c1.disjoint(c2));
                            }
                        }
                        assert(!c2.contains(p.0)) by {
                            assert(c1.disjoint(c2));
                        }
                    }
                }
            }
            assert(is_vertex_cover(h, d0));
        } else {
            assert(c.intersect(b) =~= b) by {
                assert forall|z: Vx| c2.contains(z) implies c.contains(z) by {
                    assert(nbrs(g, x).contains(z));
                    if !c.contains(z) {
                        assert(z != y) by {
                            assert(c1.disjoint(c2));
                        }
                        assert(z == sy);
                    }
                }
            }
            let d1 = d0.insert(y);
            assert(!d0.contains(y));
            assert forall|u: Vx, w: Vx| #[trigger] has_edge(h, u, w) implies d1.contains(u) || d1.contains(w) by {
                if has_edge(g, u, w) {
                } else {
                    let kk = choose|kk: int| 0 <= kk < pairs.len() && #[trigger] tc_edge(g, pairs[kk], u, w);
                    let p = pairs[kk];
                    assert(c1.contains(p.0));
                    assert(nbrs(g, x).contains(p.0));
                    if p.0 != y {
                        assert(c.contains(p.0)) by {
                            if !c.contains(p.0) {
                                assert(c1.disjoint(c2));
                            }
                        }
                        assert(!c2.contains(p.0)) by {
                            assert(c1.disjoint(c2));
                        }
                    }
                }
            }
            assert(is_vertex_cover(h, d1));
        }
    } else {
        if exists|z: Vx| c2.contains(z) && !c.contains(z) {
            let z = choose|z: Vx| c2.contains(z) && !c.contains(z);
            assert(has_edge(g, x, z));
            assert(c.contains(x));
            assert(c.intersect(b) =~= c2.remove(z).insert(x)) by {
                assert forall|z2: Vx| c2.contains(z2) && z2 != z implies c.contains(z2) by {
                    assert(has_edge(g, z, z2));
                }
            }
            assert(c2.remove(z).len() + 1 == c2.len());
        } else {
            assert(c2.subset_of(c.intersect(b)));
            lemma_len_subset(c2, c.intersect(b));
        }
        assert forall|u: Vx, w: Vx| #[trigger] has_edge(h, u, w) implies d0.contains(u) || d0.contains(w) by {
            if has_edge(g, u, w) {
            } else {
                let kk = choose|kk: int| 0 <= kk < pairs.len() && #[trigger] tc_edge(g, pairs[kk], u, w);
                let p = pairs[kk];
                assert(c1.contains(p.0));
                assert(!c2.contains(p.0)) by {
                    assert(c1.disjoint(c2));
                }
            }
        }
        assert(is_vertex_cover(h, d0));
    }
}

/// Two-clique steps keep the minimum: where the graph of `a` has a cover
/// of at most `k` vertices, the graph of `b` has one of at most `k` less
/// the vertices that joined the solution on the way.
pub proof fn law_two_clique_steps_keep_min(a: State, b: State, steps: nat, k: int)
    requires
        a.wf(),
        two_clique_steps(a, b, steps),
        cover_within(a.graph@, k),
    ensures
        cover_within(b.graph@, k - (b.solution@.len() - a.solution@.len())),
    decreases steps,
{
    if steps == 0 {
    } else {
        let (m, x, c1, c2, pairs) = choose|m: State, x: Vx, c1: Set<Vx>, c2: Set<Vx>, pairs: Seq<(Vx, Vx)>|
            two_clique_steps(a, m, (steps - 1) as nat) && m.wf() && #[trigger] two_clique_fold(&m, &b, x, c1, c2, pairs);
        law_two_clique_steps_keep_min(a, m, (steps - 1) as nat, k);
        let km = k - (m.solution@.len() - a.solution@.len());
        let c = choose|c: Set<Vx>| #[trigger] is_vertex_cover(m.graph@, c) && c.finite() && c.len() <= km;
        m.graph.lemma_simple();
        law_two_clique_keeps_min(m.graph@, m.graph.spec_n(), x, c1, c2, pairs, b.graph@, c);
        let added = b.solution@.subrange(m.solution@.len() as int, b.solution@.len() as int);
        added.unique_seq_to_set();
        assert(added.len() == c2.len());
    }
}

/// On the way from `s0` to `fin` by two-clique steps, the rule looked at
/// `x` in some state `m` of the way: the neighbourhood of `x` was refused
/// a split there, or the step at `x` was taken from `m`.
pub open spec fn two_clique_seen(s0: State, fin: State, x: Vx) -> bool {
    exists|m: State, k1: nat, k2: nat| #![trigger two_clique_steps(s0, m, k1), two_clique_steps(m, fin, k2)]
        two_clique_steps(s0, m, k1) && two_clique_steps(m, fin, k2) && m.wf() && (split_refused(m.graph@, x)
            || exists|m2: State, c1: Set<Vx>, c2: Set<Vx>, pairs: Seq<(Vx, Vx)>, k3: nat|
                #![trigger two_clique_fold(&m, &m2, x, c1, c2, pairs), two_clique_steps(m2, fin, k3)]
                two_clique_fold(&m, &m2, x, c1, c2, pairs) && two_clique_steps(m2, fin, k3))
}

/// A run of steps followed by one more step is a run.
pub proof fn lemma_two_clique_steps_push(a: State, b: State, k: nat, c: State, x: Vx, c1: Set<Vx>, c2: Set<Vx>, pairs: Seq<(Vx, Vx)>)
    requires
        two_clique_steps(a, b, k),
        b.wf(),
        two_clique_fold(&b, &c, x, c1, c2, pairs),
    ensures
        two_clique_steps(a, c, k + 1),
{
}

/// What was looked at on the way stays looked at one step further.
proof fn lemma_two_clique_seen_push(s0: State, fin: State, fin2: State, y: Vx, x: Vx, c1: Set<Vx>, c2: Set<Vx>, pairs: Seq<(Vx, Vx)>)
    requires
        two_clique_seen(s0, fin, y),
        fin.wf(),
        two_clique_fold(&fin, &fin2, x, c1, c2, pairs),
    ensures
        two_clique_seen(s0, fin2, y),
{
    let (m, k1, k2) = choose|m: State, k1: nat, k2: nat| #![trigger two_clique_steps(s0, m, k1), two_clique_steps(m, fin, k2)]
        two_clique_steps(s0, m, k1) && two_clique_steps(m, fin, k2) && m.wf() && (split_refused(m.graph@, y)
            || exists|m2: State, c1: Set<Vx>, c2: Set<Vx>, pairs: Seq<(Vx, Vx)>, k3: nat|
                #![trigger two_clique_fold(&m, &m2, y, c1, c2, pairs), two_clique_steps(m2, fin, k3)]
                two_clique_fold(&m, &m2, y, c1, c2, pairs) && two_clique_steps(m2, fin, k3));
    lemma_two_clique_steps_push(m, fin, k2, fin2, x, c1, c2, pairs);
    if !split_refused(m.graph@, y) {
        let (m2, d1, d2, dp, k3) = choose|m2: State, c1: Set<Vx>, c2: Set<Vx>, pairs: Seq<(Vx, Vx)>, k3: nat|
            #![trigger two_clique_fold(&m, &m2, y, c1, c2, pairs), two_clique_steps(m2, fin, k3)]
            two_clique_fold(&m, &m2, y, c1, c2, pairs) && two_clique_steps(m2, fin, k3);
        lemma_two_clique_steps_push(m2, fin, k3, fin2, x, c1, c2, pairs);
        assert(two_clique_fold(&m, &m2, y, d1, d2, dp) && two_clique_steps(m2, fin2, k3 + 1));
    }
    assert(two_clique_steps(s0, m, k1) && two_clique_steps(m, fin2, k2 + 1));
}

fn apply_two_clique(state: &mut State, x: Vx, c1: IdSet, c2: IdSet, pairs: Vec<(Vx, Vx)>) -> (r: Option<()>)
    requires
        old(state).wf(),
        old(state).graph@.dom().contains(x),
        split_ok(old(state).graph@, x, c1@, c2@, pairs@),
    ensures
        r is Some ==> reduced(old(state), final(state)) && progressed(old(state), final(state)),
        r is Some ==> two_clique_fold(old(state), final(state), x, c1@, c2@, pairs@),
        r is Some ==> fingers_cleared(final(state), c1@.union(c2@).insert(x)),
        r is None <==> !takes_set(old(state), c2@),
{
    let ghost s0 = *state;
    let ghost g0 = state.graph@;
    let ghost d0 = state.graph@.dom();
    let n = state.graph.n();
    proof {
        state.graph.lemma_simple();
    }
    let mut k: usize = 0;
    proof {
        assert forall|u: Vx, w: Vx| #[trigger] has_edge(state.graph@, u, w) <==> with_pairs(g0, pairs@.take(0), u, w) by {}
    }
    while k < pairs.len()
        invariant
            state.wf(),
            s0.wf(),
            g0 == s0.graph@,
            d0 == g0.dom(),
            simple_graph(g0, n as nat),
            n == state.graph.spec_n(),
            n == s0.graph.spec_n(),
            k <= pairs@.len(),
            split_ok(g0, x, c1@, c2@, pairs@),
            state.graph@.dom().subset_of(d0),
            state.graph@.dom().contains(x),
            state.solution == s0.solution,
            state.upper_bound == s0.upper_bound,
            state.diff_vec == s0.diff_vec,
            state.fingertable == s0.fingertable,
            state.dirty@.len() == s0.dirty@.len(),
            state.constraints_vec@.len() == s0.constraints_vec@.len(),
            state.cleanup_funcs == s0.cleanup_funcs,
            forall|u: Vx, w: Vx| #[trigger] has_edge(state.graph@, u, w) <==> with_pairs(g0, pairs@.take(k as int), u, w),
        decreases pairs@.len() - k,
    {
        let (c, s) = pairs[k];
        proof {
            assert(c1@.contains(pairs@[k as int].0));
            assert(nbrs(g0, x).contains(c));
            assert(has_edge(g0, x, c));
            assert(d0.contains(c));
        }
        let ghost gk = state.graph@;
        let ghost pk = pairs@.take(k as int);
        let neinei = state.graph.neighbours(s);
        proof {
            state.graph.lemma_simple();
            assert forall|jj: int| #![trigger neinei@[jj]] 0 <= jj < neinei@.len() implies neinei@[jj] < n && d0.contains(neinei@[jj]) by {
                assert(neinei@.to_set().contains(neinei@[jj]));
                assert(has_edge(state.graph@, s, neinei@[jj]));
            }
            assert(neinei@.take(0).to_set() =~= Set::<Vx>::empty());
        }
        let mut j: usize = 0;
        while j < neinei.len()
            invariant
                state.wf(),
                n == state.graph.spec_n(),
                j <= neinei@.len(),
                d0.contains(c),
                c < n,
                state.graph@.dom().subset_of(d0),
                state.graph@.dom().contains(x),
                state.solution == s0.solution,
                state.upper_bound == s0.upper_bound,
                state.diff_vec == s0.diff_vec,
                state.fingertable == s0.fingertable,
                state.dirty@.len() == s0.dirty@.len(),
                state.constraints_vec@.len() == s0.constraints_vec@.len(),
                state.cleanup_funcs == s0.cleanup_funcs,
                forall|jj: int| #![trigger neinei@[jj]] 0 <= jj < neinei@.len() ==> neinei@[jj] < n && d0.contains(neinei@[jj]),
                forall|u: Vx, w: Vx| #[trigger] has_edge(state.graph@, u, w) <==> (has_edge(gk, u, w)
                    || (u == c && neinei@.take(j as int).to_set().contains(w) && w != c)
                    || (w == c && neinei@.take(j as int).to_set().contains(u) && u != c)),
            decreases neinei@.len() - j,
        {
            let nn = neinei[j];
            let ghost gb = state.graph@;
            proof {
                assert(neinei@.take(j + 1) == neinei@.take(j as int).push(nn));
                lemma_to_set_push(neinei@.take(j as int), nn);
            }
            if nn != c {
                state.add_edge(c, nn);
                proof {
                    lemma_with_edge_edges(gb, c, nn);
                }
            }
            j = j + 1;
        }
        proof {
            assert(neinei@.take(j as int) == neinei@);
            assert(pairs@.take(k + 1) == pk.push((c, s)));
            assert forall|u: Vx, w: Vx| #[trigger] has_edge(state.graph@, u, w) <==> with_pairs(g0, pairs@.take(k + 1), u, w) by {
                let pk1 = pairs@.take(k + 1);
                assert(pk1[k as int] == (c, s));
                if tc_pair(g0, pk, u, w) {
                    let i = choose|i: int| 0 <= i < pk.len() && #[trigger] tc_edge(g0, pk[i], u, w);
                    assert(pk1[i] == pk[i]);
                }
                if tc_pair(g0, pk1, u, w) && !tc_edge(g0, (c, s), u, w) {
                    let i = choose|i: int| 0 <= i < pk1.len() && #[trigger] tc_edge(g0, pk1[i], u, w);
                    assert(pk[i] == pk1[i]);
                }
                if tc_edge(g0, (c, s), u, w) {
                    if u == c && nbrs(g0, s).contains(w) && w != u {
                        assert(has_edge(gk, s, w));
                        assert(nbrs(gk, s).contains(w));
                    }
                    if w == c && nbrs(g0, s).contains(u) && u != w {
                        assert(has_edge(gk, s, u));
                        assert(nbrs(gk, s).contains(u));
                    }
                }
                let side = |p: Vx, q: Vx| p == c && nbrs(gk, s).contains(q) && q != c;
                if (u == c && nbrs(gk, s).contains(w) && w != c) || (w == c && nbrs(gk, s).contains(u) && u != c) {
                    let o = if u == c { w } else { u };
                    assert(has_edge(gk, s, o));
                    if !nbrs(g0, s).contains(o) {
                        assert(with_pairs(g0, pk, s, o));
                        assert(!has_edge(g0, s, o));
                        let i = choose|i: int| 0 <= i < pk.len() && #[trigger] tc_edge(g0, pk[i], s, o);
                        assert(pk[i] == pairs@[i]);
                        assert(c2@.contains(s));
                        assert(c1@.contains(pairs@[i].0));
                        assert(o == pairs@[i].0);
                        lemma_c1_clique(g0, x, c1@, c2@, pairs@, k as int, i);
                        assert(has_edge(g0, c, o));
                        assert(has_edge(g0, o, c));
                    } else {
                        assert(tc_edge(g0, pk1[k as int], u, w));
                    }
                }
            }
        }
        k = k + 1;
    }
    proof {
        assert(pairs@.take(k as int) == pairs@);
    }
    let ghost s1 = *state;
    proof {
        assert(reduced(&s0, &s1)) by {
            assert(s1.solution@.subrange(0, s0.solution@.len() as int) =~= s0.solution@);
        }
    }
    state.remove_vertex(x);
    let ghost s2 = *state;
    proof {
        lemma_reduced_trans(&s0, &s1, &s2);
        s1.graph.lemma_simple();
        lemma_without_vertex_edges(s1.graph@, n as nat, x);
    }
    let c2e = c2.elements();
    proof {
        assert(c2e@.take(0).to_set() =~= Set::<Vx>::empty());
        assert(s2.solution@ + c2e@.take(0) =~= s2.solution@);
    }
    proof {
        assert forall|jj: int| #![trigger c2e@[jj]] 0 <= jj < c2e@.len() implies c2e@[jj] < n by {
            assert(c2e@.to_set().contains(c2e@[jj]));
            assert(nbrs(g0, x).contains(c2e@[jj]));
            assert(has_edge(g0, x, c2e@[jj]));
        }
    }
    let mut k: usize = 0;
    while k < c2e.len()
        invariant
            state.wf(),
            s0.wf(),
            d0 == s0.graph@.dom(),
            d0.contains(x),
            n == state.graph.spec_n(),
            k <= c2e@.len(),
            forall|jj: int| #![trigger c2e@[jj]] 0 <= jj < c2e@.len() ==> c2e@[jj] < n,
            reduced(&s0, state),
            !state.graph@.dom().contains(x),
            state.cleanup_funcs == s0.cleanup_funcs,
            state.solution@ == s2.solution@ + c2e@.take(k as int),
            s2.solution@ == s0.solution@,
            s2.diff_vec == s0.diff_vec,
            s2.fingertable == s0.fingertable,
            s2.upper_bound == s0.upper_bound,
            state.fingertable == s0.fingertable,
            state.upper_bound == s0.upper_bound,
            state.diff_vec@.len() == s0.diff_vec@.len(),
            c2e@.no_duplicates(),
            c2e@.to_set() == c2@,
            s0 == *old(state),
            k > 0 ==> state.solution@.len() <= s0.upper_bound,
            forall|i: usize| i < s0.diff_vec@.len() ==> #[trigger] state.diff_vec@[i as int] == s0.diff_vec@[i as int] - hits(&s0, c2e@.take(k as int), i),
            forall|u: Vx, w: Vx| #[trigger] has_edge(state.graph@, u, w) <==> (has_edge(s2.graph@, u, w)
                && !c2e@.take(k as int).to_set().contains(u) && !c2e@.take(k as int).to_set().contains(w)),
        decreases c2e@.len() - k,
    {
        let ghost sb = *state;
        let v = c2e[k];
        let r = state.add_to_solution(v);
        proof {
            assert(fingers(&sb, v) == fingers(&s0, v));
            assert forall|i: usize| i < s0.diff_vec@.len() implies #[trigger] hits(&s0, c2e@.take(k + 1), i)
                == hits(&s0, c2e@.take(k as int), i) + if fingers(&s0, v).contains(i) { 1nat } else { 0nat } by {
                lemma_hits_push(&s0, c2e@, k as int, i);
                assert(c2e@.take(k + 1) == c2e@.subrange(0, k + 1));
                assert(c2e@.take(k as int) == c2e@.subrange(0, k as int));
            }
        }
        if r.is_none() {
            proof {
                lemma_takes_set(&s0, c2e@);
                assert(c2e@.to_set() == c2@);
                if sb.solution@.len() + 1 > sb.upper_bound {
                    assert(sb.solution@.len() == s0.solution@.len() + k);
                    assert(c2e@.len() > 0);
                    assert(!takes(&s0, c2e@));
                } else {
                    let i = choose|i: usize| #[trigger] fingers(&sb, v).contains(i) && !(sb.diff_vec@[i as int] > 0);
                    assert(sb.fingertable@[v as int]@.contains(i));
                    assert(i < s0.diff_vec@.len());
                    assert(fingers(&s0, v).contains(i));
                    assert(hits(&s0, c2e@.take(k + 1), i) == hits(&s0, c2e@.take(k as int), i) + 1);
                    lemma_hits_prefix(&s0, c2e@, k + 1, c2e@.len() as int, i);
                    assert(c2e@.subrange(0, c2e@.len() as int) == c2e@);
                    assert(c2e@.subrange(0, k + 1) == c2e@.take(k + 1));
                    assert(hits(&s0, c2e@, i) > s0.diff_vec@[i as int]);
                    assert(!takes(&s0, c2e@));
                }
            }
            return None;
        }
        proof {
            lemma_reduced_trans(&s0, &sb, state);
            sb.graph.lemma_simple();
            lemma_without_vertex_edges(sb.graph@, n as nat, v);
            assert(c2e@.take(k + 1) == c2e@.take(k as int).push(v));
            lemma_to_set_push(c2e@.take(k as int), v);
            assert(state.solution@ =~= s2.solution@ + c2e@.take(k + 1));
            assert forall|i: usize| i < s0.diff_vec@.len() implies #[trigger] state.diff_vec@[i as int] == s0.diff_vec@[i as int] - hits(&s0, c2e@.take(k + 1), i) by {
                assert(hits(&s0, c2e@.take(k + 1), i) == hits(&s0, c2e@.take(k as int), i) + if fingers(&s0, v).contains(i) { 1nat } else { 0nat });
            }
        }
        k = k + 1;
    }
    proof {
        assert(c2e@.take(k as int) == c2e@);
        lemma_takes_set(&s0, c2e@);
        assert forall|i: usize| i < s0.diff_vec@.len() implies #[trigger] hits(&s0, c2e@, i) <= s0.diff_vec@[i as int] by {
            assert(state.diff_vec@[i as int] == s0.diff_vec@[i as int] - hits(&s0, c2e@, i));
        }
        assert(takes_set(&s0, c2@));
    }
    let ghost s3 = *state;
    state.shallow_clear_constraints(x);
    let c1e = c1.elements();
    let mut k: usize = 0;
    while k < c1e.len()
        invariant
            state.wf(),
            state.graph == s3.graph,
            state.solution == s3.solution,
            state.upper_bound == s3.upper_bound,
            state.dirty == s3.dirty,
            state.constraints_vec@.len() == s3.constraints_vec@.len(),
            state.cleanup_funcs == s0.cleanup_funcs,
            k <= c1e@.len(),
            fingers_cleared(state, c1e@.take(k as int).to_set().insert(x)),
        decreases c1e@.len() - k,
    {
        let ghost sb = *state;
        state.shallow_clear_constraints(c1e[k]);
        proof {
            assert(c1e@.take(k + 1) == c1e@.take(k as int).push(c1e@[k as int]));
            lemma_to_set_push(c1e@.take(k as int), c1e@[k as int]);
            assert forall|y: Vx| c1e@.take(k + 1).to_set().insert(x).contains(y) && (y as int) < state.fingertable@.len()
                implies (#[trigger] state.fingertable@[y as int])@ == Set::<usize>::empty() by {
                if y != c1e@[k as int] {
                    assert(c1e@.take(k as int).to_set().insert(x).contains(y));
                    assert(sb.fingertable@[y as int]@ == Set::<usize>::empty());
                }
            }
        }
        k = k + 1;
    }
    proof {
        assert(c1e@.take(k as int) == c1e@);
    }
    let mut k: usize = 0;
    while k < c2e.len()
        invariant
            state.wf(),
            state.graph == s3.graph,
            state.solution == s3.solution,
            state.upper_bound == s3.upper_bound,
            state.dirty == s3.dirty,
            state.constraints_vec@.len() == s3.constraints_vec@.len(),
            state.cleanup_funcs == s0.cleanup_funcs,
            k <= c2e@.len(),
            fingers_cleared(state, c1e@.to_set().insert(x).union(c2e@.take(k as int).to_set())),
        decreases c2e@.len() - k,
    {
        let ghost sb = *state;
        state.shallow_clear_constraints(c2e[k]);
        proof {
            assert(c2e@.take(k + 1) == c2e@.take(k as int).push(c2e@[k as int]));
            lemma_to_set_push(c2e@.take(k as int), c2e@[k as int]);
            assert forall|y: Vx| c1e@.to_set().insert(x).union(c2e@.take(k + 1).to_set()).contains(y) && (y as int) < state.fingertable@.len()
                implies (#[trigger] state.fingertable@[y as int])@ == Set::<usize>::empty() by {
                if y != c2e@[k as int] {
                    assert(c1e@.to_set().insert(x).union(c2e@.take(k as int).to_set()).contains(y));
                    assert(sb.fingertable@[y as int]@ == Set::<usize>::empty());
                }
            }
        }
        k = k + 1;
    }
    proof {
        assert(c2e@.take(k as int) == c2e@);
        assert(c1e@.to_set().insert(x).union(c2e@.to_set()) =~= c1@.union(c2@).insert(x));
    }
    let ghost pv = pairs@;
    let ghost cf = state.cleanup_funcs@;
    state.cleanup_funcs.push(Cleanup::TwoClique { x, pairs });
    proof {
        let la = s0.solution@.len() as int;
        assert(state.solution@.subrange(la, state.solution@.len() as int) =~= c2e@);
        assert(state.cleanup_funcs@.drop_last() =~= cf);
        assert forall|u: Vx, w: Vx| #[trigger] has_edge(state.graph@, u, w) <==> (u != x && w != x && !c2@.contains(u) && !c2@.contains(w)
            && with_pairs(g0, pv, u, w)) by {
            assert(has_edge(s3.graph@, u, w) <==> (has_edge(s2.graph@, u, w) && !c2e@.to_set().contains(u) && !c2e@.to_set().contains(w)));
            assert(has_edge(s2.graph@, u, w) <==> (has_edge(s1.graph@, u, w) && u != x && w != x));
        }
        assert(split_ok(s0.graph@, x, c1@, c2@, pv));
        assert(state.solution@.subrange(0, la) == s0.solution@);
        assert(state.solution@.subrange(la, state.solution@.len() as int).to_set() == c2@);
        assert(state.solution@.subrange(la, state.solution@.len() as int).no_duplicates());
        assert(state.cleanup_funcs@.len() == s0.cleanup_funcs@.len() + 1);
        assert(state.cleanup_funcs@.drop_last() == s0.cleanup_funcs@);
        assert(state.cleanup_funcs@.last() matches Cleanup::TwoClique { x: y, pairs: q } && y == x && q@ == pv);
        assert(two_clique_fold(&s0, state, x, c1@, c2@, pv));
        assert(reduced(&s3, state)) by {
            assert(state.solution@.subrange(0, s3.solution@.len() as int) =~= s3.solution@);
        }
        lemma_reduced_trans(&s0, &s3, state);
        assert(state.graph@.dom() != d0);
        assert(fingers_cleared(state, c1@.union(c2@).insert(x)));
    }
    Some(())
}

impl TwoClique {
    /// A copy of the rule with its data.
    pub fn duplicate(&self) -> (r: TwoClique)
        ensures
            forall|n: nat| self.inv(n) ==> r.inv(n),
            r.0@ == self.0@,
    {
        let r = TwoClique(self.0.duplicate());
        proof {
            assert(r.0@ == self.0@);
        }
        r
    }
}

impl Idea for TwoClique {
    closed spec fn inv(&self, n: nat) -> bool {
        forall|v: Vx| self.0@.contains(v) ==> v < n
    }

    closed spec fn pending(&self, dirty: Set<Vx>) -> bool {
        dirty.len() > 0 || self.0@.len() > 0
    }

    fn new(g: &Graph) -> (r: Self)
        ensures
            r.0@ == g@.dom(),
    {
        let vs = g.vertices();
        let s = IdSet::from_vec(&vs);
        proof {
            g.lemma_simple();
        }
        TwoClique(s)
    }

    fn priority(&self, state: &State, dirty: &IdSet) -> (r: usize)
        ensures
            r == (if self.pending(dirty@) { 4usize } else { 0 }),
    {
        if dirty.len() == 0 && self.0.len() == 0 {
            return 0;
        }
        4
    }

    fn apply(&mut self, state: &mut State, dirty: &IdSet) -> (r: Option<()>)
        ensures
            r is Some ==> progressed(old(state), final(state)) || (unchanged(old(state), final(state))
                && !final(self).pending(Set::empty())),
            r is Some ==> exists|k: nat| two_clique_steps(*old(state), *final(state), k),
            r is Some ==> forall|y: Vx| old(self).0@.contains(y) || dirty@.contains(y)
                ==> #[trigger] two_clique_seen(*old(state), *final(state), y),
            r is None ==> exists|m: State, k: nat, x: Vx, c1: Set<Vx>, c2: Set<Vx>, pairs: Seq<(Vx, Vx)>|
                #![trigger two_clique_steps(*old(state), m, k), two_clique_refused(&m, x, c1, c2, pairs)]
                two_clique_steps(*old(state), m, k) && m.wf() && two_clique_refused(&m, x, c1, c2, pairs),
    {
        let n = state.graph.n();
        let ds = dirty.elements();
        let mut k: usize = 0;
        while k < ds.len()
            invariant
                k <= ds@.len(),
                *state == *old(state),
                n == state.graph.spec_n(),
                ds@.to_set() == dirty@,
                forall|v: Vx| dirty@.contains(v) ==> v < n,
                forall|v: Vx| self.0@.contains(v) ==> v < n,
                forall|v: Vx| old(self).0@.contains(v) ==> self.0@.contains(v),
                forall|j: int| 0 <= j < k ==> self.0@.contains(#[trigger] ds@[j]),
            decreases ds@.len() - k,
        {
            proof {
                assert(ds@.to_set().contains(ds@[k as int]));
            }
            let ghost sb = self.0@;
            self.0.insert(ds[k]);
            proof {
                assert forall|v: Vx| self.0@.contains(v) implies v < n by {
                    if v != ds@[k as int] {
                        assert(sb.contains(v));
                    }
                }
            }
            k = k + 1;
        }
        let ghost s0 = *state;
        let ghost mut progress = false;
        let ghost mut done: Set<Vx> = Set::empty();
        proof {
            lemma_reduced_refl(state);
            assert(two_clique_steps(s0, *state, 0));
            assert forall|y: Vx| old(self).0@.contains(y) || dirty@.contains(y) implies self.0@.contains(y) by {
                if dirty@.contains(y) {
                    assert(ds@.to_set().contains(y));
                    let j = choose|j: int| 0 <= j < ds@.len() && ds@[j] == y;
                    assert(self.0@.contains(ds@[j]));
                }
            }
        }
        loop
            invariant
                state.wf(),
                s0.wf(),
                n == state.graph.spec_n(),
                n == s0.graph.spec_n(),
                forall|v: Vx| self.0@.contains(v) ==> v < n,
                reduced(&s0, state),
                s0 == *old(state),
                progress ==> progressed(&s0, state),
                !progress ==> *state == s0,
                exists|k: nat| two_clique_steps(s0, *state, k),
                forall|y: Vx| old(self).0@.contains(y) || dirty@.contains(y) ==> self.0@.contains(y) || done.contains(y),
                forall|y: Vx| done.contains(y) ==> #[trigger] two_clique_seen(s0, *state, y),
            decreases self.0@.len(),
        {
            proof {
                lemma_bounded_set_len(self.0@, n);
            }
            let x = match self.0.some_element() {
                None => {
                    proof {
                        if !progress {
                            lemma_reduced_refl(&s0);
                        }
                        assert(self.0@.len() == 0);
                        let k = choose|k: nat| two_clique_steps(s0, *state, k);
                        crate::sound::lemma_two_clique_steps_within(s0, *state, k);
                        crate::sound::lemma_within_from_graph(&s0, state);
                    }
                    return Some(());
                },
                Some(x) => x,
            };
            let ghost sb = self.0@;
            self.0.remove(x);
            proof {
                assert forall|v: Vx| self.0@.contains(v) implies v < n by {
                    assert(sb.contains(v));
                }
                done = done.insert(x);
            }
            match partition_neighbourhood(&state.graph, x) {
                None => {
                    proof {
                        let k = choose|k: nat| two_clique_steps(s0, *state, k);
                        assert(two_clique_steps(*state, *state, 0));
                        assert(two_clique_steps(s0, *state, k) && two_clique_steps(*state, *state, 0));
                        assert(two_clique_seen(s0, *state, x));
                    }
                },
                Some(t) => {
                    let (c1, c2, pairs) = t;
                    let ghost before = *state;
                    let ghost (gc1, gc2, gp) = (c1@, c2@, pairs@);
                    let r = apply_two_clique(state, x, c1, c2, pairs);
                    if r.is_none() {
                        proof {
                            let k = choose|k: nat| two_clique_steps(s0, before, k);
                            assert(two_clique_steps(*old(state), before, k) && two_clique_refused(&before, x, gc1, gc2, gp));
                        }
                        return None;
                    }
                    proof {
                        lemma_reduced_trans(&s0, &before, state);
                        progress = true;
                        let k = choose|k: nat| two_clique_steps(s0, before, k);
                        assert(two_clique_fold(&before, state, x, gc1, gc2, gp));
                        assert(two_clique_steps(s0, *state, k + 1));
                        assert forall|y: Vx| done.contains(y) implies #[trigger] two_clique_seen(s0, *state, y) by {
                            if y == x {
                                assert(two_clique_steps(before, before, 0));
                                lemma_two_clique_steps_push(before, before, 0, *state, x, gc1, gc2, gp);
                                assert(two_clique_steps(*state, *state, 0));
                                assert(two_clique_fold(&before, state, x, gc1, gc2, gp) && two_clique_steps(*state, *state, 0));
                                assert(two_clique_steps(s0, before, k) && two_clique_steps(before, *state, 1));
                            } else {
                                lemma_two_clique_seen_push(s0, before, *state, y, x, gc1, gc2, gp);
                            }
                        }
                    }
                },
            }
        }
    }
}

} // verus!
