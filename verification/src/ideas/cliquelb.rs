//! A lower bound from a greedy cover by cliques: a clique of `s` vertices
//! needs `s - 1` of them in every cover.

use vstd::prelude::*;
use crate::idset::IdSet;
use crate::graph::{Vx, Graph, nbrs, has_edge, simple_graph};
use crate::state::{State, lb_fits, lemma_reduced_refl, is_vertex_cover, beyond_bound};
use vstd::set_lib::{lemma_len_subset, lemma_set_difference_len, lemma_set_subset_finite, lemma_set_disjoint_lens};
use crate::idea::Idea;
use crate::branch::is_clique;

verus! {

/// The clique-cover lower bound.
pub struct CliqueLB;

/// The vertices that lie in some set of `cs`.
pub open spec fn union_of(cs: Seq<Set<Vx>>) -> Set<Vx> {
    Set::new(|x: Vx| exists|c: int| 0 <= c < cs.len() && #[trigger] cs[c].contains(x))
}

/// `cs` covers the vertices of `g` with nonempty cliques of `g`.
pub open spec fn clique_cover(g: Map<Vx, Set<Vx>>, cs: Seq<Set<Vx>>) -> bool {
    &&& forall|c: int| 0 <= c < cs.len() ==> #[trigger] good_clique(g, cs[c])
    &&& union_of(cs) == g.dom()
}

/// A nonempty finite clique of vertices of `g`.
pub open spec fn good_clique(g: Map<Vx, Set<Vx>>, c: Set<Vx>) -> bool {
    &&& is_clique(g, c)
    &&& c.finite()
    &&& c.len() > 0
    &&& c.subset_of(g.dom())
}

/// The second components of the first `i` pairs.
pub open spec fn processed(keyed: Seq<(u32, Vx)>, i: int) -> Set<Vx> {
    Set::new(|x: Vx| exists|t: int| 0 <= t < i && #[trigger] keyed[t].1 == x)
}

/// None of the first `c` sets lies inside `hs`.
pub open spec fn no_fit(cs: Seq<IdSet>, c: int, hs: Set<Vx>) -> bool {
    forall|cc: int| 0 <= cc < c ==> !(#[trigger] cs[cc])@.subset_of(hs)
}

/// Some set of `cs` holds `x`.
pub open spec fn in_some(cs: Seq<IdSet>, x: Vx) -> bool {
    exists|c: int| 0 <= c < cs.len() && (#[trigger] cs[c])@.contains(x)
}

/// The set at `h` lies inside `hs`, and none before it does.
pub open spec fn fit_at(cs: Seq<IdSet>, h: int, hs: Set<Vx>) -> bool {
    &&& 0 <= h < cs.len()
    &&& cs[h]@.subset_of(hs)
    &&& no_fit(cs, h, hs)
}

/// `cs` is built greedily: no clique of `cs` lies inside the
/// neighbourhood of a vertex of a later clique.
pub open spec fn greedy_cover(g: Map<Vx, Set<Vx>>, cs: Seq<Set<Vx>>) -> bool {
    forall|c: int, cc: int, x: Vx| #![trigger cs[c].contains(x), cs[cc]]
        0 <= cc < c < cs.len() && cs[c].contains(x) ==> !cs[cc].subset_of(nbrs(g, x))
}

/// The same over id sets.
pub open spec fn greedy_ids(g: Map<Vx, Set<Vx>>, cs: Seq<IdSet>) -> bool {
    forall|c: int, cc: int, x: Vx| #![trigger cs[c]@.contains(x), cs[cc]]
        0 <= cc < c < cs.len() && cs[c]@.contains(x) ==> !cs[cc]@.subset_of(nbrs(g, x))
}

/// The views of a sequence of id sets.
pub open spec fn set_views(cs: Seq<IdSet>) -> Seq<Set<Vx>> {
    cs.map_values(|c: IdSet| c@)
}

/// A vertex cover misses at most one vertex of a clique.
proof fn lemma_clique_misses_one(g: Map<Vx, Set<Vx>>, k: Set<Vx>, c: Set<Vx>)
    requires
        is_clique(g, k),
        k.finite(),
        is_vertex_cover(g, c),
    ensures
        k.len() <= k.intersect(c).len() + 1,
{
    let d = k.difference(c);
    if d.len() > 0 {
        let a = d.choose();
        assert(d.contains(a)) by {
            if !d.contains(a) {
                assert(d =~= Set::<Vx>::empty());
            }
        }
        assert(d.subset_of(set![a])) by {
            assert forall|x: Vx| d.contains(x) implies x == a by {
                if x != a {
                    assert(has_edge(g, a, x));
                }
            }
        }
        lemma_len_subset(d, set![a]);
    }
    let i = k.intersect(c);
    lemma_set_subset_finite(k, i);
    lemma_set_subset_finite(k, d);
    assert(k =~= i.union(d));
    lemma_set_disjoint_lens(i, d);
}

/// Cliques that are finite need, in every vertex cover, all but one of
/// their vertices each: the vertices they hold, less their number.
proof fn lemma_cliques_bound(g: Map<Vx, Set<Vx>>, cs: Seq<Set<Vx>>, c: Set<Vx>)
    requires
        forall|i: int| 0 <= i < cs.len() ==> is_clique(g, #[trigger] cs[i]) && cs[i].finite(),
        is_vertex_cover(g, c),
    ensures
        union_of(cs).finite(),
        union_of(cs).len() <= union_of(cs).intersect(c).len() + cs.len(),
    decreases cs.len(),
{
    if cs.len() == 0 {
        assert(union_of(cs) =~= Set::<Vx>::empty());
        assert(union_of(cs).intersect(c) =~= Set::<Vx>::empty());
    } else {
        let rest = cs.drop_last();
        let q = cs.last();
        assert forall|i: int| 0 <= i < rest.len() implies is_clique(g, #[trigger] rest[i]) && rest[i].finite() by {
            assert(rest[i] == cs[i]);
        }
        lemma_cliques_bound(g, rest, c);
        let u = union_of(rest);
        let q2 = q.difference(u);
        assert(is_clique(g, cs[cs.len() - 1]) && cs[cs.len() - 1].finite());
        assert(is_clique(g, q2));
        lemma_set_subset_finite(q, q2);
        lemma_clique_misses_one(g, q2, c);
        assert(union_of(cs) =~= u.union(q2)) by {
            assert forall|x: Vx| union_of(cs).contains(x) <==> u.union(q2).contains(x) by {
                if union_of(cs).contains(x) {
                    let i = choose|i: int| 0 <= i < cs.len() && #[trigger] cs[i].contains(x);
                    if i < cs.len() - 1 {
                        assert(rest[i].contains(x));
                    }
                }
                if u.contains(x) {
                    let i = choose|i: int| 0 <= i < rest.len() && #[trigger] rest[i].contains(x);
                    assert(cs[i].contains(x));
                }
                if q2.contains(x) {
                    assert(cs[cs.len() - 1].contains(x));
                }
            }
        }
        assert(u.disjoint(q2));
        lemma_set_disjoint_lens(u, q2);
        let ui = u.intersect(c);
        let qi = q2.intersect(c);
        lemma_set_subset_finite(u, ui);
        lemma_set_subset_finite(q2, qi);
        assert(union_of(cs).intersect(c) =~= ui.union(qi));
        assert(ui.disjoint(qi));
        lemma_set_disjoint_lens(ui, qi);
    }
}

/// The clique-cover bound is a lower bound: a cover of the vertices of
/// `g` by `m` cliques leaves every vertex cover of `g` with at least the
/// number of vertices less `m` of them.
pub proof fn law_clique_bound(g: Map<Vx, Set<Vx>>, cs: Seq<Set<Vx>>, c: Set<Vx>)
    requires
        clique_cover(g, cs),
        is_vertex_cover(g, c),
    ensures
        g.dom().len() <= g.dom().intersect(c).len() + cs.len(),
{
    assert forall|i: int| 0 <= i < cs.len() implies is_clique(g, #[trigger] cs[i]) && cs[i].finite() by {
        assert(good_clique(g, cs[i]));
    }
    lemma_cliques_bound(g, cs, c);
}

/// `slice::sort_unstable_by_key` with the first component as key: the same
/// pairs, by increasing first component (pairs with equal keys in an order
/// that the documentation leaves open).
#[verifier::external_body]
fn sort_by_first(v: &mut Vec<(u32, Vx)>)
    ensures
        final(v)@.to_multiset() == old(v)@.to_multiset(),
        forall|i: int, j: int| 0 <= i <= j < final(v)@.len() ==> final(v)@[i].0 <= final(v)@[j].0,
{
    v.sort_unstable_by_key(|p| p.0)
}

/// The greedy clique cover: the vertices by increasing degree, each put
/// into the first clique that lies inside its neighbourhood, or into a new
/// one. (The first vertex starts two cliques of its own.) The bound is the
/// number of vertices less the number of cliques.
pub fn clique_bound(g: &Graph) -> (k: usize)
    requires
        g.wf(),
    ensures
        exists|cs: Seq<Set<Vx>>| #[trigger] clique_cover(g@, cs) && greedy_cover(g@, cs) && cs.len() <= g@.dom().len() && k == g@.dom().len() - cs.len(),
{
    broadcast use vstd::seq_lib::group_to_multiset_ensures;
    let vs = g.vertices();
    proof {
        g.lemma_simple();
    }
    let mut keyed: Vec<(u32, Vx)> = Vec::new();
    let mut i: usize = 0;
    while i < vs.len()
        invariant
            g.wf(),
            vs@.to_set() == g@.dom(),
            i <= vs@.len(),
            keyed@.len() == i,
            forall|t: int| 0 <= t < i ==> (#[trigger] keyed@[t]).1 == vs@[t],
        decreases vs@.len() - i,
    {
        proof {
            assert(vs@.to_set().contains(vs@[i as int]));
            g.lemma_simple();
        }
        keyed.push((g.get_degree(vs[i]), vs[i]));
        i = i + 1;
    }
    let ghost pre = keyed@;
    sort_by_first(&mut keyed);
    proof {
        assert forall|t: int| 0 <= t < keyed@.len() implies g@.dom().contains(#[trigger] keyed@[t].1) by {
            assert(keyed@.contains(keyed@[t]));
            assert(keyed@.to_multiset().count(keyed@[t]) > 0);
            assert(pre.contains(keyed@[t]));
            let s = choose|s: int| 0 <= s < pre.len() && pre[s] == keyed@[t];
            assert(vs@.to_set().contains(vs@[s]));
        }
        assert forall|x: Vx| g@.dom().contains(x) implies exists|t: int| 0 <= t < keyed@.len() && #[trigger] keyed@[t].1 == x by {
            assert(vs@.to_set().contains(x));
            let s = choose|s: int| 0 <= s < vs@.len() && vs@[s] == x;
            assert(pre[s].1 == x);
            assert(pre.contains(pre[s]));
            assert(pre.to_multiset().count(pre[s]) > 0);
            assert(keyed@.contains(pre[s]));
            let t = choose|t: int| 0 <= t < keyed@.len() && keyed@[t] == pre[s];
            assert(keyed@[t].1 == x);
        }
        assert(keyed@.to_multiset().len() == pre.to_multiset().len());
        assert(keyed@.len() == pre.len());
    }
    let n = keyed.len();
    let mut cliques: Vec<IdSet> = Vec::new();
    let ghost mut joins: int = 0;
    let mut i: usize = 0;
    while i < n
        invariant
            g.wf(),
            simple_graph(g@, g.spec_n()),
            n == keyed@.len(),
            n == g@.dom().len(),
            i <= n,
            forall|t: int| 0 <= t < keyed@.len() ==> g@.dom().contains(#[trigger] keyed@[t].1),
            forall|c: int| 0 <= c < cliques@.len() ==> #[trigger] good_clique(g@, cliques@[c]@),
            greedy_ids(g@, cliques@),
            forall|x: Vx| in_some(cliques@, x) <==> #[trigger] processed(keyed@, i as int).contains(x),
            i == 0 ==> cliques@.len() == 0 && joins == 0,
            i >= 1 ==> cliques@.len() + joins == i + 1,
            i >= 1 ==> cliques@.len() >= 1,
            joins >= 0,
            i >= 1 && joins == 0 ==> cliques@[0]@ == set![keyed@[0].1],
            joins == 0 ==> forall|t: int| 1 <= t < i ==> !has_edge(g@, keyed@[0].1, #[trigger] keyed@[t].1),
        decreases n - i,
    {
        let ver = keyed[i].1;
        proof {
            assert(g@.dom().contains(keyed@[i as int].1));
        }
        let ghost before_first = cliques@;
        if cliques.len() == 0 {
            let mut s = IdSet::empty();
            s.insert(ver);
            cliques.push(s);
            proof {
                assert(s@ == set![ver]);
                assert(set![ver].len() == 1);
                assert(good_clique(g@, s@));
            }
        }
        let hs = match g.neighbours_hashset(ver) {
            Some(h) => h,
            None => {
                proof {
                    assert(false);
                }
                return 0;
            },
        };
        proof {
            assert(!g@[ver].contains(ver));
            if before_first.len() == 0 {
                assert(cliques@[0]@.contains(ver));
                assert(!cliques@[0]@.subset_of(hs@));
            }
        }
        let len0 = cliques.len();
        let mut c: usize = 0;
        let mut hit: Option<usize> = None;
        loop
            invariant_except_break
                hit is None,
                no_fit(cliques@, c as int, hs@),
            invariant
                c <= len0,
                len0 == cliques@.len(),
            ensures
                hit is None ==> no_fit(cliques@, len0 as int, hs@),
                hit is Some ==> fit_at(cliques@, hit->0 as int, hs@),
            decreases len0 - c,
        {
            if c >= len0 {
                break;
            }
            let fits = cliques[c].is_subset(hs);
            if fits {
                hit = Some(c);
                break;
            }
            c = c + 1;
        }
        let ghost mid = cliques@;
        proof {
            assert(hs@ == nbrs(g@, ver));
            if before_first.len() == 0 {
                assert(mid.len() == 1);
                assert(greedy_ids(g@, mid));
            } else {
                assert(mid == before_first);
            }
            if i == 0 {
                assert(mid.len() == 1);
                if hit is Some {
                    assert(fit_at(mid, hit->0 as int, hs@));
                    assert(mid[0]@.contains(ver));
                }
                assert(hit is None);
            } else {
                assert(mid.len() == before_first.len());
            }
        }
        match hit {
            Some(h) => {
                cliques[h].insert(ver);
                proof {
                    joins = joins + 1;
                    assert(!hs@.contains(ver));
                    assert(good_clique(g@, cliques@[h as int]@)) by {
                        assert(cliques@[h as int]@ == mid[h as int]@.insert(ver));
                        assert(good_clique(g@, mid[h as int]@));
                        assert forall|a: Vx, b: Vx| cliques@[h as int]@.contains(a) && cliques@[h as int]@.contains(b) && a != b
                            implies has_edge(g@, a, b) by {
                            if a == ver {
                                assert(hs@.contains(b));
                            } else if b == ver {
                                assert(hs@.contains(a));
                                assert(g@[ver].contains(a));
                            }
                        }
                    }
                    assert forall|cc: int| 0 <= cc < cliques@.len() implies #[trigger] good_clique(g@, cliques@[cc]@) by {
                        if cc != h {
                            assert(cliques@[cc] == mid[cc]);
                        }
                    }
                    let newc = cliques@;
                    assert forall|c: int, cc: int, x: Vx| 0 <= cc < c < newc.len() && newc[c]@.contains(x)
                        implies !newc[cc]@.subset_of(nbrs(g@, x)) by {
                        if c == h && x == ver {
                            assert(newc[cc] == mid[cc]);
                            assert(!mid[cc]@.subset_of(hs@));
                        } else {
                            if c == h {
                                assert(newc[c]@ == mid[c]@.insert(ver));
                            } else {
                                assert(newc[c] == mid[c]);
                            }
                            assert(mid[c]@.contains(x));
                            assert(!mid[cc]@.subset_of(nbrs(g@, x)));
                            if cc == h {
                                assert(newc[cc]@ == mid[cc]@.insert(ver));
                                let y = choose|y: Vx| mid[cc]@.contains(y) && !nbrs(g@, x).contains(y);
                                assert(newc[cc]@.contains(y));
                            } else {
                                assert(newc[cc] == mid[cc]);
                            }
                        }
                    }
                    assert(greedy_ids(g@, newc));
                }
            },
            None => {
                let mut s = IdSet::empty();
                s.insert(ver);
                cliques.push(s);
                proof {
                    assert(s@ == set![ver]);
                    assert(set![ver].len() == 1);
                    assert(good_clique(g@, s@));
                    assert forall|cc: int| 0 <= cc < cliques@.len() implies #[trigger] good_clique(g@, cliques@[cc]@) by {
                        if cc < mid.len() {
                            assert(cliques@[cc] == mid[cc]);
                        }
                    }
                    let newc = cliques@;
                    assert forall|c: int, cc: int, x: Vx| 0 <= cc < c < newc.len() && newc[c]@.contains(x)
                        implies !newc[cc]@.subset_of(nbrs(g@, x)) by {
                        assert(newc[cc] == mid[cc]);
                        if c == mid.len() {
                            assert(newc[c]@ == set![ver]);
                            assert(x == ver);
                            assert(!mid[cc]@.subset_of(hs@));
                        } else {
                            assert(newc[c] == mid[c]);
                        }
                    }
                    assert(greedy_ids(g@, newc));
                }
            },
        }
        proof {
            if hit is Some {
                assert(cliques@.len() == mid.len());
            } else {
                assert(cliques@.len() == mid.len() + 1);
            }
            if i >= 1 {
                assert(cliques@.len() + joins == i + 2);
            } else {
                assert(cliques@.len() == 2);
            }
        }
        proof {
            let newc = cliques@;
            assert forall|x: Vx| in_some(newc, x) <==> #[trigger] processed(keyed@, i + 1).contains(x) by {
                if in_some(newc, x) {
                    let cc = choose|cc: int| 0 <= cc < newc.len() && (#[trigger] newc[cc])@.contains(x);
                    if x != ver {
                        assert(cc < mid.len());
                        assert(mid[cc]@.contains(x)) by {
                            if hit is Some && cc == hit->0 {
                                assert(newc[cc]@ == mid[cc]@.insert(ver));
                            } else {
                                assert(newc[cc] == mid[cc]);
                            }
                        }
                        if before_first.len() == 0 {
                            assert(mid[cc]@ == set![ver]);
                        } else {
                            assert(mid == before_first);
                            assert(in_some(before_first, x));
                        }
                        assert(processed(keyed@, i as int).contains(x));
                        let t = choose|t: int| 0 <= t < i && #[trigger] keyed@[t].1 == x;
                        assert(0 <= t < i + 1 && keyed@[t].1 == x);
                    } else {
                        assert(keyed@[i as int].1 == x);
                    }
                }
                if processed(keyed@, i + 1).contains(x) {
                    let t = choose|t: int| 0 <= t < i + 1 && #[trigger] keyed@[t].1 == x;
                    if t < i {
                        assert(processed(keyed@, i as int).contains(x));
                        assert(in_some(before_first, x));
                        let cc = choose|cc: int| 0 <= cc < before_first.len() && (#[trigger] before_first[cc])@.contains(x);
                        assert(mid[cc] == before_first[cc]);
                        if hit is Some && cc == hit->0 {
                            assert(newc[cc]@ == mid[cc]@.insert(ver));
                        } else {
                            assert(newc[cc] == mid[cc]);
                        }
                        assert(newc[cc]@.contains(x));
                    } else {
                        assert(x == ver);
                        if hit is Some {
                            assert(newc[hit->0 as int]@.contains(x));
                        } else {
                            assert(newc[newc.len() - 1]@.contains(x));
                        }
                    }
                }
            }
            if joins == 0 {
                assert forall|t: int| 1 <= t < i + 1 implies !has_edge(g@, keyed@[0].1, #[trigger] keyed@[t].1) by {
                    if t == i && i >= 1 && has_edge(g@, keyed@[0].1, keyed@[t].1) {
                        assert(mid[0]@ == set![keyed@[0].1]);
                        assert(hs@.contains(keyed@[0].1));
                        assert(mid[0]@.subset_of(hs@));
                        assert(!no_fit(mid, 1, hs@));
                        assert(hit is Some);
                    }
                }
            }
        }
        i = i + 1;
    }
    proof {
        let cs = set_views(cliques@);
        assert forall|c: int| 0 <= c < cs.len() implies #[trigger] good_clique(g@, cs[c]) by {
            assert(good_clique(g@, cliques@[c]@));
        }
        assert(processed(keyed@, n as int) =~= g@.dom());
        assert forall|x: Vx| union_of(cs).contains(x) <==> g@.dom().contains(x) by {
            assert(processed(keyed@, n as int).contains(x) <==> in_some(cliques@, x));
            if in_some(cliques@, x) {
                let c = choose|c: int| 0 <= c < cliques@.len() && (#[trigger] cliques@[c])@.contains(x);
                assert(cs[c].contains(x));
            }
            if union_of(cs).contains(x) {
                let c = choose|c: int| 0 <= c < cs.len() && #[trigger] cs[c].contains(x);
                assert(cliques@[c]@.contains(x));
            }
        }
        assert(union_of(cs) =~= g@.dom());
        if n > 0 {
            let v0 = keyed@[0].1;
            assert(g@.dom().contains(v0));
            crate::graph::lemma_nonempty_choose(g@[v0]);
            let w = g@[v0].choose();
            assert(has_edge(g@, v0, w));
            let t = choose|t: int| 0 <= t < keyed@.len() && #[trigger] keyed@[t].1 == w;
            assert(joins >= 1);
        }
        assert(clique_cover(g@, cs));
        assert forall|c: int, cc: int, x: Vx| 0 <= cc < c < cs.len() && cs[c].contains(x)
            implies !cs[cc].subset_of(nbrs(g@, x)) by {
            assert(cliques@[c]@.contains(x));
        }
        assert(greedy_cover(g@, cs));
    }
    n - cliques.len()
}

impl Idea for CliqueLB {
    open spec fn inv(&self, n: nat) -> bool {
        true
    }

    open spec fn pending(&self, dirty: Set<Vx>) -> bool {
        dirty.len() > 0
    }

    fn new(g: &Graph) -> (r: Self) {
        CliqueLB
    }

    fn priority(&self, state: &State, dirty: &IdSet) -> (r: usize)
        ensures
            r == (if dirty@.len() > 0 { 2usize } else { 0 }),
    {
        if dirty.len() == 0 {
            return 0;
        }
        2
    }

    fn apply(&mut self, state: &mut State, dirty: &IdSet) -> (r: Option<()>)
        ensures
            *final(state) == *old(state),
            exists|k: nat| (exists|cs: Seq<Set<Vx>>| #[trigger] clique_cover(old(state).graph@, cs) && greedy_cover(old(state).graph@, cs) && cs.len() <= old(state).graph@.dom().len()
                && k == old(state).graph@.dom().len() - cs.len()) && (r is Some <==> #[trigger] lb_fits(old(state), k)),
            r is None ==> beyond_bound(old(state)),
    {
        proof {
            lemma_reduced_refl(state);
        }
        let k = clique_bound(&state.graph);
        let r = state.lb(k);
        proof {
            assert(lb_fits(old(state), k as nat) <==> r is Some);
            if r is None {
                let g = old(state).graph@;
                let cs = choose|cs: Seq<Set<Vx>>| #[trigger] clique_cover(g, cs) && greedy_cover(g, cs) && cs.len() <= g.dom().len() && k == g.dom().len() - cs.len();
                assert forall|c: Set<Vx>| #[trigger] is_vertex_cover(g, c)
                    implies old(state).solution@.len() + g.dom().intersect(c).len() > old(state).upper_bound by {
                    law_clique_bound(g, cs, c);
                }
            }
        }
        r
    }
}

} // verus!
