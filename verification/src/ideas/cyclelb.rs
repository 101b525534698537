//! A lower bound from a greedy packing: an edge at a vertex with a single
//! neighbour needs one vertex of every cover, a cycle of length `l` needs
//! `(l + 1) / 2` of them.

use vstd::prelude::*;
use vstd::set_lib::*;
use crate::idset::IdSet;
use crate::graph::{Vx, Graph, nbrs, has_edge, without_set, without_vertex, simple_graph, lemma_contains_len};
use crate::state::{State, lb_fits, lemma_reduced_refl, is_vertex_cover, beyond_bound};
use crate::idea::Idea;
use crate::cleanup::position;

verus! {

/// The cycle-packing lower bound.
pub struct CycleLB;

/// The entries `i` and `i + 1` of `c` are joined by an edge.
pub open spec fn joined(g: Map<Vx, Set<Vx>>, c: Seq<Vx>, i: int) -> bool {
    has_edge(g, c[i], c[i + 1])
}

/// `c` is a cycle of `g`: at least three distinct vertices, each joined
/// to the next and the last to the first.
pub open spec fn is_cycle(g: Map<Vx, Set<Vx>>, c: Seq<Vx>) -> bool {
    &&& c.len() >= 3
    &&& c.no_duplicates()
    &&& forall|i: int| 0 <= i < c.len() - 1 ==> #[trigger] joined(g, c, i)
    &&& has_edge(g, c[c.len() - 1], c[0])
}

/// The first `j` entries of `nb` all lead straight back along the walk
/// `w` (to its next-to-last vertex).
pub open spec fn all_back(nb: Seq<Vx>, j: int, w: Seq<Vx>) -> bool {
    &&& (j > 0 ==> w.len() >= 2)
    &&& forall|jj: int| 0 <= jj < j ==> #[trigger] nb[jj] == w[w.len() - 2]
}

/// One entry of a prefix that leads straight back.
proof fn lemma_all_back(nb: Seq<Vx>, j: int, w: Seq<Vx>, jj: int)
    requires
        all_back(nb, j, w),
        0 <= jj < j,
    ensures
        w.len() >= 2 && nb[jj] == w[w.len() - 2],
{
}

/// A sequence whose entries all equal `z` holds at most one element.
proof fn lemma_all_equal(s: Seq<Vx>, z: Vx)
    requires
        forall|i: int| 0 <= i < s.len() ==> s[i] == z,
    ensures
        s.to_set().len() <= 1,
        s.to_set().finite(),
{
    assert(s.to_set().subset_of(set![z]));
    lemma_set_subset_finite(set![z], s.to_set());
    lemma_len_subset(s.to_set(), set![z]);
}

/// `p` is an edge of `g`, as its two end points, or a cycle of `g`.
pub open spec fn is_item(g: Map<Vx, Set<Vx>>, p: Seq<Vx>) -> bool {
    ||| p.len() == 2 && has_edge(g, p[0], p[1])
    ||| is_cycle(g, p)
}

/// What every vertex cover needs of the item `p`: one vertex of an edge,
/// half the length of a cycle, rounded up.
pub open spec fn weight(p: Seq<Vx>) -> nat {
    if p.len() == 2 { 1 } else { ((p.len() + 1) / 2) as nat }
}

/// The weights of the items of `ps` added up.
pub open spec fn weight_sum(ps: Seq<Seq<Vx>>) -> nat
    decreases ps.len(),
{
    if ps.len() == 0 { 0 } else { weight_sum(ps.drop_last()) + weight(ps.last()) }
}

/// The vertices of the items of `ps`.
pub open spec fn items_of(ps: Seq<Seq<Vx>>) -> Set<Vx> {
    Set::new(|x: Vx| exists|j: int| 0 <= j < ps.len() && #[trigger] ps[j].contains(x))
}

/// `ps` packs edges and cycles of `g` that share no vertex.
pub open spec fn is_packing(g: Map<Vx, Set<Vx>>, ps: Seq<Seq<Vx>>) -> bool {
    &&& forall|j: int| 0 <= j < ps.len() ==> is_item(g, #[trigger] ps[j])
    &&& forall|j1: int, j2: int, x: Vx| 0 <= j1 < ps.len() && 0 <= j2 < ps.len() && j1 != j2
        && #[trigger] ps[j1].contains(x) ==> !#[trigger] ps[j2].contains(x)
}

/// Every edge of `g` has an end point in an item of `ps`: the packing
/// leaves no edge of `g` behind.
pub open spec fn packing_spans(g: Map<Vx, Set<Vx>>, ps: Seq<Seq<Vx>>) -> bool {
    forall|u: Vx, w: Vx| #[trigger] has_edge(g, u, w) ==> items_of(ps).contains(u) || items_of(ps).contains(w)
}

/// Step `j` of the greedy packing: in the graph `gs[j]` left by the items
/// before it, item `j` is an edge from a vertex of degree one, where there
/// is such a vertex, and a cycle otherwise; `gs[j + 1]` is what is left.
pub open spec fn greedy_step(gs: Seq<Map<Vx, Set<Vx>>>, ps: Seq<Seq<Vx>>, j: int) -> bool {
    let h = gs[j];
    let p = ps[j];
    if p.len() == 2 {
        &&& nbrs(h, p[0]) == set![p[1]]
        &&& gs[j + 1] == without_vertex(h, p[1])
    } else {
        &&& is_cycle(h, p)
        &&& forall|v: Vx| #[trigger] h.dom().contains(v) ==> nbrs(h, v).len() != 1
        &&& gs[j + 1] == without_set(h, p.to_set())
    }
}

/// `ps` is a run of the greedy packing of `g`, through the graphs `gs`,
/// that takes items until no edge is left.
pub open spec fn greedy_packing(g: Map<Vx, Set<Vx>>, ps: Seq<Seq<Vx>>, gs: Seq<Map<Vx, Set<Vx>>>) -> bool {
    &&& gs.len() == ps.len() + 1
    &&& gs[0] == g
    &&& forall|j: int| 0 <= j < ps.len() ==> #[trigger] greedy_step(gs, ps, j)
    &&& gs.last().dom() == Set::<Vx>::empty()
}

/// The number of the first `n` entries of `p` that lie in `c`.
pub open spec fn count_in(p: Seq<Vx>, c: Set<Vx>, n: int) -> int
    decreases n,
{
    if n <= 0 { 0 } else { count_in(p, c, n - 1) + (if c.contains(p[n - 1]) { 1int } else { 0 }) }
}

/// Whether entry `i` of `p` lies in `c`, as a number.
pub open spec fn hit(p: Seq<Vx>, c: Set<Vx>, i: int) -> int {
    if c.contains(p[i]) { 1 } else { 0 }
}

/// Along the first `n` entries of a cycle, each of the `n - 1` edges
/// between them has an end point in the cover.
proof fn lemma_cycle_count(g: Map<Vx, Set<Vx>>, p: Seq<Vx>, c: Set<Vx>, n: int)
    requires
        is_cycle(g, p),
        is_vertex_cover(g, c),
        1 <= n <= p.len(),
    ensures
        2 * count_in(p, c, n) - hit(p, c, n - 1) - hit(p, c, 0) >= n - 1,
    decreases n,
{
    assert(count_in(p, c, n) == count_in(p, c, n - 1) + hit(p, c, n - 1));
    if n > 1 {
        lemma_cycle_count(g, p, c, n - 1);
        assert(joined(g, p, n - 2));
        assert(has_edge(g, p[n - 2], p[n - 1]));
        assert(c.contains(p[n - 2]) || c.contains(p[n - 1]));
        assert(hit(p, c, n - 2) + hit(p, c, n - 1) >= 1);
    } else {
        assert(count_in(p, c, 0) == 0);
    }
}

/// Counting the entries of a sequence without repeats that lie in `c`
/// counts the elements they share with `c`.
proof fn lemma_count_in_set(p: Seq<Vx>, c: Set<Vx>, n: int)
    requires
        p.no_duplicates(),
        0 <= n <= p.len(),
    ensures
        count_in(p, c, n) == p.subrange(0, n).to_set().intersect(c).len(),
        p.subrange(0, n).to_set().intersect(c).finite(),
    decreases n,
{
    let s = p.subrange(0, n).to_set().intersect(c);
    if n == 0 {
        assert(s =~= Set::<Vx>::empty());
    } else {
        lemma_count_in_set(p, c, n - 1);
        let s0 = p.subrange(0, n - 1).to_set().intersect(c);
        assert(p.subrange(0, n) == p.subrange(0, n - 1).push(p[n - 1]));
        crate::graph::lemma_to_set_push(p.subrange(0, n - 1), p[n - 1]);
        assert(!s0.contains(p[n - 1])) by {
            let pre = p.subrange(0, n - 1);
            if pre.contains(p[n - 1]) {
                let i = choose|i: int| 0 <= i < n - 1 && #[trigger] pre[i] == p[n - 1];
                assert(p[i] == p[n - 1]);
            }
        }
        if c.contains(p[n - 1]) {
            assert(s =~= s0.insert(p[n - 1]));
        } else {
            assert(s =~= s0);
        }
    }
}

/// Every vertex cover holds at least the weight of an item in vertices of
/// the item.
proof fn lemma_item_needs(g: Map<Vx, Set<Vx>>, p: Seq<Vx>, c: Set<Vx>)
    requires
        is_item(g, p),
        is_vertex_cover(g, c),
    ensures
        p.to_set().intersect(c).finite(),
        weight(p) <= p.to_set().intersect(c).len(),
{
    let s = p.to_set().intersect(c);
    if p.len() == 2 && has_edge(g, p[0], p[1]) {
        lemma_set_subset_finite(p.to_set(), s);
        let x = if c.contains(p[0]) { p[0] } else { p[1] };
        assert(s.contains(x));
        lemma_contains_len(s, x);
    } else {
        let l = p.len() as int;
        lemma_cycle_count(g, p, c, l);
        assert(has_edge(g, p[l - 1], p[0]));
        lemma_count_in_set(p, c, l);
        assert(p.subrange(0, l) == p);
        assert(2 * count_in(p, c, l) >= l);
        assert((l + 1) / 2 <= count_in(p, c, l));
    }
}

/// Every vertex cover holds at least the total weight of a packing in
/// vertices of the packing.
proof fn lemma_packing_needs(g: Map<Vx, Set<Vx>>, ps: Seq<Seq<Vx>>, c: Set<Vx>)
    requires
        is_packing(g, ps),
        is_vertex_cover(g, c),
    ensures
        items_of(ps).intersect(c).finite(),
        weight_sum(ps) <= items_of(ps).intersect(c).len(),
    decreases ps.len(),
{
    let all = items_of(ps).intersect(c);
    if ps.len() == 0 {
        assert(all =~= Set::<Vx>::empty());
    } else {
        let rest = ps.drop_last();
        let q = ps.last();
        assert(is_packing(g, rest)) by {
            assert forall|j: int| 0 <= j < rest.len() implies is_item(g, #[trigger] rest[j]) by {
                assert(rest[j] == ps[j]);
            }
            assert forall|j1: int, j2: int, x: Vx| 0 <= j1 < rest.len() && 0 <= j2 < rest.len() && j1 != j2
                && #[trigger] rest[j1].contains(x) implies !#[trigger] rest[j2].contains(x) by {
                assert(rest[j1] == ps[j1] && rest[j2] == ps[j2]);
            }
        }
        lemma_packing_needs(g, rest, c);
        assert(is_item(g, ps[ps.len() - 1]));
        lemma_item_needs(g, q, c);
        let a = items_of(rest).intersect(c);
        let b = q.to_set().intersect(c);
        assert(all =~= a.union(b)) by {
            assert forall|x: Vx| all.contains(x) <==> a.union(b).contains(x) by {
                if all.contains(x) {
                    let j = choose|j: int| 0 <= j < ps.len() && #[trigger] ps[j].contains(x);
                    if j < ps.len() - 1 {
                        assert(rest[j].contains(x));
                    }
                }
                if a.contains(x) {
                    let j = choose|j: int| 0 <= j < rest.len() && #[trigger] rest[j].contains(x);
                    assert(ps[j].contains(x));
                }
                if b.contains(x) {
                    assert(ps[ps.len() - 1].contains(x));
                }
            }
        }
        assert(a.disjoint(b)) by {
            assert forall|x: Vx| a.contains(x) implies !b.contains(x) by {
                let j = choose|j: int| 0 <= j < rest.len() && #[trigger] rest[j].contains(x);
                assert(ps[j].contains(x));
                assert(!ps[ps.len() - 1].contains(x));
            }
        }
        lemma_set_disjoint_lens(a, b);
    }
}

/// The packing bound is a lower bound: every vertex cover of `g` holds
/// at least the total weight of a packing of edges and cycles of `g` in
/// vertices of `g`.
pub proof fn law_cycle_bound(g: Map<Vx, Set<Vx>>, ps: Seq<Seq<Vx>>, c: Set<Vx>)
    requires
        is_packing(g, ps),
        is_vertex_cover(g, c),
        g.dom().finite(),
        forall|u: Vx, v: Vx| #[trigger] has_edge(g, u, v) ==> has_edge(g, v, u),
    ensures
        weight_sum(ps) <= g.dom().intersect(c).len(),
{
    lemma_packing_needs(g, ps, c);
    assert(items_of(ps).intersect(c).subset_of(g.dom().intersect(c))) by {
        assert forall|x: Vx| items_of(ps).intersect(c).contains(x) implies g.dom().contains(x) by {
            let j = choose|j: int| 0 <= j < ps.len() && #[trigger] ps[j].contains(x);
            let p = ps[j];
            assert(is_item(g, p));
            let i = choose|i: int| 0 <= i < p.len() && p[i] == x;
            if p.len() == 2 && has_edge(g, p[0], p[1]) {
                if i == 1 {
                    assert(has_edge(g, p[1], p[0]));
                }
            } else if i < p.len() - 1 {
                assert(joined(g, p, i));
            } else {
                assert(has_edge(g, p[p.len() - 1], p[0]));
            }
        }
    }
    lemma_len_subset(items_of(ps).intersect(c), g.dom().intersect(c));
}

/// Walks from a vertex along edges, never straight back, until it meets a
/// vertex of the walk again; takes the cycle it closed out of `g` and
/// returns its length. Every vertex needs two neighbours for the walk to
/// go on.
fn find_greedy_cycle(g: &mut Graph) -> (r: usize)
    requires
        old(g).wf(),
        old(g)@.dom().len() > 0,
        forall|v: Vx| #[trigger] old(g)@.dom().contains(v) ==> old(g)@[v].len() >= 2,
    ensures
        final(g).wf(),
        final(g).spec_n() == old(g).spec_n(),
        exists|c: Seq<Vx>| #[trigger] is_cycle(old(g)@, c) && c.len() == r && final(g)@ == without_set(old(g)@, c.to_set()),
{
    let vs = g.vertices();
    proof {
        g.lemma_simple();
        assert(vs@.to_set().contains(vs@[0]));
    }
    let mut vec: Vec<Vx> = Vec::new();
    vec.push(vs[0]);
    loop
        invariant
            g.wf(),
            g@ == old(g)@,
            g.spec_n() == old(g).spec_n(),
            simple_graph(g@, g.spec_n()),
            forall|v: Vx| #[trigger] g@.dom().contains(v) ==> g@[v].len() >= 2,
            vec@.len() >= 1,
            vec@.no_duplicates(),
            forall|i: int| 0 <= i < vec@.len() ==> g@.dom().contains(#[trigger] vec@[i]),
            forall|i: int| 0 <= i < vec@.len() - 1 ==> #[trigger] joined(g@, vec@, i),
            vec@.len() <= g@.dom().len(),
        decreases g@.dom().len() - vec@.len(),
    {
        let len = vec.len();
        let x = vec[len - 1];
        let nb = g.neighbours(x);
        let mut found: Option<usize> = None;
        let mut next: Option<Vx> = None;
        let mut j: usize = 0;
        loop
            invariant
                g.wf(),
                simple_graph(g@, g.spec_n()),
                j <= nb@.len(),
                nb@.to_set() == nbrs(g@, x),
                len == vec@.len(),
                len >= 1,
                x == vec@[len - 1],
                g@.dom().contains(x),
                found matches Some(p) ==> p < len && has_edge(g@, x, vec@[p as int]) && (len >= 2 ==> vec@[p as int] != vec@[len - 2]),
                next matches Some(y) ==> has_edge(g@, x, y) && !vec@.contains(y),
                found is None && next is None ==> all_back(nb@, j as int, vec@),
            ensures
                found is None && next is None ==> j == nb@.len(),
            decreases nb@.len() - j,
        {
            if j >= nb.len() {
                break;
            }
            let y = nb[j];
            proof {
                assert(nb@.to_set().contains(nb@[j as int]));
            }
            if len >= 2 && y == vec[len - 2] {
                j = j + 1;
            } else {
                match position(&vec, y) {
                    Some(p) => {
                        found = Some(p);
                    },
                    None => {
                        next = Some(y);
                    },
                }
                break;
            }
        }
        if let Some(p) = found {
            let mut cycle: Vec<Vx> = Vec::new();
            let mut k: usize = p;
            while k < len
                invariant
                    p <= k <= len,
                    len == vec@.len(),
                    cycle@ == vec@.subrange(p as int, k as int),
                decreases len - k,
            {
                cycle.push(vec[k]);
                proof {
                    assert(vec@.subrange(p as int, k + 1) == vec@.subrange(p as int, k as int).push(vec@[k as int]));
                }
                k = k + 1;
            }
            let l = cycle.len();
            proof {
                assert(vec@[p as int] != x);
                let c = cycle@;
                assert(p + 3 <= len);
                assert(c.no_duplicates()) by {
                    assert forall|a: int, b: int| 0 <= a < c.len() && 0 <= b < c.len() && a != b implies c[a] != c[b] by {
                        assert(c[a] == vec@[p + a]);
                        assert(c[b] == vec@[p + b]);
                    }
                }
                assert forall|i: int| 0 <= i < c.len() - 1 implies #[trigger] joined(g@, c, i) by {
                    assert(joined(g@, vec@, p + i));
                }
                assert(is_cycle(g@, c));
            }
            g.rm_all(&cycle);
            return l;
        }
        match next {
            Some(y) => {
                let ghost old_vec = vec@;
                vec.push(y);
                proof {
                    assert forall|i: int| 0 <= i < vec@.len() - 1 implies #[trigger] joined(g@, vec@, i) by {
                        if i < len - 1 {
                            assert(joined(g@, old_vec, i));
                        }
                    }
                    assert(vec@.no_duplicates()) by {
                        assert forall|a: int, b: int| 0 <= a < vec@.len() && 0 <= b < vec@.len() && a != b implies vec@[a] != vec@[b] by {
                            if a < len && b < len {
                                assert(old_vec[a] != old_vec[b]);
                            } else if a < len {
                                assert(old_vec.contains(old_vec[a]));
                            } else if b < len {
                                assert(old_vec.contains(old_vec[b]));
                            }
                        }
                    }
                    vec@.unique_seq_to_set();
                    assert(vec@.to_set().subset_of(g@.dom()));
                    lemma_len_subset(vec@.to_set(), g@.dom());
                }
            },
            None => {
                proof {
                    assert(nbrs(g@, x).len() >= 2);
                    assert(found is None);
                    assert(next is None);
                    assert(all_back(nb@, j as int, vec@));
                    if nb@.len() > 0 {
                        lemma_all_back(nb@, j as int, vec@, 0);
                    }
                    if len >= 2 {
                        lemma_all_equal(nb@, vec@[len - 2]);
                    } else {
                        assert(nb@.len() == 0);
                        assert(nb@.to_set() =~= Set::<Vx>::empty());
                    }
                    assert(false);
                }
            },
        }
    }
}

/// The greedy packing bound of `graph`: while some vertex has a single
/// neighbour, that neighbour is taken out and counts one; otherwise a
/// greedy cycle of length `l` is taken out and counts `(l + 1) / 2`.
pub fn cycle_bound(graph: &Graph) -> (k: usize)
    requires
        graph.wf(),
    ensures
        k <= graph@.dom().len(),
        exists|ps: Seq<Seq<Vx>>| #[trigger] is_packing(graph@, ps) && k == weight_sum(ps) && packing_spans(graph@, ps),
        exists|ps: Seq<Seq<Vx>>, gs: Seq<Map<Vx, Set<Vx>>>| #[trigger] greedy_packing(graph@, ps, gs) && k == weight_sum(ps),
{
    let mut g = graph.clone();
    let mut k: usize = 0;
    let ghost mut ps: Seq<Seq<Vx>> = Seq::empty();
    let ghost mut gs: Seq<Map<Vx, Set<Vx>>> = seq![graph@];
    proof {
        graph.lemma_simple();
        crate::graph::lemma_bounded_set_len(graph@.dom(), graph.spec_n() as usize);
    }
    loop
        invariant
            g.wf(),
            g.spec_n() == graph.spec_n(),
            graph@.dom().finite(),
            graph@.dom().len() <= graph.spec_n(),
            graph.spec_n() < u32::MAX,
            k + g@.dom().len() <= graph@.dom().len(),
            is_packing(graph@, ps),
            k == weight_sum(ps),
            forall|j: int, x: Vx| 0 <= j < ps.len() && #[trigger] ps[j].contains(x) ==> !g@.dom().contains(x),
            forall|u: Vx, w: Vx| #[trigger] has_edge(g@, u, w) ==> has_edge(graph@, u, w),
            forall|u: Vx, w: Vx| #[trigger] has_edge(graph@, u, w) ==> has_edge(g@, u, w)
                || items_of(ps).contains(u) || items_of(ps).contains(w),
            gs.len() == ps.len() + 1,
            gs[0] == graph@,
            gs.last() == g@,
            forall|j: int| 0 <= j < ps.len() ==> #[trigger] greedy_step(gs, ps, j),
        ensures
            packing_spans(graph@, ps),
            is_packing(graph@, ps),
            k == weight_sum(ps),
            k <= graph@.dom().len(),
            greedy_packing(graph@, ps, gs),
        decreases g@.dom().len(),
    {
        proof {
            g.lemma_simple();
        }
        let vs = g.vertices();
        let mut opt: Option<Vx> = None;
        let mut i: usize = 0;
        while i < vs.len() && opt.is_none()
            invariant
                g.wf(),
                i <= vs@.len(),
                vs@.to_set() == g@.dom(),
                opt matches Some(v) ==> g@.dom().contains(v) && nbrs(g@, v).len() == 1,
                opt is None ==> forall|j: int| 0 <= j < i ==> nbrs(g@, #[trigger] vs@[j]).len() != 1,
            decreases vs@.len() - i,
        {
            let v = vs[i];
            proof {
                assert(vs@.to_set().contains(vs@[i as int]));
                g.lemma_simple();
            }
            if g.get_degree(v) == 1 {
                opt = Some(v);
            }
            i = i + 1;
        }
        let ghost g1 = g@;
        if let Some(v) = opt {
            let nb = g.neighbours(v);
            proof {
                if nb@.len() == 0 {
                    assert(nb@.to_set() =~= Set::<Vx>::empty());
                }
                assert(nb@.to_set().contains(nb@[0]));
            }
            let v2 = nb[0];
            g.rm_vertex(v2);
            proof {
                let item = seq![v, v2];
                assert(nbrs(g1, v).contains(v2)) by {
                    assert(nb@.to_set().contains(v2));
                }
                assert(has_edge(g1, v, v2));
                assert(is_item(graph@, item));
                assert(!g@.dom().contains(v)) by {
                    crate::ideas::deg1::lemma_single(nbrs(g1, v), v2);
                    assert(g1[v].remove(v2) =~= Set::<Vx>::empty());
                }
                let ps0 = ps;
                let gs0 = gs;
                ps = ps.push(item);
                gs = gs.push(g@);
                assert(ps.drop_last() == ps0);
                crate::ideas::deg1::lemma_single(nbrs(g1, v), v2);
                assert forall|j: int| 0 <= j < ps.len() implies #[trigger] greedy_step(gs, ps, j) by {
                    if j < ps0.len() {
                        assert(ps[j] == ps0[j]);
                        assert(gs[j] == gs0[j] && gs[j + 1] == gs0[j + 1]);
                        assert(greedy_step(gs0, ps0, j));
                    } else {
                        assert(gs[j] == g1);
                    }
                }
                assert forall|j: int| 0 <= j < ps.len() implies is_item(graph@, #[trigger] ps[j]) by {
                    if j < ps0.len() {
                        assert(ps[j] == ps0[j]);
                    }
                }
                assert forall|j1: int, j2: int, x: Vx| 0 <= j1 < ps.len() && 0 <= j2 < ps.len() && j1 != j2
                    && #[trigger] ps[j1].contains(x) implies !#[trigger] ps[j2].contains(x) by {
                    if j1 < ps0.len() && j2 < ps0.len() {
                        assert(ps[j1] == ps0[j1] && ps[j2] == ps0[j2]);
                    } else if j1 < ps0.len() {
                        assert(ps[j1] == ps0[j1]);
                        assert(!g1.dom().contains(x));
                        if item.contains(x) {
                            let i = choose|i: int| 0 <= i < 2 && item[i] == x;
                        }
                    } else {
                        assert(ps[j2] == ps0[j2]);
                        let i = choose|i: int| 0 <= i < 2 && item[i] == x;
                        assert(g1.dom().contains(x)) by {
                            if i == 1 {
                                assert(g1[v2].contains(v));
                            }
                        }
                    }
                }
                assert forall|j: int, x: Vx| 0 <= j < ps.len() && #[trigger] ps[j].contains(x) implies !g@.dom().contains(x) by {
                    if j < ps0.len() {
                        assert(ps[j] == ps0[j]);
                    } else {
                        let i = choose|i: int| 0 <= i < 2 && item[i] == x;
                    }
                }
                assert forall|u: Vx, w: Vx| #[trigger] has_edge(g@, u, w) implies has_edge(graph@, u, w) by {
                    assert(has_edge(g1, u, w));
                }
                assert(g@.dom().subset_of(g1.dom().remove(v2)));
                lemma_len_subset(g@.dom(), g1.dom().remove(v2));
                assert(has_edge(g1, v, v2));
                assert(g1.dom().contains(v2));
                assert(g1.dom().remove(v2).len() == g1.dom().len() - 1);
                assert(g@.dom().len() < g1.dom().len());
                assert(ps[ps.len() - 1] == item && item[1] == v2);
                assert forall|u: Vx, w: Vx| #[trigger] has_edge(graph@, u, w) implies has_edge(g@, u, w)
                    || items_of(ps).contains(u) || items_of(ps).contains(w) by {
                    if has_edge(g1, u, w) {
                        if u == v2 {
                            assert(ps[ps.len() - 1].contains(u));
                        } else if w == v2 {
                            assert(ps[ps.len() - 1].contains(w));
                        } else {
                            assert(g1[u].remove(v2).contains(w));
                            lemma_contains_len(g1[u].remove(v2), w);
                        }
                    } else if items_of(ps0).contains(u) {
                        let j = choose|j: int| 0 <= j < ps0.len() && #[trigger] ps0[j].contains(u);
                        assert(ps[j] == ps0[j]);
                    } else {
                        assert(items_of(ps0).contains(w));
                        let j = choose|j: int| 0 <= j < ps0.len() && #[trigger] ps0[j].contains(w);
                        assert(ps[j] == ps0[j]);
                    }
                }
            }
            k = k + 1;
            assert(k + g@.dom().len() <= graph@.dom().len());
            assert(k == weight_sum(ps));
        } else {
            if g.is_empty() {
                break;
            }
            proof {
                assert forall|v: Vx| #[trigger] g@.dom().contains(v) implies g@[v].len() >= 2 by {
                    let j = choose|j: int| 0 <= j < vs@.len() && vs@[j] == v;
                    assert(nbrs(g@, vs@[j]).len() != 1);
                }
                if g@.dom().len() == 0 {
                    g@.dom().lemma_len0_is_empty();
                }
            }
            let l = find_greedy_cycle(&mut g);
            proof {
                let c = choose|c: Seq<Vx>| #[trigger] is_cycle(g1, c) && c.len() == l && g@ == without_set(g1, c.to_set());
                assert(is_cycle(graph@, c)) by {
                    assert forall|i: int| 0 <= i < c.len() - 1 implies #[trigger] joined(graph@, c, i) by {
                        assert(joined(g1, c, i));
                    }
                }
                assert forall|x: Vx| #[trigger] c.contains(x) implies g1.dom().contains(x) && !g@.dom().contains(x) by {
                    let i = choose|i: int| 0 <= i < c.len() && c[i] == x;
                    if i < c.len() - 1 {
                        assert(joined(g1, c, i));
                    }
                    assert(c.to_set().contains(x));
                }
                let ps0 = ps;
                let gs0 = gs;
                ps = ps.push(c);
                gs = gs.push(g@);
                assert(ps.drop_last() == ps0);
                assert forall|j: int| 0 <= j < ps.len() implies #[trigger] greedy_step(gs, ps, j) by {
                    if j < ps0.len() {
                        assert(ps[j] == ps0[j]);
                        assert(gs[j] == gs0[j] && gs[j + 1] == gs0[j + 1]);
                        assert(greedy_step(gs0, ps0, j));
                    } else {
                        assert(gs[j] == g1);
                        assert(c.len() != 2) by {
                            assert(c.len() == l);
                        }
                        assert forall|v: Vx| #[trigger] g1.dom().contains(v) implies nbrs(g1, v).len() != 1 by {
                            assert(g1[v].len() >= 2);
                        }
                    }
                }
                assert forall|j: int| 0 <= j < ps.len() implies is_item(graph@, #[trigger] ps[j]) by {
                    if j < ps0.len() {
                        assert(ps[j] == ps0[j]);
                    }
                }
                assert forall|j1: int, j2: int, x: Vx| 0 <= j1 < ps.len() && 0 <= j2 < ps.len() && j1 != j2
                    && #[trigger] ps[j1].contains(x) implies !#[trigger] ps[j2].contains(x) by {
                    if j1 < ps0.len() && j2 < ps0.len() {
                        assert(ps[j1] == ps0[j1] && ps[j2] == ps0[j2]);
                    } else if j1 < ps0.len() {
                        assert(ps[j1] == ps0[j1]);
                        assert(!g1.dom().contains(x));
                    } else {
                        assert(ps[j2] == ps0[j2]);
                        if ps0[j2].contains(x) {
                            assert(!g1.dom().contains(x));
                        }
                    }
                }
                assert forall|j: int, x: Vx| 0 <= j < ps.len() && #[trigger] ps[j].contains(x) implies !g@.dom().contains(x) by {
                    if j < ps0.len() {
                        assert(ps[j] == ps0[j]);
                        assert(!g1.dom().contains(x));
                    }
                }
                assert(weight(c) == (l + 1) / 2);
                assert forall|u: Vx, w: Vx| #[trigger] has_edge(g@, u, w) implies has_edge(graph@, u, w) by {
                    assert(has_edge(g1, u, w));
                }
                assert(ps[ps.len() - 1] == c);
                assert forall|u: Vx, w: Vx| #[trigger] has_edge(graph@, u, w) implies has_edge(g@, u, w)
                    || items_of(ps).contains(u) || items_of(ps).contains(w) by {
                    if has_edge(g1, u, w) {
                        if c.contains(u) {
                            assert(ps[ps.len() - 1].contains(u));
                        } else if c.contains(w) {
                            assert(ps[ps.len() - 1].contains(w));
                        } else {
                            assert(!c.to_set().contains(w));
                            assert(!c.to_set().contains(u));
                            assert(g1[u].difference(c.to_set()).contains(w));
                            lemma_contains_len(g1[u].difference(c.to_set()), w);
                        }
                    } else if items_of(ps0).contains(u) {
                        let j = choose|j: int| 0 <= j < ps0.len() && #[trigger] ps0[j].contains(u);
                        assert(ps[j] == ps0[j]);
                    } else {
                        assert(items_of(ps0).contains(w));
                        let j = choose|j: int| 0 <= j < ps0.len() && #[trigger] ps0[j].contains(w);
                        assert(ps[j] == ps0[j]);
                    }
                }
                c.unique_seq_to_set();
                assert(c.to_set().subset_of(g1.dom())) by {
                    assert forall|x: Vx| c.to_set().contains(x) implies g1.dom().contains(x) by {
                        let i = choose|i: int| 0 <= i < c.len() && c[i] == x;
                        if i < c.len() - 1 {
                            assert(joined(g1, c, i));
                        }
                    }
                }
                assert(g@.dom().subset_of(g1.dom().difference(c.to_set())));
                lemma_len_subset(g@.dom(), g1.dom().difference(c.to_set()));
                lemma_set_subset_finite(g1.dom(), c.to_set());
                lemma_set_difference_len(g1.dom(), c.to_set());
                assert(g1.dom().intersect(c.to_set()) =~= c.to_set());
                assert(c.to_set().len() == l);
                assert(g1.dom().difference(c.to_set()).len() == g1.dom().len() - l);
                assert(g@.dom().len() + l <= g1.dom().len());
                assert((l + 1) / 2 <= l) by (nonlinear_arith)
                    requires l >= 3;
            }
            k = k + (l + 1) / 2;
            assert(k + g@.dom().len() <= graph@.dom().len());
        }
    }
    k
}

impl Idea for CycleLB {
    open spec fn inv(&self, n: nat) -> bool {
        true
    }

    open spec fn pending(&self, dirty: Set<Vx>) -> bool {
        dirty.len() > 0
    }

    fn new(g: &Graph) -> (r: Self) {
        CycleLB
    }

    fn priority(&self, state: &State, dirty: &IdSet) -> (r: usize)
        ensures
            r == (if dirty@.len() > 0 { 3usize } else { 0 }),
    {
        if dirty.len() == 0 {
            return 0;
        }
        3
    }

    fn apply(&mut self, state: &mut State, dirty: &IdSet) -> (r: Option<()>)
        ensures
            *final(state) == *old(state),
            exists|k: nat| (exists|ps: Seq<Seq<Vx>>| #[trigger] is_packing(old(state).graph@, ps) && k == weight_sum(ps)
                && packing_spans(old(state).graph@, ps))
                && (r is Some <==> #[trigger] lb_fits(old(state), k)),
            exists|ps: Seq<Seq<Vx>>, gs: Seq<Map<Vx, Set<Vx>>>| #[trigger] greedy_packing(old(state).graph@, ps, gs)
                && (r is Some <==> lb_fits(old(state), weight_sum(ps))),
            r is None ==> beyond_bound(old(state)),
    {
        proof {
            lemma_reduced_refl(state);
        }
        let k = cycle_bound(&state.graph);
        let r = state.lb(k);
        proof {
            assert(lb_fits(old(state), k as nat) <==> r is Some);
            if r is None {
                let g = old(state).graph@;
                old(state).graph.lemma_simple();
                let ps = choose|ps: Seq<Seq<Vx>>| #[trigger] is_packing(g, ps) && k == weight_sum(ps);
                assert forall|c: Set<Vx>| #[trigger] is_vertex_cover(g, c)
                    implies old(state).solution@.len() + g.dom().intersect(c).len() > old(state).upper_bound by {
                    law_cycle_bound(g, ps, c);
                }
            }
        }
        r
    }
}

} // verus!
