//! Undirected simple graphs on the vertex ids `0..n`, kept as one
//! neighbour set per vertex together with the vertex degrees.

use vstd::prelude::*;
use vstd::set_lib::*;
use crate::idset::IdSet;

verus! {

broadcast use vstd::set_lib::range_set_properties;

/// A vertex id.
pub type Vx = usize;

/// An undirected edge, given by its two end points.
pub type Edge = (Vx, Vx);

/// The neighbours of `v` in an adjacency map (empty where `v` has none).
pub open spec fn nbrs(g: Map<Vx, Set<Vx>>, v: Vx) -> Set<Vx> {
    if g.dom().contains(v) { g[v] } else { Set::empty() }
}

/// `u` and `v` are joined by an edge.
pub open spec fn has_edge(g: Map<Vx, Set<Vx>>, u: Vx, v: Vx) -> bool {
    g.dom().contains(u) && g[u].contains(v)
}

/// `g` is a simple undirected graph on ids below `n` that lists exactly
/// the vertices with at least one neighbour.
pub open spec fn simple_graph(g: Map<Vx, Set<Vx>>, n: nat) -> bool {
    &&& g.dom().finite()
    &&& forall|v: Vx|
        #[trigger] g.dom().contains(v) ==> v < n && g[v].finite() && g[v].len() > 0
            && !g[v].contains(v)
    &&& forall|u: Vx, v: Vx|
        g.dom().contains(u) && #[trigger] g[u].contains(v) ==> g.dom().contains(v)
            && g[v].contains(u)
}

/// `g` with the vertex `u` and its edges taken out; vertices left
/// without neighbours drop out too.
pub open spec fn without_vertex(g: Map<Vx, Set<Vx>>, u: Vx) -> Map<Vx, Set<Vx>> {
    Map::new(
        |v: Vx| g.dom().contains(v) && v != u && g[v].remove(u).len() > 0,
        |v: Vx| g[v].remove(u),
    )
}

/// `g` with the vertices of `s` and their edges taken out; vertices left
/// without neighbours drop out too.
pub open spec fn without_set(g: Map<Vx, Set<Vx>>, s: Set<Vx>) -> Map<Vx, Set<Vx>> {
    Map::new(
        |v: Vx| g.dom().contains(v) && !s.contains(v) && g[v].difference(s).len() > 0,
        |v: Vx| g[v].difference(s),
    )
}

/// The vertices joined by an edge to some vertex of `s`.
pub open spec fn neighbourhood(g: Map<Vx, Set<Vx>>, s: Set<Vx>) -> Set<Vx> {
    Set::new(|v: Vx| exists|x: Vx| s.contains(x) && has_edge(g, x, v))
}

/// Taking out one more vertex after a set is taking out the larger set.
pub proof fn lemma_without_set_insert(g: Map<Vx, Set<Vx>>, n: nat, s: Set<Vx>, x: Vx)
    requires
        simple_graph(g, n),
    ensures
        without_vertex(without_set(g, s), x) == without_set(g, s.insert(x)),
        without_set(g, Set::empty()) == g,
{
    let a = without_vertex(without_set(g, s), x);
    let b = without_set(g, s.insert(x));
    assert forall|v: Vx| #[trigger] g.dom().contains(v) implies g[v].difference(s).remove(x) =~= g[v].difference(s.insert(x)) by {}
    assert(a.dom() =~= b.dom());
    assert(a =~= b);
    let c = without_set(g, Set::empty());
    assert forall|v: Vx| #[trigger] g.dom().contains(v) implies g[v].difference(Set::empty()) =~= g[v] by {}
    assert(c.dom() =~= g.dom());
    assert(c =~= g);
}

/// Taking out vertices that have no neighbours changes nothing.
pub proof fn lemma_without_absent(g: Map<Vx, Set<Vx>>, n: nat, s: Set<Vx>)
    requires
        simple_graph(g, n),
        forall|v: Vx| #[trigger] s.contains(v) ==> !g.dom().contains(v),
    ensures
        without_set(g, s) == g,
{
    let h = without_set(g, s);
    assert forall|v: Vx| #[trigger] g.dom().contains(v) implies g[v].difference(s) =~= g[v] by {
        assert forall|w: Vx| g[v].contains(w) implies !s.contains(w) by {
            assert(g.dom().contains(w));
        }
    }
    assert forall|v: Vx| g.dom().contains(v) implies #[trigger] h.dom().contains(v) by {
        assert(g[v].difference(s) == g[v]);
    }
    assert(h.dom() =~= g.dom());
    assert(h =~= g);
}

/// The edges left once `x` is out are the edges of `g` away from `x`.
pub proof fn lemma_without_vertex_edges(g: Map<Vx, Set<Vx>>, n: nat, x: Vx)
    requires
        simple_graph(g, n),
    ensures
        forall|u: Vx, v: Vx| #[trigger] has_edge(without_vertex(g, x), u, v) <==> (has_edge(g, u, v) && u != x && v != x),
{
    assert forall|u: Vx, v: Vx| #[trigger] has_edge(without_vertex(g, x), u, v) <==> (has_edge(g, u, v) && u != x && v != x) by {
        if has_edge(g, u, v) && u != x && v != x {
            assert(g[u].remove(x).contains(v));
            lemma_contains_len(g[u].remove(x), v);
        }
    }
}

/// The neighbours of `x` once the set `s` is out of the graph.
pub proof fn lemma_nbrs_without_set(g: Map<Vx, Set<Vx>>, n: nat, s: Set<Vx>, x: Vx)
    requires
        simple_graph(g, n),
    ensures
        nbrs(without_set(g, s), x) == (if s.contains(x) { Set::<Vx>::empty() } else { nbrs(g, x).difference(s) }),
        simple_graph(without_set(g, s), n),
{
    let h = without_set(g, s);
    if h.dom().contains(x) {
    } else if s.contains(x) {
    } else if g.dom().contains(x) {
        g[x].difference(s).lemma_len0_is_empty();
        assert(nbrs(g, x).difference(s) =~= Set::<Vx>::empty());
    } else {
        assert(nbrs(g, x).difference(s) =~= Set::<Vx>::empty());
    }
    assert forall|v: Vx| #[trigger] h.dom().contains(v) implies v < n && h[v].finite() && h[v].len() > 0
        && !h[v].contains(v) by {}
    assert forall|u: Vx, v: Vx| h.dom().contains(u) && #[trigger] h[u].contains(v) implies h.dom().contains(v)
        && h[v].contains(u) by {
        assert(g[v].contains(u));
        assert(g[v].difference(s).contains(u));
        lemma_contains_len(g[v].difference(s), u);
    }
    lemma_bounded_set_len_dom(h, n);
}

proof fn lemma_bounded_set_len_dom(h: Map<Vx, Set<Vx>>, n: nat)
    requires
        forall|v: Vx| #[trigger] h.dom().contains(v) ==> v < n,
    ensures
        h.dom().finite(),
{
    if n > usize::MAX {
        let r = Set::<usize>::full();
        assert(h.dom().subset_of(Set::<usize>::range(0, usize::MAX).insert(usize::MAX)));
        lemma_set_subset_finite(Set::<usize>::range(0, usize::MAX).insert(usize::MAX), h.dom());
    } else {
        let r = Set::<usize>::range(0, n as usize);
        assert(h.dom().subset_of(r));
        lemma_set_subset_finite(r, h.dom());
    }
}

/// `g` with the edge `{u, v}` added.
pub open spec fn with_edge(g: Map<Vx, Set<Vx>>, u: Vx, v: Vx) -> Map<Vx, Set<Vx>> {
    g.insert(u, nbrs(g, u).insert(v)).insert(v, nbrs(g, v).insert(u))
}

/// The edges of `with_edge(g, u, v)` are those of `g` and `{u, v}`.
pub proof fn lemma_with_edge_edges(g: Map<Vx, Set<Vx>>, u: Vx, v: Vx)
    requires
        u != v,
    ensures
        forall|a: Vx, b: Vx|
            #[trigger] has_edge(with_edge(g, u, v), a, b) <==> (has_edge(g, a, b) || (a == u && b
                == v) || (a == v && b == u)),
{
}

/// An element of `s.push(x)` is `x` or an element of `s`.
pub proof fn lemma_push_contains<T>(s: Seq<T>, x: T, y: T)
    ensures
        s.push(x).contains(y) <==> (s.contains(y) || y == x),
{
    if s.push(x).contains(y) {
        let j = choose|j: int| 0 <= j < s.push(x).len() && s.push(x)[j] == y;
        if j < s.len() {
            assert(s[j] == y);
        }
    }
    if s.contains(y) {
        let j = choose|j: int| 0 <= j < s.len() && s[j] == y;
        assert(s.push(x)[j] == y);
    }
    if y == x {
        assert(s.push(x)[s.len() as int] == y);
    }
}

/// The elements of `s.push(x)` are those of `s` and `x`.
pub proof fn lemma_to_set_push<T>(s: Seq<T>, x: T)
    ensures
        s.push(x).to_set() == s.to_set().insert(x),
{
    assert forall|y: T| s.push(x).to_set().contains(y) <==> s.to_set().insert(x).contains(y) by {
        lemma_push_contains(s, x, y);
    }
    assert(s.push(x).to_set() =~= s.to_set().insert(x));
}

/// The edges of `g`, each once as `(u, v)` with `u < v`.
pub open spec fn edge_set(g: Map<Vx, Set<Vx>>) -> Set<Edge> {
    Set::new(|e: Edge| e.0 < e.1 && has_edge(g, e.0, e.1))
}

/// The edge list `es` joins `u` and `v` (in either direction).
pub open spec fn lists_edge(es: Seq<Edge>, u: Vx, v: Vx) -> bool {
    exists|i: int| 0 <= i < es.len() && (es[i] == (u, v) || es[i] == (v, u))
}

pub proof fn lemma_nonempty_choose(s: Set<Vx>)
    requires
        s.finite(),
        s.len() > 0,
    ensures
        s.contains(s.choose()),
{
    if !s.contains(s.choose()) {
        assert(s =~= Set::<Vx>::empty());
    }
}

/// A finite set with an element is not empty.
pub proof fn lemma_contains_len(s: Set<Vx>, x: Vx)
    requires
        s.finite(),
        s.contains(x),
    ensures
        s.len() > 0,
{
    if s.len() == 0 {
        s.lemma_len0_is_empty();
        assert(!Set::<Vx>::empty().contains(x));
    }
}

/// Two simple graphs with the same edges are the same graph.
pub proof fn lemma_same_edges(g1: Map<Vx, Set<Vx>>, g2: Map<Vx, Set<Vx>>, n: nat)
    requires
        simple_graph(g1, n),
        simple_graph(g2, n),
        forall|u: Vx, v: Vx| has_edge(g1, u, v) <==> has_edge(g2, u, v),
    ensures
        g1 == g2,
{
    assert forall|u: Vx| g1.dom().contains(u) <==> g2.dom().contains(u) by {
        if g1.dom().contains(u) {
            lemma_nonempty_choose(g1[u]);
            assert(has_edge(g1, u, g1[u].choose()));
        }
        if g2.dom().contains(u) {
            lemma_nonempty_choose(g2[u]);
            assert(has_edge(g2, u, g2[u].choose()));
        }
    }
    assert(g1.dom() =~= g2.dom());
    assert forall|u: Vx| g1.dom().contains(u) implies g1[u] == g2[u] by {
        assert forall|w: Vx| g1[u].contains(w) <==> g2[u].contains(w) by {
            assert(has_edge(g1, u, w) <==> has_edge(g2, u, w));
        }
        assert(g1[u] =~= g2[u]);
    }
    assert(g1 =~= g2);
}

/// A set of ids below `n` has at most `n` elements.
pub proof fn lemma_bounded_set_len(s: Set<usize>, n: usize)
    requires
        forall|x: usize| s.contains(x) ==> x < n,
    ensures
        s.finite(),
        s.len() <= n,
{
    let r = Set::<usize>::range(0, n);
    assert(s.subset_of(r));
    lemma_set_subset_finite(r, s);
    lemma_len_subset(s, r);
}

/// The closed neighbourhood `N[v]` of `v` in `g`.
pub open spec fn closed_nbrs(g: Map<Vx, Set<Vx>>, v: Vx) -> Set<Vx> {
    nbrs(g, v).insert(v)
}

/// The edges of `g` between vertices of `N[v]`.
pub open spec fn local_edges(g: Map<Vx, Set<Vx>>, v: Vx) -> Set<Edge> {
    Set::new(|e: Edge| closed_nbrs(g, v).contains(e.0) && closed_nbrs(g, v).contains(e.1) && has_edge(g, e.0, e.1))
}

/// The subgraph that `N[v]` induces differs between `g` and `h`.
pub open spec fn local_changed(g: Map<Vx, Set<Vx>>, h: Map<Vx, Set<Vx>>, v: Vx) -> bool {
    closed_nbrs(g, v) != closed_nbrs(h, v) || local_edges(g, v) != local_edges(h, v)
}

/// Where the edge `{a, b}` is new, the vertices whose closed neighbourhood
/// induces another subgraph afterwards are `a`, `b` and their common
/// neighbours: the ones that adding the edge marks dirty.
pub proof fn law_dirty_add_edge(g: Map<Vx, Set<Vx>>, a: Vx, b: Vx, v: Vx)
    requires
        a != b,
        !has_edge(g, a, b),
        forall|x: Vx, y: Vx| #[trigger] has_edge(g, x, y) ==> has_edge(g, y, x),
    ensures
        local_changed(g, with_edge(g, a, b), v) <==> (v == a || v == b || (has_edge(g, v, a) && has_edge(g, v, b))),
{
    let h = with_edge(g, a, b);
    lemma_with_edge_edges(g, a, b);
    if v == a {
        assert(closed_nbrs(h, v).contains(b));
        assert(!closed_nbrs(g, v).contains(b));
    } else if v == b {
        assert(closed_nbrs(h, v).contains(a));
        assert(!has_edge(g, b, a));
        assert(!nbrs(g, b).contains(a));
        assert(!closed_nbrs(g, v).contains(a));
    } else {
        assert(closed_nbrs(g, v) =~= closed_nbrs(h, v)) by {
            assert forall|w: Vx| nbrs(g, v).contains(w) <==> nbrs(h, v).contains(w) by {
                assert(has_edge(h, v, w) <==> has_edge(g, v, w));
            }
        }
        if has_edge(g, v, a) && has_edge(g, v, b) {
            assert(local_edges(h, v).contains((a, b)));
            assert(!local_edges(g, v).contains((a, b)));
        } else {
            assert(local_edges(g, v) =~= local_edges(h, v)) by {
                assert forall|e: Edge| local_edges(h, v).contains(e) implies local_edges(g, v).contains(e) by {
                    if !has_edge(g, e.0, e.1) {
                        if e.0 == a {
                            assert(closed_nbrs(g, v).contains(b));
                            assert(nbrs(g, v).contains(a) && nbrs(g, v).contains(b));
                        } else {
                            assert(closed_nbrs(g, v).contains(a));
                            assert(nbrs(g, v).contains(a) && nbrs(g, v).contains(b));
                        }
                    }
                }
            }
        }
    }
}

/// Where `x` is a vertex of `g`, the vertices whose closed neighbourhood
/// induces another subgraph once `x` is gone are `x` and its neighbours:
/// the ones that taking `x` out marks dirty.
pub proof fn law_dirty_remove_vertex(g: Map<Vx, Set<Vx>>, n: nat, x: Vx, v: Vx)
    requires
        simple_graph(g, n),
        g.dom().contains(x),
    ensures
        local_changed(g, without_vertex(g, x), v) <==> (v == x || has_edge(g, v, x)),
{
    let h = without_vertex(g, x);
    lemma_without_vertex_edges(g, n, x);
    if v == x {
        let y = g[x].choose();
        assert(g[x].len() > 0);
        assert(g[x].contains(y)) by {
            if !g[x].contains(y) {
                assert(g[x] =~= Set::<Vx>::empty());
            }
        }
        assert(closed_nbrs(g, x).contains(y));
        assert(y != x);
        assert(!has_edge(h, x, y));
        assert(!closed_nbrs(h, x).contains(y));
    } else if has_edge(g, v, x) {
        assert(closed_nbrs(g, v).contains(x));
        assert(!has_edge(h, v, x));
        assert(!closed_nbrs(h, v).contains(x));
    } else {
        assert(closed_nbrs(g, v) =~= closed_nbrs(h, v)) by {
            assert forall|w: Vx| nbrs(g, v).contains(w) <==> nbrs(h, v).contains(w) by {
                assert(has_edge(h, v, w) <==> (has_edge(g, v, w) && v != x && w != x));
            }
        }
        assert(local_edges(g, v) =~= local_edges(h, v)) by {
            assert forall|e: Edge| local_edges(g, v).contains(e) implies local_edges(h, v).contains(e) by {
                assert(e.0 != x && e.1 != x) by {
                    if e.0 == x {
                        assert(nbrs(g, v).contains(x));
                    }
                    if e.1 == x {
                        assert(nbrs(g, v).contains(x));
                    }
                }
            }
        }
    }
}

/// The edge `(u, v)` turned round.
pub open spec fn flipped(e: Edge) -> Edge {
    (e.1, e.0)
}

/// A list of the edges of `g` in both directions, each once, holds twice
/// as many entries as `g` has edges.
pub proof fn law_symmetric_edges(g: Map<Vx, Set<Vx>>, n: nat, es: Seq<Edge>)
    requires
        simple_graph(g, n),
        es.no_duplicates(),
        forall|u: Vx, v: Vx| #[trigger] es.contains((u, v)) <==> has_edge(g, u, v),
    ensures
        es.len() == 2 * edge_set(g).len(),
{
    let all = es.to_set();
    es.unique_seq_to_set();
    let e = edge_set(g);
    let f = |x: Edge| flipped(x);
    let back = e.map(f);
    assert(e.subset_of(all)) by {
        assert forall|x: Edge| e.contains(x) implies all.contains(x) by {
            assert(es.contains((x.0, x.1)));
        }
    }
    lemma_set_subset_finite(all, e);
    assert(vstd::relations::injective_on(f, e)) by {
        assert forall|x: Edge, y: Edge| e.contains(x) && e.contains(y) && #[trigger] f(x) == #[trigger] f(y) implies x == y by {}
    }
    lemma_map_size(e, back, f);
    assert(all =~= e.union(back)) by {
        assert forall|x: Edge| all.contains(x) implies e.union(back).contains(x) by {
            assert(es.contains((x.0, x.1)));
            assert(has_edge(g, x.0, x.1));
            assert(x.0 != x.1) by {
                assert(!g[x.0].contains(x.0));
            }
            if x.1 < x.0 {
                assert(has_edge(g, x.1, x.0));
                assert(e.contains((x.1, x.0)));
                assert(f((x.1, x.0)) == x);
            }
        }
        assert forall|x: Edge| e.union(back).contains(x) implies all.contains(x) by {
            if back.contains(x) {
                let y = choose|y: Edge| e.contains(y) && f(y) == x;
                assert(has_edge(g, y.1, y.0));
                assert(es.contains((x.0, x.1)));
            } else {
                assert(es.contains((x.0, x.1)));
            }
        }
    }
    assert(e.disjoint(back)) by {
        assert forall|x: Edge| e.contains(x) implies !back.contains(x) by {
            if back.contains(x) {
                let y = choose|y: Edge| e.contains(y) && f(y) == x;
            }
        }
    }
    lemma_set_disjoint_lens(e, back);
}

/// A graph built from the edge list of a graph is that graph: where `h`
/// has exactly the edges that `es` lists, and `es` lists the edges of `g`
/// (each as smaller end first), `h` equals `g`.
pub proof fn law_rebuild_from_edges(g: Map<Vx, Set<Vx>>, h: Map<Vx, Set<Vx>>, n: nat, es: Seq<Edge>)
    requires
        simple_graph(g, n),
        simple_graph(h, n),
        es.to_set() == edge_set(g),
        forall|a: Vx, b: Vx| has_edge(h, a, b) <==> lists_edge(es, a, b),
    ensures
        h == g,
{
    assert forall|a: Vx, b: Vx| has_edge(h, a, b) <==> has_edge(g, a, b) by {
        if has_edge(g, a, b) {
            assert(has_edge(g, b, a));
            if a < b {
                assert(es.to_set().contains((a, b)));
            } else {
                assert(es.to_set().contains((b, a)));
            }
            assert(lists_edge(es, a, b));
        }
        if lists_edge(es, a, b) {
            let i = choose|i: int| 0 <= i < es.len() && (es[i] == (a, b) || es[i] == (b, a));
            assert(es.to_set().contains(es[i]));
            assert(edge_set(g).contains(es[i]));
            assert(has_edge(g, es[i].0, es[i].1));
        }
    }
    lemma_same_edges(h, g, n);
}

/// Taking two vertices out of a graph gives the same graph in either
/// order.
pub proof fn law_remove_commutes(g: Map<Vx, Set<Vx>>, n: nat, u: Vx, v: Vx)
    requires
        simple_graph(g, n),
    ensures
        without_vertex(without_vertex(g, u), v) == without_vertex(without_vertex(g, v), u),
{
    lemma_without_set_insert(g, n, Set::empty(), u);
    lemma_without_set_insert(g, n, Set::empty(), v);
    lemma_without_set_insert(g, n, Set::empty().insert(u), v);
    lemma_without_set_insert(g, n, Set::empty().insert(v), u);
    assert(Set::<Vx>::empty().insert(u).insert(v) =~= Set::<Vx>::empty().insert(v).insert(u));
}

/// After adding the edge `{u, v}`, the graph has that edge in both
/// directions and keeps every edge it had.
pub proof fn law_add_edge_adds(g: Map<Vx, Set<Vx>>, u: Vx, v: Vx)
    ensures
        has_edge(with_edge(g, u, v), u, v),
        has_edge(with_edge(g, u, v), v, u),
        forall|a: Vx, b: Vx| has_edge(g, a, b) ==> #[trigger] has_edge(with_edge(g, u, v), a, b),
{
}

/// An undirected simple graph on the vertices `0..n`.
pub struct Graph {
    n: usize,
    neighbours: Vec<IdSet>,
    degrees: Vec<u32>,
}

impl View for Graph {
    type V = Map<Vx, Set<Vx>>;

    /// The vertices with at least one neighbour, each mapped to its
    /// neighbour set.
    closed spec fn view(&self) -> Map<Vx, Set<Vx>> {
        Map::new(
            |v: Vx| v < self.neighbours@.len() && self.neighbours@[v as int]@.len() > 0,
            |v: Vx| self.neighbours@[v as int]@,
        )
    }
}

impl Graph {
    /// The number of vertex ids, `n`: every vertex is below it.
    pub closed spec fn spec_n(&self) -> nat {
        self.n as nat
    }

    /// The representation is consistent: one neighbour set and one degree
    /// per id, symmetric, loop-free, and the degrees are the set sizes.
    pub closed spec fn wf(&self) -> bool {
        &&& self.neighbours@.len() == self.n
        &&& self.degrees@.len() == self.n
        &&& self.n < u32::MAX
        &&& forall|v: int|
            0 <= v < self.n ==> (#[trigger] self.neighbours@[v])@.finite()
                && self.degrees@[v] == self.neighbours@[v]@.len()
        &&& forall|v: int, w: Vx|
            0 <= v < self.n && #[trigger] self.neighbours@[v]@.contains(w) ==> w < self.n
                && w != v && self.neighbours@[w as int]@.contains(v as usize)
    }

    /// A well-formed graph is a simple graph on the ids below `n`.
    pub proof fn lemma_simple(&self)
        requires
            self.wf(),
        ensures
            simple_graph(self@, self.spec_n()),
            self.spec_n() < u32::MAX,
    {
        let g = self@;
        assert forall|v: Vx| #[trigger] g.dom().contains(v) implies v < self.n && g[v].finite()
            && g[v].len() > 0 && !g[v].contains(v) by {
            assert(self.neighbours@[v as int]@.finite());
            if self.neighbours@[v as int]@.contains(v) {
            }
        }
        assert forall|u: Vx, v: Vx| g.dom().contains(u) && #[trigger] g[u].contains(v) implies g.dom().contains(v)
            && g[v].contains(u) by {
            assert(self.neighbours@[u as int]@.contains(v));
            assert(self.neighbours@[v as int]@.contains(u));
            lemma_contains_len(self.neighbours@[v as int]@, u);
        }
        lemma_bounded_set_len(g.dom(), self.n);
    }

    /// The number of vertex ids.
    pub fn n(&self) -> (r: usize)
        ensures
            r == self.spec_n(),
    {
        self.n
    }

    /// The degree of `v`.
    pub fn get_degree(&self, v: Vx) -> (r: u32)
        requires
            self.wf(),
            v < self.spec_n(),
        ensures
            r == nbrs(self@, v).len(),
    {
        self.degrees[v]
    }

    /// Whether `u` and `v` are joined by an edge.
    pub fn get_edge(&self, u: Vx, v: Vx) -> (r: bool)
        requires
            self.wf(),
        ensures
            r == has_edge(self@, u, v),
    {
        if u >= self.n {
            return false;
        }
        let r = self.neighbours[u].contains(v);
        proof {
            if r {
                lemma_contains_len(self.neighbours@[u as int]@, v);
            }
        }
        r
    }

    /// Removes `u` with its edges and hands back its former neighbours.
    pub fn rm_vertex(&mut self, u: Vx) -> (r: IdSet)
        requires
            old(self).wf(),
        ensures
            final(self).wf(),
            final(self).spec_n() == old(self).spec_n(),
            final(self)@ == without_vertex(old(self)@, u),
            r@ == nbrs(old(self)@, u),
    {
        if u >= self.n {
            let r = IdSet::empty();
            proof {
                assert forall|v: Vx| #[trigger] self@.dom().contains(v) implies self@[v].remove(u) =~= self@[v] by {
                    if self@[v].contains(u) {
                        assert(self.neighbours@[v as int]@.contains(u));
                    }
                }
                assert(self@ =~= without_vertex(self@, u));
            }
            return r;
        }
        let ghost old_nb = self.neighbours@;
        let mut set = IdSet::empty();
        std::mem::swap(&mut set, &mut self.neighbours[u]);
        self.degrees.set(u, 0);
        let elems = set.elements();
        proof {
            assert(self.neighbours@ == old_nb.update(u as int, self.neighbours@[u as int]));
            assert(self.neighbours@[u as int]@ == Set::<usize>::empty());
        }
        let mut i: usize = 0;
        while i < elems.len()
            invariant
                0 <= i <= elems.len(),
                elems@.no_duplicates(),
                elems@.to_set() == old_nb[u as int]@,
                set@ == old_nb[u as int]@,
                self.n == old(self).n,
                self.neighbours@.len() == self.n,
                self.degrees@.len() == self.n,
                self.n < u32::MAX,
                u < self.n,
                old(self).wf(),
                old_nb == old(self).neighbours@,
                self.neighbours@[u as int]@ == Set::<usize>::empty(),
                self.degrees@[u as int] == 0,
                forall|x: int|
                    0 <= x < self.n && x != u ==> (#[trigger] self.neighbours@[x])@ == (if elems@.subrange(0, i as int).contains(x as usize) {
                        old_nb[x]@.remove(u)
                    } else {
                        old_nb[x]@
                    }),
                forall|x: int|
                    0 <= x < self.n && x != u ==> #[trigger] self.degrees@[x] == self.neighbours@[x]@.len(),
            decreases elems.len() - i,
        {
            let v = elems[i];
            let ghost start = self.neighbours@;
            proof {
                assert(elems@.to_set().contains(v));
                assert(old_nb[u as int]@.contains(v));
                assert(old_nb[v as int]@.contains(u));
                assert(!elems@.subrange(0, i as int).contains(v)) by {
                    if elems@.subrange(0, i as int).contains(v) {
                        let j = choose|j: int| 0 <= j < i && elems@.subrange(0, i as int)[j] == v;
                        assert(elems@[j] == elems@[i as int]);
                    }
                }
                assert(self.neighbours@[v as int]@ == old_nb[v as int]@);
                lemma_contains_len(old_nb[v as int]@, u);
            }
            let d = self.degrees[v];
            self.degrees.set(v, d - 1);
            let ghost prev = self.neighbours@;
            self.neighbours[v].remove(u);
            proof {
                assert(self.neighbours@[v as int]@ == prev[v as int]@.remove(u));
                assert forall|x: int| 0 <= x < self.n && x != v implies self.neighbours@[x] == prev[x] by {}
                assert(elems@.subrange(0, i + 1) == elems@.subrange(0, i as int).push(v));
                assert forall|x: int|
                    0 <= x < self.n && x != u implies (#[trigger] self.neighbours@[x])@ == (if elems@.subrange(0, i + 1).contains(x as usize) {
                        old_nb[x]@.remove(u)
                    } else {
                        old_nb[x]@
                    }) by {
                    if x == v as int {
                        assert(elems@.subrange(0, i + 1)[i as int] == v);
                    } else {
                        assert(start[x]@ == (if elems@.subrange(0, i as int).contains(x as usize) {
                            old_nb[x]@.remove(u)
                        } else {
                            old_nb[x]@
                        }));
                        assert(self.neighbours@[x] == start[x]);
                        assert(elems@.subrange(0, i + 1).contains(x as usize) == elems@.subrange(0, i as int).contains(x as usize));
                    }
                }
            }
            i = i + 1;
        }
        proof {
            assert(elems@.subrange(0, i as int) == elems@);
            assert forall|x: int| 0 <= x < self.n && x != u implies (#[trigger] self.neighbours@[x])@ == old_nb[x]@.remove(u) by {
                if !elems@.contains(x as usize) {
                    assert(!elems@.to_set().contains(x as usize));
                    if old_nb[x]@.contains(u) {
                        assert(old_nb[u as int]@.contains(x as usize));
                    }
                    assert(old_nb[x]@.remove(u) =~= old_nb[x]@);
                }
            }
            assert forall|v: int|
                0 <= v < self.n implies (#[trigger] self.neighbours@[v])@.finite()
                    && self.degrees@[v] == self.neighbours@[v]@.len() by {
                assert(old_nb[v]@.finite());
            }
            assert forall|v: int, w: Vx|
                0 <= v < self.n && #[trigger] self.neighbours@[v]@.contains(w) implies w < self.n
                    && w != v && self.neighbours@[w as int]@.contains(v as usize) by {
                assert(old_nb[v]@.contains(w));
            }
            assert(self.wf());
            assert(self@ =~= without_vertex(old(self)@, u));
            if old_nb[u as int]@.len() > 0 {
                assert(old(self)@.dom().contains(u));
            } else {
                assert(old_nb[u as int]@ =~= Set::<usize>::empty()) by {
                    old_nb[u as int]@.lemma_len0_is_empty();
                }
            }
        }
        set
    }

    proof fn lemma_link(&self, a: Vx, b: Vx)
        requires
            self.wf(),
            a < self.n,
            b < self.n,
        ensures
            self.neighbours@[a as int]@.insert(b).len() <= u32::MAX,
    {
        let s = self.neighbours@[a as int]@.insert(b);
        assert forall|x: usize| s.contains(x) implies x < self.n by {
            if x != b {
                assert(self.neighbours@[a as int]@.contains(x));
            }
        }
        lemma_bounded_set_len(s, self.n);
    }

    /// Adds the edge `{u, v}`; nothing changes where it is there already.
    pub fn add_edge(&mut self, u: Vx, v: Vx)
        requires
            old(self).wf(),
            u < old(self).spec_n(),
            v < old(self).spec_n(),
            u != v,
        ensures
            final(self).wf(),
            final(self).spec_n() == old(self).spec_n(),
            final(self)@ == with_edge(old(self)@, u, v),
    {
        if self.get_edge(u, v) {
            proof {
                self.lemma_simple();
                assert(self@[u].contains(v));
                assert(self@[v].contains(u));
                assert(nbrs(self@, u).insert(v) =~= self@[u]);
                assert(self@.insert(u, nbrs(self@, u).insert(v)) =~= self@);
                assert(nbrs(self@, v).insert(u) =~= self@[v]);
                assert(self@.insert(v, nbrs(self@, v).insert(u)) =~= self@);
            }
            return;
        }
        let ghost old_nb = self.neighbours@;
        proof {
            self.lemma_link(u, v);
            self.lemma_link(v, u);
        }
        self.neighbours[u].insert(v);
        let ghost mid = self.neighbours@;
        self.neighbours[v].insert(u);
        let du = self.neighbours[u].len();
        let dv = self.neighbours[v].len();
        self.degrees.set(u, du as u32);
        self.degrees.set(v, dv as u32);
        proof {
            assert(self.neighbours@[u as int]@ == old_nb[u as int]@.insert(v));
            assert(self.neighbours@[v as int]@ == old_nb[v as int]@.insert(u));
            assert forall|x: int| 0 <= x < self.n && x != u && x != v implies self.neighbours@[x] == old_nb[x] by {
                assert(mid[x] == old_nb[x]);
            }
            assert forall|x: int|
                0 <= x < self.n implies (#[trigger] self.neighbours@[x])@.finite()
                    && self.degrees@[x] == self.neighbours@[x]@.len() by {
                assert(old_nb[x]@.finite());
            }
            assert forall|x: int, w: Vx|
                0 <= x < self.n && #[trigger] self.neighbours@[x]@.contains(w) implies w < self.n
                    && w != x && self.neighbours@[w as int]@.contains(x as usize) by {
                if !(x == u && w == v) && !(x == v && w == u) {
                    assert(old_nb[x]@.contains(w));
                    assert(old_nb[w as int]@.contains(x as usize));
                }
            }
            assert(self.wf());
            lemma_contains_len(self.neighbours@[u as int]@, v);
            lemma_contains_len(self.neighbours@[v as int]@, u);
            assert(old_nb[u as int]@ =~= nbrs(old(self)@, u)) by {
                if old_nb[u as int]@.len() == 0 {
                    old_nb[u as int]@.lemma_len0_is_empty();
                }
            }
            assert(old_nb[v as int]@ =~= nbrs(old(self)@, v)) by {
                if old_nb[v as int]@.len() == 0 {
                    old_nb[v as int]@.lemma_len0_is_empty();
                }
            }
            assert(self@.dom() =~= with_edge(old(self)@, u, v).dom());
            assert(self@ =~= with_edge(old(self)@, u, v));
        }
    }

    /// Joins `v` to every vertex of `new_neighbours`.
    pub fn add_neighbours(&mut self, v: Vx, new_neighbours: &IdSet)
        requires
            old(self).wf(),
            v < old(self).spec_n(),
            !new_neighbours@.contains(v),
            forall|x: Vx| new_neighbours@.contains(x) ==> x < old(self).spec_n(),
        ensures
            final(self).wf(),
            final(self).spec_n() == old(self).spec_n(),
            forall|a: Vx, b: Vx|
                has_edge(final(self)@, a, b) <==> (has_edge(old(self)@, a, b) || (a == v
                    && new_neighbours@.contains(b)) || (b == v && new_neighbours@.contains(a))),
    {
        let elems = new_neighbours.elements();
        let mut i: usize = 0;
        while i < elems.len()
            invariant
                0 <= i <= elems.len(),
                elems@.to_set() == new_neighbours@,
                self.wf(),
                self.spec_n() == old(self).spec_n(),
                v < self.spec_n(),
                !new_neighbours@.contains(v),
                forall|x: Vx| new_neighbours@.contains(x) ==> x < old(self).spec_n(),
                forall|a: Vx, b: Vx|
                    has_edge(self@, a, b) <==> (has_edge(old(self)@, a, b) || (a == v
                        && elems@.subrange(0, i as int).contains(b)) || (b == v
                        && elems@.subrange(0, i as int).contains(a))),
            decreases elems.len() - i,
        {
            let x = elems[i];
            proof {
                assert(elems@.to_set().contains(x));
            }
            let ghost prev = self@;
            self.add_edge(v, x);
            proof {
                lemma_with_edge_edges(prev, v, x);
                assert(elems@.subrange(0, i + 1) == elems@.subrange(0, i as int).push(x));
                assert forall|a: Vx, b: Vx|
                    has_edge(self@, a, b) <==> (has_edge(old(self)@, a, b) || (a == v
                        && elems@.subrange(0, i + 1).contains(b)) || (b == v
                        && elems@.subrange(0, i + 1).contains(a))) by {
                    assert(has_edge(self@, a, b) == has_edge(with_edge(prev, v, x), a, b));
                    lemma_push_contains(elems@.subrange(0, i as int), x, b);
                    lemma_push_contains(elems@.subrange(0, i as int), x, a);
                }
            }
            i = i + 1;
        }
        proof {
            assert(elems@.subrange(0, i as int) == elems@);
            assert forall|b: Vx| elems@.contains(b) <==> new_neighbours@.contains(b) by {
                assert(elems@.contains(b) <==> elems@.to_set().contains(b));
            }
        }
    }

    /// The graph on the ids `0..n` with the edges of `edges`. Degrees are
    /// kept as `u32`, so the ids stay below `u32::MAX`, where every degree
    /// fits; an edge joins two distinct ids.
    pub fn new(n: usize, edges: Vec<Edge>) -> (r: Graph)
        requires
            n < u32::MAX,
            forall|i: int| 0 <= i < edges.len() ==> edges[i].0 < n && edges[i].1 < n && edges[i].0 != edges[i].1,
        ensures
            r.wf(),
            r.spec_n() == n,
            forall|a: Vx, b: Vx| has_edge(r@, a, b) <==> lists_edge(edges@, a, b),
    {
        let mut neighbours: Vec<IdSet> = Vec::new();
        let mut k: usize = 0;
        while k < n
            invariant
                k <= n,
                neighbours@.len() == k,
                forall|j: int| 0 <= j < k ==> (#[trigger] neighbours@[j])@ == Set::<usize>::empty(),
            decreases n - k,
        {
            neighbours.push(IdSet::empty());
            k = k + 1;
        }
        let mut g = Graph { n, neighbours, degrees: vec![0u32; n] };
        proof {
            assert(g@ =~= Map::<Vx, Set<Vx>>::empty());
        }
        let mut i: usize = 0;
        while i < edges.len()
            invariant
                0 <= i <= edges.len(),
                g.wf(),
                g.spec_n() == n,
                forall|i: int| 0 <= i < edges.len() ==> edges[i].0 < n && edges[i].1 < n && edges[i].0 != edges[i].1,
                forall|a: Vx, b: Vx| has_edge(g@, a, b) <==> lists_edge(edges@.subrange(0, i as int), a, b),
            decreases edges.len() - i,
        {
            let (u, v) = edges[i];
            let ghost prev = g@;
            g.add_edge(u, v);
            proof {
                lemma_with_edge_edges(prev, u, v);
                let sub = edges@.subrange(0, i as int);
                let sub1 = edges@.subrange(0, i + 1);
                assert forall|a: Vx, b: Vx| has_edge(g@, a, b) <==> lists_edge(sub1, a, b) by {
                    if lists_edge(sub1, a, b) {
                        let j = choose|j: int| 0 <= j < sub1.len() && (sub1[j] == (a, b) || sub1[j] == (b, a));
                        if j < i {
                            assert(sub[j] == sub1[j]);
                        }
                    }
                    if lists_edge(sub, a, b) {
                        let j = choose|j: int| 0 <= j < sub.len() && (sub[j] == (a, b) || sub[j] == (b, a));
                        assert(sub1[j] == sub[j]);
                    }
                    if (a == u && b == v) || (a == v && b == u) {
                        assert(sub1[i as int] == (u, v));
                    }
                }
            }
            i = i + 1;
        }
        proof {
            assert(edges@.subrange(0, i as int) == edges@);
        }
        g
    }

    /// Takes the vertices of `xs` out, one after the other.
    pub(crate) fn rm_all(&mut self, xs: &Vec<Vx>)
        requires
            old(self).wf(),
        ensures
            final(self).wf(),
            final(self).spec_n() == old(self).spec_n(),
            final(self)@ == without_set(old(self)@, xs@.to_set()),
    {
        let ghost g0 = self@;
        proof {
            self.lemma_simple();
            lemma_without_set_insert(g0, self.spec_n(), Set::empty(), 0);
            assert(xs@.subrange(0, 0).to_set() =~= Set::<Vx>::empty());
        }
        let mut i: usize = 0;
        while i < xs.len()
            invariant
                self.wf(),
                self.spec_n() == old(self).spec_n(),
                g0 == old(self)@,
                simple_graph(g0, self.spec_n()),
                i <= xs@.len(),
                self@ == without_set(g0, xs@.subrange(0, i as int).to_set()),
            decreases xs@.len() - i,
        {
            self.rm_vertex(xs[i]);
            proof {
                lemma_without_set_insert(g0, self.spec_n(), xs@.subrange(0, i as int).to_set(), xs@[i as int]);
                assert(xs@.subrange(0, i + 1) == xs@.subrange(0, i as int).push(xs@[i as int]));
                lemma_to_set_push(xs@.subrange(0, i as int), xs@[i as int]);
            }
            i = i + 1;
        }
        proof {
            assert(xs@.subrange(0, i as int) == xs@);
        }
    }

    /// Each vertex with neighbours, by increasing id, with a copy of its
    /// neighbour set.
    pub fn neighbours_iter(&self) -> (r: Vec<(Vx, IdSet)>)
        requires
            self.wf(),
        ensures
            r@.len() == self@.dom().len(),
            forall|i: int| 0 <= i < r@.len() ==> self@.dom().contains((#[trigger] r@[i]).0) && r@[i].1@ == self@[r@[i].0],
            forall|i: int, j: int| 0 <= i < j < r@.len() ==> (#[trigger] r@[i]).0 < (#[trigger] r@[j]).0,
            forall|v: Vx| self@.dom().contains(v) ==> exists|i: int| 0 <= i < r@.len() && (#[trigger] r@[i]).0 == v,
    {
        let vs = self.vertices();
        let mut r: Vec<(Vx, IdSet)> = Vec::new();
        let mut k: usize = 0;
        while k < vs.len()
            invariant
                self.wf(),
                k <= vs@.len(),
                vs@.to_set() == self@.dom(),
                forall|i: int, j: int| 0 <= i < j < vs.len() ==> vs[i] < vs[j],
                r@.len() == k,
                forall|i: int| 0 <= i < k ==> (#[trigger] r@[i]).0 == vs@[i] && r@[i].1@ == self@[vs@[i]],
            decreases vs@.len() - k,
        {
            let v = vs[k];
            proof {
                assert(vs@.to_set().contains(vs@[k as int]));
            }
            let s = self.neighbours[v].duplicate();
            let ghost r0 = r@;
            r.push((v, s));
            proof {
                assert forall|i: int| 0 <= i < k + 1 implies (#[trigger] r@[i]).0 == vs@[i] && r@[i].1@ == self@[vs@[i]] by {
                    if i < k {
                        assert(r@[i] == r0[i]);
                    }
                }
            }
            k = k + 1;
        }
        proof {
            assert forall|i: int| 0 <= i < r@.len() implies self@.dom().contains((#[trigger] r@[i]).0) && r@[i].1@ == self@[r@[i].0] by {
                assert(vs@.to_set().contains(vs@[i]));
            }
            assert forall|v: Vx| self@.dom().contains(v) implies exists|i: int| 0 <= i < r@.len() && (#[trigger] r@[i]).0 == v by {
                assert(vs@.to_set().contains(v));
                let i = choose|i: int| 0 <= i < vs@.len() && vs@[i] == v;
                assert(r@[i].0 == v);
            }
        }
        r
    }

    /// The neighbours of `u`, each once.
    pub fn neighbours(&self, u: Vx) -> (r: Vec<Vx>)
        requires
            self.wf(),
        ensures
            r@.no_duplicates(),
            r@.to_set() == nbrs(self@, u),
    {
        if u >= self.n {
            let r: Vec<Vx> = Vec::new();
            proof {
                assert(r@.to_set() =~= Set::<Vx>::empty());
            }
            return r;
        }
        let r = self.neighbours[u].elements();
        proof {
            if self.neighbours@[u as int]@.len() == 0 {
                self.neighbours@[u as int]@.lemma_len0_is_empty();
            }
        }
        r
    }

    /// The neighbour set of `u`, where `u` has neighbours.
    pub fn neighbours_hashset(&self, u: Vx) -> (r: Option<&IdSet>)
        requires
            self.wf(),
        ensures
            r is Some <==> self@.dom().contains(u),
            r matches Some(s) ==> s@ == self@[u],
    {
        if u < self.n && self.degrees[u] > 0 {
            Some(&self.neighbours[u])
        } else {
            None
        }
    }

    /// The vertices with at least one neighbour, in increasing order.
    pub fn vertices(&self) -> (r: Vec<Vx>)
        requires
            self.wf(),
        ensures
            forall|i: int, j: int| 0 <= i < j < r.len() ==> r[i] < r[j],
            r@.no_duplicates(),
            r@.to_set() == self@.dom(),
            r@.len() == self@.dom().len(),
    {
        let mut r: Vec<Vx> = Vec::new();
        let mut v: usize = 0;
        while v < self.n
            invariant
                self.wf(),
                v <= self.n,
                forall|i: int, j: int| 0 <= i < j < r.len() ==> r[i] < r[j],
                forall|i: int| 0 <= i < r.len() ==> r[i] < v && self@.dom().contains(#[trigger] r[i]),
                forall|x: Vx| x < v && self@.dom().contains(x) ==> r@.contains(x),
            decreases self.n - v,
        {
            if self.degrees[v] > 0 {
                let ghost old_r = r@;
                r.push(v);
                proof {
                    assert forall|x: Vx| x < v + 1 && self@.dom().contains(x) implies r@.contains(x) by {
                        lemma_push_contains(old_r, v, x);
                    }
                }
            }
            v = v + 1;
        }
        proof {
            assert forall|i: int, j: int| 0 <= i < r.len() && 0 <= j < r.len() && i != j implies r[i] != r[j] by {
                if i < j { assert(r[i] < r[j]); } else { assert(r[j] < r[i]); }
            }
            assert(r@.to_set() =~= self@.dom());
            r@.unique_seq_to_set();
        }
        r
    }

    /// Whether no vertex has a neighbour.
    pub fn is_empty(&self) -> (r: bool)
        requires
            self.wf(),
        ensures
            r <==> self@.dom() == Set::<Vx>::empty(),
    {
        let mut v: usize = 0;
        while v < self.n
            invariant
                self.wf(),
                v <= self.n,
                forall|x: Vx| x < v ==> !self@.dom().contains(x),
            decreases self.n - v,
        {
            if self.degrees[v] > 0 {
                proof {
                    assert(self@.dom().contains(v));
                }
                return false;
            }
            v = v + 1;
        }
        proof {
            assert(self@.dom() =~= Set::<Vx>::empty());
        }
        true
    }

    /// Each edge once, as `(u, v)` with `u < v`.
    pub fn edges(&self) -> (r: Vec<Edge>)
        requires
            self.wf(),
        ensures
            r@.no_duplicates(),
            forall|i: int| 0 <= i < r.len() ==> r[i].0 < r[i].1 && has_edge(self@, r[i].0, r[i].1),
            forall|u: Vx, v: Vx| u < v && has_edge(self@, u, v) ==> r@.contains((u, v)),
            r@.to_set() == edge_set(self@),
            r@.len() == edge_set(self@).len(),
    {
        let mut r: Vec<Edge> = Vec::new();
        let mut u: usize = 0;
        while u < self.n
            invariant
                self.wf(),
                u <= self.n,
                r@.no_duplicates(),
                forall|i: int| 0 <= i < r.len() ==> r[i].0 < u && r[i].0 < r[i].1 && has_edge(self@, r[i].0, r[i].1),
                forall|a: Vx, b: Vx| a < u && a < b && has_edge(self@, a, b) ==> r@.contains((a, b)),
            decreases self.n - u,
        {
            let elems = self.neighbours(u);
            let ghost base = r@;
            let mut j: usize = 0;
            while j < elems.len()
                invariant
                    self.wf(),
                    u < self.n,
                    j <= elems.len(),
                    elems@.no_duplicates(),
                    elems@.to_set() == nbrs(self@, u),
                    r@.no_duplicates(),
                    base.len() <= r.len(),
                    forall|i: int| 0 <= i < base.len() ==> r[i] == base[i],
                    forall|i: int| 0 <= i < base.len() ==> base[i].0 < u,
                    forall|i: int| base.len() <= i < r.len() ==> r[i].0 == u && elems@.subrange(0, j as int).contains(r[i].1),
                    forall|i: int| 0 <= i < r.len() ==> r[i].0 < r[i].1 && has_edge(self@, r[i].0, r[i].1),
                    forall|a: Vx, b: Vx| a < u && a < b && has_edge(self@, a, b) ==> r@.contains((a, b)),
                    forall|b: Vx| u < b && elems@.subrange(0, j as int).contains(b) ==> r@.contains((u, b)),
                decreases elems.len() - j,
            {
                let w = elems[j];
                proof {
                    assert(elems@.to_set().contains(w));
                    lemma_push_contains(elems@.subrange(0, j as int), w, w);
                    assert(elems@.subrange(0, j + 1) == elems@.subrange(0, j as int).push(w));
                }
                if u < w {
                    let ghost old_r = r@;
                    proof {
                        assert(!old_r.contains((u, w))) by {
                            if old_r.contains((u, w)) {
                                let k = choose|k: int| 0 <= k < old_r.len() && old_r[k] == (u, w);
                                if k < base.len() {
                                    assert(base[k].0 < u);
                                } else {
                                    assert(elems@.subrange(0, j as int).contains(w));
                                    let m = choose|m: int| 0 <= m < j && elems@.subrange(0, j as int)[m] == w;
                                    assert(elems@[m] == elems@[j as int]);
                                }
                            }
                        }
                    }
                    r.push((u, w));
                    proof {
                        assert forall|a: Vx, b: Vx| a < u && a < b && has_edge(self@, a, b) implies r@.contains((a, b)) by {
                            lemma_push_contains(old_r, (u, w), (a, b));
                        }
                        assert forall|b: Vx| u < b && elems@.subrange(0, j + 1).contains(b) implies r@.contains((u, b)) by {
                            lemma_push_contains(old_r, (u, w), (u, b));
                            lemma_push_contains(elems@.subrange(0, j as int), w, b);
                        }
                        assert forall|i: int| base.len() <= i < r.len() implies r[i].0 == u && elems@.subrange(0, j + 1).contains(r[i].1) by {
                            if i < old_r.len() {
                                lemma_push_contains(elems@.subrange(0, j as int), w, r[i].1);
                            }
                        }
                        assert forall|x: int, y: int| 0 <= x < r.len() && 0 <= y < r.len() && x != y implies r[x] != r[y] by {
                            if y == old_r.len() {
                                assert(r[x] == old_r[x]);
                                if r[x] == r[y] {
                                    assert(old_r.contains((u, w)));
                                }
                            } else if x == old_r.len() {
                                assert(r[y] == old_r[y]);
                                if r[x] == r[y] {
                                    assert(old_r.contains((u, w)));
                                }
                            } else {
                                assert(r[x] == old_r[x] && r[y] == old_r[y]);
                            }
                        }
                    }
                } else {
                    proof {
                        assert forall|b: Vx| u < b && elems@.subrange(0, j + 1).contains(b) implies r@.contains((u, b)) by {
                            lemma_push_contains(elems@.subrange(0, j as int), w, b);
                        }
                        assert forall|i: int| base.len() <= i < r.len() implies r[i].0 == u && elems@.subrange(0, j + 1).contains(r[i].1) by {
                            lemma_push_contains(elems@.subrange(0, j as int), w, r[i].1);
                        }
                    }
                }
                j = j + 1;
            }
            proof {
                assert(elems@.subrange(0, j as int) == elems@);
                assert forall|i: int| 0 <= i < r.len() implies r[i].0 < u + 1 by {
                    if i < base.len() {
                        assert(r[i] == base[i]);
                    }
                }
                assert forall|a: Vx, b: Vx| a < u + 1 && a < b && has_edge(self@, a, b) implies r@.contains((a, b)) by {
                    if a == u {
                        assert(elems@.to_set().contains(b));
                    }
                }
            }
            u = u + 1;
        }
        proof {
            assert forall|e: Edge| r@.to_set().contains(e) <==> edge_set(self@).contains(e) by {
                if r@.to_set().contains(e) {
                    let k = choose|k: int| 0 <= k < r.len() && r[k] == e;
                }
                if edge_set(self@).contains(e) {
                    assert(r@.contains((e.0, e.1)));
                }
            }
            assert(r@.to_set() =~= edge_set(self@));
            r@.unique_seq_to_set();
        }
        r
    }

    /// Each edge in both directions, once each: `(u, v)` and `(v, u)`.
    pub fn edges_sym(&self) -> (r: Vec<Edge>)
        requires
            self.wf(),
        ensures
            forall|i: int| 0 <= i < r.len() ==> has_edge(self@, r[i].0, r[i].1),
            forall|u: Vx, v: Vx| has_edge(self@, u, v) ==> r@.contains((u, v)),
            r@.no_duplicates(),
            r@.len() == 2 * edge_set(self@).len(),
    {
        let mut r: Vec<Edge> = Vec::new();
        let mut u: usize = 0;
        while u < self.n
            invariant
                self.wf(),
                u <= self.n,
                forall|i: int| 0 <= i < r.len() ==> has_edge(self@, r[i].0, r[i].1),
                forall|a: Vx, b: Vx| a < u && has_edge(self@, a, b) ==> r@.contains((a, b)),
                r@.no_duplicates(),
                forall|i: int| 0 <= i < r.len() ==> r[i].0 < u,
            decreases self.n - u,
        {
            let elems = self.neighbours(u);
            let mut j: usize = 0;
            while j < elems.len()
                invariant
                    self.wf(),
                    u < self.n,
                    j <= elems.len(),
                    elems@.to_set() == nbrs(self@, u),
                    forall|i: int| 0 <= i < r.len() ==> has_edge(self@, r[i].0, r[i].1),
                    forall|a: Vx, b: Vx| a < u && has_edge(self@, a, b) ==> r@.contains((a, b)),
                    forall|b: Vx| elems@.subrange(0, j as int).contains(b) ==> r@.contains((u, b)),
                    elems@.no_duplicates(),
                    r@.no_duplicates(),
                    forall|i: int| 0 <= i < r.len() ==> r[i].0 < u || (r[i].0 == u && elems@.subrange(0, j as int).contains(r[i].1)),
                decreases elems.len() - j,
            {
                let w = elems[j];
                proof {
                    assert(elems@.to_set().contains(w));
                    assert(elems@.subrange(0, j + 1) == elems@.subrange(0, j as int).push(w));
                }
                let ghost old_r = r@;
                proof {
                    assert forall|i: int| 0 <= i < old_r.len() implies old_r[i] != (u, w) by {
                        if old_r[i] == (u, w) {
                            let t = choose|t: int| 0 <= t < j && elems@.subrange(0, j as int)[t] == w;
                            assert(elems@[t] == elems@[j as int]);
                        }
                    }
                }
                r.push((u, w));
                proof {
                    assert forall|i: int| 0 <= i < r.len() implies r[i].0 < u || (r[i].0 == u && elems@.subrange(0, j + 1).contains(r[i].1)) by {
                        if i < old_r.len() && r[i].0 == u {
                            lemma_push_contains(elems@.subrange(0, j as int), w, r[i].1);
                        }
                        if i == old_r.len() {
                            assert(elems@.subrange(0, j + 1)[j as int] == w);
                        }
                    }
                    assert forall|a: Vx, b: Vx| a < u && has_edge(self@, a, b) implies r@.contains((a, b)) by {
                        lemma_push_contains(old_r, (u, w), (a, b));
                    }
                    assert forall|b: Vx| elems@.subrange(0, j + 1).contains(b) implies r@.contains((u, b)) by {
                        lemma_push_contains(old_r, (u, w), (u, b));
                        lemma_push_contains(elems@.subrange(0, j as int), w, b);
                    }
                }
                j = j + 1;
            }
            proof {
                assert(elems@.subrange(0, j as int) == elems@);
                assert forall|i: int| 0 <= i < r.len() implies r[i].0 < u + 1 by {}
                assert forall|a: Vx, b: Vx| a < u + 1 && has_edge(self@, a, b) implies r@.contains((a, b)) by {
                    if a == u {
                        assert(elems@.to_set().contains(b));
                    }
                }
            }
            u = u + 1;
        }
        proof {
            self.lemma_simple();
            assert forall|a: Vx, b: Vx| #[trigger] r@.contains((a, b)) <==> has_edge(self@, a, b) by {
                if r@.contains((a, b)) {
                    let k = choose|k: int| 0 <= k < r@.len() && r@[k] == (a, b);
                    assert(has_edge(self@, r@[k].0, r@[k].1));
                }
            }
            law_symmetric_edges(self@, self.spec_n(), r@);
        }
        r
    }

    /// Some edge, or `None` for a graph without edges.
    pub fn next_edge(&self) -> (r: Option<Edge>)
        requires
            self.wf(),
        ensures
            r is None <==> self@.dom() == Set::<Vx>::empty(),
            r matches Some(e) ==> has_edge(self@, e.0, e.1),
    {
        let mut u: usize = 0;
        while u < self.n
            invariant
                self.wf(),
                u <= self.n,
                forall|x: Vx| x < u ==> !self@.dom().contains(x),
            decreases self.n - u,
        {
            if self.degrees[u] > 0 {
                let w = self.neighbours[u].some_element();
                proof {
                    assert(self@.dom().contains(u));
                    if w is None {
                        assert(self.neighbours@[u as int]@.len() == 0);
                    }
                }
                match w {
                    Some(w) => { return Some((u, w)); },
                    None => {},
                }
            }
            u = u + 1;
        }
        proof {
            assert(self@.dom() =~= Set::<Vx>::empty());
        }
        None
    }

    /// Frees spare capacity; the graph stays the same.
    pub fn shrink_to_fit(&mut self)
        requires
            old(self).wf(),
        ensures
            final(self).wf(),
            final(self).spec_n() == old(self).spec_n(),
            final(self)@ == old(self)@,
    {
        let mut v: usize = 0;
        while v < self.n
            invariant
                v <= self.n,
                self.n == old(self).n,
                self.degrees == old(self).degrees,
                old(self).wf(),
                self.neighbours@.len() == old(self).neighbours@.len(),
                self.neighbours@.len() == self.n,
                forall|x: int| 0 <= x < self.n ==> (#[trigger] self.neighbours@[x])@ == old(self).neighbours@[x]@,
            decreases self.n - v,
        {
            self.neighbours[v].shrink_to_fit();
            v = v + 1;
        }
        proof {
            assert(self@ =~= old(self)@);
            assert forall|v: int, w: Vx|
                0 <= v < self.n && #[trigger] self.neighbours@[v]@.contains(w) implies w < self.n
                    && w != v && self.neighbours@[w as int]@.contains(v as usize) by {
                assert(old(self).neighbours@[v]@.contains(w));
            }
        }
    }

}

impl Clone for Graph {
    /// A copy of the graph.
    fn clone(&self) -> (r: Self)
        ensures
            self.wf() ==> r.wf() && r.spec_n() == self.spec_n() && r@ == self@,
    {
        let mut neighbours: Vec<IdSet> = Vec::new();
        let mut v: usize = 0;
        while v < self.neighbours.len()
            invariant
                v <= self.neighbours@.len(),
                neighbours@.len() == v,
                forall|x: int| 0 <= x < v ==> (#[trigger] neighbours@[x])@ == self.neighbours@[x]@,
            decreases self.neighbours@.len() - v,
        {
            neighbours.push(self.neighbours[v].duplicate());
            v = v + 1;
        }
        let mut degrees: Vec<u32> = Vec::new();
        let mut v: usize = 0;
        while v < self.degrees.len()
            invariant
                v <= self.degrees@.len(),
                degrees@ == self.degrees@.subrange(0, v as int),
            decreases self.degrees@.len() - v,
        {
            degrees.push(self.degrees[v]);
            v = v + 1;
        }
        let r = Graph { n: self.n, neighbours, degrees };
        proof {
            assert(degrees@ == self.degrees@);
            assert(r@ =~= self@);
            if self.wf() {
                assert forall|v: int, w: Vx|
                    0 <= v < r.n && #[trigger] r.neighbours@[v]@.contains(w) implies w < r.n
                        && w != v && r.neighbours@[w as int]@.contains(v as usize) by {
                    assert(self.neighbours@[v]@.contains(w));
                }
                assert forall|v: int| 0 <= v < r.n implies (#[trigger] r.neighbours@[v])@.finite()
                        && r.degrees@[v] == r.neighbours@[v]@.len() by {
                    assert(self.neighbours@[v]@.finite());
                }
            }
        }
        r
    }
}

} // verus!
