//! The search state: the remaining graph, the partial solution, the
//! dirty sets of the reduction rules and the packing constraints.

use vstd::prelude::*;
use crate::idset::IdSet;
use crate::graph::{Vx, Graph, simple_graph, lemma_contains_len, lemma_push_contains, lemma_to_set_push, nbrs, has_edge, without_vertex, without_set, with_edge, neighbourhood, lemma_without_set_insert, lemma_nbrs_without_set};
use crate::cleanup::{Cleanup, cleanup_eq};
use crate::ideas::{AnyIdea, ideas, clone_ideas};
use crate::branch::max_degree;

verus! {

/// One node of the branch-and-reduce search.
///
/// `dirty[i]` holds the vertices whose closed neighbourhood changed since
/// rule `i` last ran. `constraints_vec[i]` is a packing constraint: at most
/// `diff_vec[i]` more of its vertices may join the solution.
/// `fingertable[v]` holds the indices of constraints that `v` belongs to.
pub struct State {
    pub cleanup_funcs: Vec<Cleanup>,
    pub dirty: Vec<IdSet>,
    pub diff_vec: Vec<usize>,
    pub constraints_vec: Vec<IdSet>,
    pub fingertable: Vec<IdSet>,
    pub solution: Vec<Vx>,
    pub upper_bound: usize,
    pub graph: Graph,
}

/// A search state together with the rules that work on it.
pub struct ExState {
    pub ideas: Vec<AnyIdea>,
    pub state: State,
}

/// Every edge of `g` has an end point in `c`.
pub open spec fn is_vertex_cover(g: Map<Vx, Set<Vx>>, c: Set<Vx>) -> bool {
    forall|u: Vx, v: Vx| #[trigger] has_edge(g, u, v) ==> c.contains(u) || c.contains(v)
}

/// The packing constraints that the solver starts with (none yet).
fn constraints(g: &Graph) -> (r: (Vec<IdSet>, Vec<usize>))
    ensures
        r.0@.len() == 0,
        r.1@.len() == 0,
{
    (Vec::new(), Vec::new())
}

/// `ws` is a run of the greedy rule on `g`: each vertex has maximum
/// degree once the ones before it are gone, and none is left after.
pub open spec fn greedy_run(g: Map<Vx, Set<Vx>>, ws: Seq<Vx>) -> bool {
    &&& forall|i: int| 0 <= i < ws.len() ==> without_set(g, ws.take(i).to_set()).dom().contains(#[trigger] ws[i])
    &&& forall|i: int, u: Vx| #![trigger ws[i], nbrs(without_set(g, ws.take(i).to_set()), u)]
        0 <= i < ws.len() && without_set(g, ws.take(i).to_set()).dom().contains(u)
        ==> nbrs(without_set(g, ws.take(i).to_set()), u).len() <= nbrs(without_set(g, ws.take(i).to_set()), ws[i]).len()
    &&& without_set(g, ws.to_set()).dom() == Set::<Vx>::empty()
}

/// The size of the cover that the greedy rule "take a vertex of maximum
/// degree, repeat" finds: an upper bound on the size of a minimum cover.
pub fn upper_bound(g: &Graph) -> (r: usize)
    requires
        g.wf(),
    ensures
        exists|c: Set<Vx>| #![trigger is_vertex_cover(g@, c)] c.finite() && c.len() == r && c.subset_of(g@.dom()) && is_vertex_cover(g@, c),
        exists|ws: Seq<Vx>| #[trigger] greedy_run(g@, ws) && ws.len() == r,
{
    let mut graph = g.clone();
    let gn = g.n();
    let mut ub: usize = 0;
    let ghost mut taken: Set<Vx> = Set::empty();
    let ghost mut ws: Seq<Vx> = Seq::empty();
    proof {
        g.lemma_simple();
        lemma_without_set_insert(g@, g.spec_n(), Set::empty(), 0);
        assert(ws.to_set() =~= taken);
    }
    while !graph.is_empty()
        invariant
            graph.wf(),
            graph.spec_n() == g.spec_n(),
            simple_graph(g@, g.spec_n()),
            graph@ == without_set(g@, taken),
            taken.finite(),
            taken.len() == ub,
            taken.subset_of(g@.dom()),
            gn == g.spec_n(),
            ws.to_set() == taken,
            ws.len() == ub,
            forall|i: int| 0 <= i < ws.len() ==> without_set(g@, ws.take(i).to_set()).dom().contains(#[trigger] ws[i]),
            forall|i: int, u: Vx| #![trigger ws[i], nbrs(without_set(g@, ws.take(i).to_set()), u)]
                0 <= i < ws.len() && without_set(g@, ws.take(i).to_set()).dom().contains(u)
                ==> nbrs(without_set(g@, ws.take(i).to_set()), u).len() <= nbrs(without_set(g@, ws.take(i).to_set()), ws[i]).len(),
        decreases g@.dom().difference(taken).len(),
    {
        let v = max_degree(&graph);
        let ghost ws0 = ws;
        proof {
            ws = ws.push(v);
            lemma_to_set_push(ws0, v);
            assert(ws.take(ws0.len() as int) == ws0);
            assert forall|i: int| 0 <= i < ws.len() implies without_set(g@, ws.take(i).to_set()).dom().contains(#[trigger] ws[i]) by {
                if i < ws0.len() {
                    assert(ws.take(i) == ws0.take(i));
                    assert(ws[i] == ws0[i]);
                }
            }
            assert forall|i: int, u: Vx| #![trigger ws[i], nbrs(without_set(g@, ws.take(i).to_set()), u)]
                0 <= i < ws.len() && without_set(g@, ws.take(i).to_set()).dom().contains(u)
                implies nbrs(without_set(g@, ws.take(i).to_set()), u).len() <= nbrs(without_set(g@, ws.take(i).to_set()), ws[i]).len() by {
                if i < ws0.len() {
                    assert(ws.take(i) == ws0.take(i));
                    assert(ws[i] == ws0[i]);
                }
            }
        }
        graph.rm_vertex(v);
        proof {
            lemma_without_set_insert(g@, g.spec_n(), taken, v);
            assert(!taken.contains(v));
            g@.dom().lemma_set_insert_diff_decreases(taken, v);
            taken.lemma_subset_not_in_lt(g@.dom(), v);
            crate::graph::lemma_bounded_set_len(g@.dom(), gn);
            taken = taken.insert(v);
        }
        ub = ub + 1;
    }
    proof {
        assert forall|u: Vx, v: Vx| #[trigger] has_edge(g@, u, v) implies taken.contains(u) || taken.contains(v) by {
            if !taken.contains(u) && !taken.contains(v) {
                assert(g@[u].difference(taken).contains(v));
                crate::graph::lemma_contains_len(g@[u].difference(taken), v);
                assert(without_set(g@, taken).dom().contains(u));
            }
        }
        assert(is_vertex_cover(g@, taken));
        assert(graph@.dom() =~= Set::<Vx>::empty());
        assert(greedy_run(g@, ws));
    }
    ub
}

/// `g` has a vertex cover of at most `k` vertices.
pub open spec fn cover_within(g: Map<Vx, Set<Vx>>, k: int) -> bool {
    exists|c: Set<Vx>| #[trigger] is_vertex_cover(g, c) && c.finite() && c.len() <= k
}

/// The finger-table entries of the vertices of `xs` are empty.
pub open spec fn fingers_cleared(s: &State, xs: Set<Vx>) -> bool {
    forall|y: Vx| xs.contains(y) && (y as int) < s.fingertable@.len() ==> (#[trigger] s.fingertable@[y as int])@ == Set::<usize>::empty()
}

/// Every vertex of `s`, every id in its dirty sets and every id in its
/// constraints is below `n`: a graph on `n` ids can take over its data.
pub open spec fn substate_fits(s: &State, n: nat) -> bool {
    &&& forall|v: Vx| #[trigger] s.graph@.dom().contains(v) ==> v < n
    &&& forall|j: int, x: Vx| 0 <= j < s.dirty@.len() && #[trigger] s.dirty@[j]@.contains(x) ==> x < n
    &&& forall|i: usize, x: Vx| i < s.constraints_vec@.len() && #[trigger] s.constraints_vec@[i as int]@.contains(x) ==> x < n
}

/// The constraints of `r` are one copy each of a constraint `orig[j]` of
/// `s` at a vertex `owner[j]`: constraint `j` is listed at `owner[j]`
/// alone, and no two copies share both vertex and original.
pub open spec fn copy_table(r: &State, s: &State, orig: Seq<usize>, owner: Seq<Vx>) -> bool {
    &&& orig.len() == r.constraints_vec@.len()
    &&& owner.len() == orig.len()
    &&& forall|j: int| #![trigger orig[j]] 0 <= j < orig.len() ==> {
        &&& copy_of(r, s, j as usize, orig[j])
        &&& (owner[j] as int) < s.fingertable@.len()
        &&& s.fingertable@[owner[j] as int]@.contains(orig[j])
        &&& r.fingertable@[owner[j] as int]@.contains(j as usize)
    }
    &&& forall|v: int, j: usize| 0 <= v < r.fingertable@.len() && #[trigger] r.fingertable@[v]@.contains(j)
        ==> (j as int) < orig.len() && owner[j as int] == v
    &&& forall|j1: int, j2: int| 0 <= j1 < j2 < orig.len() ==> owner[j1] != owner[j2] || #[trigger] orig[j1] != #[trigger] orig[j2]
}

/// Constraint `j` of `r` is a copy of constraint `i` of `s`, with its
/// difference.
pub open spec fn copy_of(r: &State, s: &State, j: usize, i: usize) -> bool {
    &&& j < r.constraints_vec@.len()
    &&& i < s.constraints_vec@.len()
    &&& r.constraints_vec@[j as int]@ == s.constraints_vec@[i as int]@
    &&& r.diff_vec@[j as int] == s.diff_vec@[i as int]
}

/// Constraint `j` of `r` copies a constraint of `s` at a vertex `v` of
/// `sub`, and is listed at `v`.
pub open spec fn copied(r: &State, s: &State, sub: Set<Vx>, j: usize) -> bool {
    exists|i: usize, v: Vx| #![trigger copy_of(r, s, j, i), r.fingertable@[v as int]]
        sub.contains(v) && (v as int) < r.fingertable@.len() && s.fingertable@[v as int]@.contains(i)
            && r.fingertable@[v as int]@.contains(j) && copy_of(r, s, j, i)
}

/// Constraint `i` of `s` at `v` has a copy in `r`, listed at `v`.
pub open spec fn covered(r: &State, s: &State, v: Vx, i: usize) -> bool {
    exists|j: usize| #[trigger] copy_of(r, s, j, i) && r.fingertable@[v as int]@.contains(j)
}

/// `b` holds the constraints of `a` and possibly more after them, and
/// lists each vertex at least where `a` does.
pub open spec fn grows(a: &State, b: &State) -> bool {
    &&& a.constraints_vec@.len() <= b.constraints_vec@.len()
    &&& a.diff_vec@.len() == a.constraints_vec@.len()
    &&& forall|j: int| 0 <= j < a.constraints_vec@.len() ==> (#[trigger] b.constraints_vec@[j])@ == a.constraints_vec@[j]@
    &&& forall|j: int| 0 <= j < a.diff_vec@.len() ==> #[trigger] b.diff_vec@[j] == a.diff_vec@[j]
    &&& b.fingertable@.len() == a.fingertable@.len()
    &&& forall|v: int, j: usize| #![trigger a.fingertable@[v]@.contains(j)] #![trigger b.fingertable@[v]@.contains(j)]
        0 <= v < a.fingertable@.len() && a.fingertable@[v]@.contains(j) ==> b.fingertable@[v]@.contains(j)
}

/// Copies and their listings survive growth.
proof fn lemma_grows_keeps(a: &State, b: &State, s: &State, sub: Set<Vx>)
    requires
        grows(a, b),
    ensures
        forall|j: usize| #[trigger] copied(a, s, sub, j) ==> copied(b, s, sub, j),
        forall|v: Vx, i: usize| v < a.fingertable@.len() && #[trigger] covered(a, s, v, i) ==> covered(b, s, v, i),
{
    assert forall|j: usize| #[trigger] copied(a, s, sub, j) implies copied(b, s, sub, j) by {
        let (i, v) = choose|i: usize, v: Vx| #![trigger copy_of(a, s, j, i), a.fingertable@[v as int]]
            sub.contains(v) && (v as int) < a.fingertable@.len() && s.fingertable@[v as int]@.contains(i)
                && a.fingertable@[v as int]@.contains(j) && copy_of(a, s, j, i);
        assert(b.constraints_vec@[j as int]@ == a.constraints_vec@[j as int]@);
        assert(b.diff_vec@[j as int] == a.diff_vec@[j as int]);
        assert(a.fingertable@[v as int]@.contains(j));
        assert(copy_of(b, s, j, i) && b.fingertable@[v as int]@.contains(j));
    }
    assert forall|v: Vx, i: usize| v < a.fingertable@.len() && #[trigger] covered(a, s, v, i) implies covered(b, s, v, i) by {
        let j = choose|j: usize| #[trigger] copy_of(a, s, j, i) && a.fingertable@[v as int]@.contains(j);
        assert(b.constraints_vec@[j as int]@ == a.constraints_vec@[j as int]@);
        assert(b.diff_vec@[j as int] == a.diff_vec@[j as int]);
        assert(copy_of(b, s, j, i));
    }
}

impl ExState {
    /// The state is consistent and there is one dirty set per rule.
    pub open spec fn wf(&self) -> bool {
        &&& self.state.wf()
        &&& self.ideas@.len() == self.state.dirty@.len()
        &&& forall|j: int| 0 <= j < self.ideas@.len() ==> (#[trigger] self.ideas@[j]).inv(self.state.graph.spec_n())
    }

    /// The start of the search on `g`: no solution yet, nothing dirty, and
    /// the greedy upper bound.
    pub fn new(g: Graph) -> (r: ExState)
        requires
            g.wf(),
        ensures
            r.wf(),
            r.state.graph@ == g@,
            r.state.graph.spec_n() == g.spec_n(),
            r.state.solution@.len() == 0,
            r.state.cleanup_funcs@.len() == 0,
            forall|j: int| 0 <= j < r.state.dirty@.len() ==> (#[trigger] r.state.dirty@[j])@ == Set::<Vx>::empty(),
            exists|c: Set<Vx>| #![trigger is_vertex_cover(g@, c)] c.finite() && c.len() == r.state.upper_bound && is_vertex_cover(g@, c),
            exists|ws: Seq<Vx>| #[trigger] greedy_run(g@, ws) && ws.len() == r.state.upper_bound,
            r.ideas@.len() == 13,
            forall|j: int| 0 <= j < r.ideas@.len() ==> (#[trigger] r.ideas@[j]).fresh(g@),
            r.ideas@[0] is NeighbourClique && r.ideas@[1] is Unconfined && r.ideas@[2] is CycleLB && r.ideas@[3] is CliqueLB,
            r.ideas@[4] is Crown && r.ideas@[5] is Deg1 && r.ideas@[6] is Deg2 && r.ideas@[7] is Deg3 && r.ideas@[8] is HighDeg,
            r.ideas@[9] is Buss && r.ideas@[10] is TwoClique && r.ideas@[11] is ConstraintReductions && r.ideas@[12] is Flow,
            r.state.constraints_vec@.len() == 0,
            r.state.diff_vec@.len() == 0,
            forall|v: int| 0 <= v < r.state.fingertable@.len() ==> (#[trigger] r.state.fingertable@[v])@ == Set::<usize>::empty(),
    {
        let ideas = ideas(&g);
        let mut dirty: Vec<IdSet> = Vec::new();
        let mut i: usize = 0;
        while i < ideas.len()
            invariant
                i <= ideas@.len(),
                dirty@.len() == i,
                forall|j: int| 0 <= j < i ==> (#[trigger] dirty@[j])@ == Set::<Vx>::empty(),
            decreases ideas@.len() - i,
        {
            dirty.push(IdSet::empty());
            i = i + 1;
        }
        let (constraints_vec, diff_vec) = constraints(&g);
        let mut fingertable: Vec<IdSet> = Vec::new();
        let mut v: usize = 0;
        let n = g.n();
        while v < n
            invariant
                v <= n,
                fingertable@.len() == v,
                forall|w: int| 0 <= w < v ==> (#[trigger] fingertable@[w])@ == Set::<usize>::empty(),
            decreases n - v,
        {
            fingertable.push(IdSet::empty());
            v = v + 1;
        }
        let ub = upper_bound(&g);
        ExState {
            ideas,
            state: State {
                cleanup_funcs: Vec::new(),
                dirty,
                diff_vec,
                constraints_vec,
                fingertable,
                solution: Vec::new(),
                upper_bound: ub,
                graph: g,
            },
        }
    }

    /// The search state for the part `subgraph` of the graph, given that
    /// `k` vertices of the solution lie outside it: the rules and dirty
    /// sets are copied, the constraints that touch a vertex of the part are
    /// copied (one copy per such vertex), the bound is lowered by `k`, and
    /// every vertex outside the part is marked dirty.
    pub fn substate(&self, subgraph: Graph, k: usize) -> (r: ExState)
        requires
            self.wf(),
            subgraph.wf(),
            substate_fits(&self.state, subgraph.spec_n()),
            forall|j: int| 0 <= j < self.ideas@.len() ==> (#[trigger] self.ideas@[j]).inv(subgraph.spec_n()),
            k <= self.state.upper_bound,
        ensures
            r.wf(),
            r.state.graph@ == subgraph@,
            r.state.graph.spec_n() == subgraph.spec_n(),
            r.state.solution@.len() == 0,
            r.state.cleanup_funcs@.len() == 0,
            r.state.upper_bound == self.state.upper_bound - k,
            r.ideas@.len() == self.ideas@.len(),
            forall|j: usize| j < r.state.constraints_vec@.len() ==> #[trigger] copied(&r.state, &self.state, subgraph@.dom(), j),
            forall|v: Vx, i: usize| subgraph@.dom().contains(v) && (v as int) < self.state.fingertable@.len()
                && #[trigger] self.state.fingertable@[v as int]@.contains(i) ==> covered(&r.state, &self.state, v, i),
            forall|w: Vx| w < subgraph.spec_n() && !subgraph@.dom().contains(w)
                ==> (#[trigger] r.state.fingertable@[w as int])@ == Set::<usize>::empty(),
            r.state.dirty@.len() == self.state.dirty@.len(),
            forall|j: int| 0 <= j < r.state.dirty@.len() ==> (#[trigger] r.state.dirty@[j])@
                == self.state.dirty@[j]@.union(self.state.graph@.dom().difference(subgraph@.dom())),
            exists|orig: Seq<usize>, owner: Seq<Vx>| #[trigger] copy_table(&r.state, &self.state, orig, owner)
                && forall|j: int| 0 <= j < owner.len() ==> subgraph@.dom().contains(#[trigger] owner[j]),
    {
        let n = subgraph.n();
        let mut fingertable: Vec<IdSet> = Vec::new();
        let mut v: usize = 0;
        while v < n
            invariant
                v <= n,
                fingertable@.len() == v,
                forall|w: int| 0 <= w < v ==> (#[trigger] fingertable@[w])@ == Set::<usize>::empty(),
            decreases n - v,
        {
            fingertable.push(IdSet::empty());
            v = v + 1;
        }
        let mut ex_sub = ExState {
            ideas: clone_ideas(&self.ideas),
            state: State {
                cleanup_funcs: Vec::new(),
                dirty: clone_sets(&self.state.dirty),
                diff_vec: Vec::new(),
                constraints_vec: Vec::new(),
                fingertable,
                solution: Vec::new(),
                upper_bound: self.state.upper_bound - k,
                graph: subgraph,
            },
        };
        proof {
            assert forall|j: int, x: Vx|
                0 <= j < ex_sub.state.dirty@.len() && #[trigger] ex_sub.state.dirty@[j]@.contains(x) implies x < ex_sub.state.graph.spec_n() by {
                assert(self.state.dirty@[j]@.contains(x));
            }
            assert forall|j: int| 0 <= j < ex_sub.ideas@.len() implies (#[trigger] ex_sub.ideas@[j]).inv(ex_sub.state.graph.spec_n()) by {
                assert(self.ideas@[j].inv(subgraph.spec_n()));
            }
            assert(ex_sub.state.wf());
            assert(ex_sub.wf());
        }
        let vs = ex_sub.state.graph.vertices();
        let ghost mut orig: Seq<usize> = Seq::empty();
        let ghost mut owner: Seq<Vx> = Seq::empty();
        proof {
            assert forall|v: int, j: usize| 0 <= v < ex_sub.state.fingertable@.len() && #[trigger] ex_sub.state.fingertable@[v]@.contains(j)
                implies (j as int) < orig.len() && owner[j as int] == v by {
                assert(ex_sub.state.fingertable@[v]@ == Set::<usize>::empty());
            }
        }
        let mut a: usize = 0;
        while a < vs.len()
            invariant
                a <= vs@.len(),
                ex_sub.wf(),
                self.wf(),
                ex_sub.state.graph.spec_n() == subgraph.spec_n(),
                ex_sub.state.graph@ == subgraph@,
                ex_sub.state.solution@.len() == 0,
                ex_sub.state.cleanup_funcs@.len() == 0,
                ex_sub.state.upper_bound == self.state.upper_bound - k,
                ex_sub.ideas@.len() == self.ideas@.len(),
                vs@.to_set() == subgraph@.dom(),
                n == subgraph.spec_n(),
                substate_fits(&self.state, subgraph.spec_n()),
                forall|j: usize| j < ex_sub.state.constraints_vec@.len() ==> #[trigger] copied(&ex_sub.state, &self.state, subgraph@.dom(), j),
                forall|aa: int, i: usize| 0 <= aa < a && (vs@[aa] as int) < self.state.fingertable@.len() && #[trigger] self.state.fingertable@[vs@[aa] as int]@.contains(i)
                    ==> covered(&ex_sub.state, &self.state, vs@[aa], i),
                forall|w: Vx| w < n && !subgraph@.dom().contains(w)
                    ==> (#[trigger] ex_sub.state.fingertable@[w as int])@ == Set::<usize>::empty(),
                ex_sub.state.dirty@.len() == self.state.dirty@.len(),
                forall|j: int| 0 <= j < ex_sub.state.dirty@.len() ==> (#[trigger] ex_sub.state.dirty@[j])@ == self.state.dirty@[j]@,
                vs@.no_duplicates(),
                copy_table(&ex_sub.state, &self.state, orig, owner),
                forall|j: int| 0 <= j < owner.len() ==> vs@.subrange(0, a as int).contains(#[trigger] owner[j]),
            decreases vs@.len() - a,
        {
            let v = vs[a];
            proof {
                assert(vs@.to_set().contains(v));
                ex_sub.state.graph.lemma_simple();
            }
            let indices = if v < self.state.fingertable.len() { self.state.fingertable[v].elements() } else { Vec::new() };
            let mut b: usize = 0;
            while b < indices.len()
                invariant
                    b <= indices@.len(),
                    indices@.len() > 0 ==> v < self.state.graph.spec_n(),
                    v < self.state.fingertable@.len() ==> indices@.to_set() == self.state.fingertable@[v as int]@,
                    v >= self.state.fingertable@.len() ==> indices@.len() == 0,
                    ex_sub.wf(),
                    self.wf(),
                    ex_sub.state.graph.spec_n() == subgraph.spec_n(),
                    ex_sub.state.graph@ == subgraph@,
                    ex_sub.state.solution@.len() == 0,
                    ex_sub.state.cleanup_funcs@.len() == 0,
                    ex_sub.state.upper_bound == self.state.upper_bound - k,
                    ex_sub.ideas@.len() == self.ideas@.len(),
                    subgraph@.dom().contains(v),
                    vs@.to_set() == subgraph@.dom(),
                    v == vs@[a as int],
                    a < vs@.len(),
                    n == subgraph.spec_n(),
                    substate_fits(&self.state, subgraph.spec_n()),
                    forall|j: usize| j < ex_sub.state.constraints_vec@.len() ==> #[trigger] copied(&ex_sub.state, &self.state, subgraph@.dom(), j),
                    forall|aa: int, i: usize| 0 <= aa < a && (vs@[aa] as int) < self.state.fingertable@.len() && #[trigger] self.state.fingertable@[vs@[aa] as int]@.contains(i)
                        ==> covered(&ex_sub.state, &self.state, vs@[aa], i),
                    forall|bb: int| 0 <= bb < b ==> covered(&ex_sub.state, &self.state, v, #[trigger] indices@[bb]),
                    forall|w: Vx| w < n && !subgraph@.dom().contains(w)
                        ==> (#[trigger] ex_sub.state.fingertable@[w as int])@ == Set::<usize>::empty(),
                    ex_sub.state.dirty@.len() == self.state.dirty@.len(),
                    forall|j: int| 0 <= j < ex_sub.state.dirty@.len() ==> (#[trigger] ex_sub.state.dirty@[j])@ == self.state.dirty@[j]@,
                    vs@.no_duplicates(),
                    indices@.no_duplicates(),
                    copy_table(&ex_sub.state, &self.state, orig, owner),
                    forall|j: int| 0 <= j < owner.len() ==> vs@.subrange(0, a as int).contains(#[trigger] owner[j])
                        || (owner[j] == v && indices@.subrange(0, b as int).contains(orig[j])),
                decreases indices@.len() - b,
            {
                let i = indices[b];
                proof {
                    assert(indices@.to_set().contains(i));
                    assert(self.state.fingertable@[v as int]@.contains(i));
                }
                let index_new = ex_sub.state.constraints_vec.len();
                let c = self.state.constraints_vec[i].duplicate();
                let ghost pst = ex_sub.state;
                ex_sub.state.constraints_vec.push(c);
                ex_sub.state.diff_vec.push(self.state.diff_vec[i]);
                let ghost prev = ex_sub.state.fingertable@;
                ex_sub.state.fingertable[v].insert(index_new);
                proof {
                    assert(self.state.constraints_vec@[i as int]@.contains(v));
                    assert(ex_sub.state.constraints_vec@[index_new as int]@.contains(v));
                    assert forall|w: usize, j: usize|
                        w < ex_sub.state.fingertable@.len() && #[trigger] ex_sub.state.fingertable@[w as int]@.contains(j) implies j
                            < ex_sub.state.constraints_vec@.len() && ex_sub.state.constraints_vec@[j as int]@.contains(w) by {
                        if w != v {
                            assert(ex_sub.state.fingertable@[w as int] == prev[w as int]);
                            assert(pst.fingertable@[w as int]@.contains(j));
                            assert(ex_sub.state.constraints_vec@[j as int] == pst.constraints_vec@[j as int]);
                        } else if j != index_new {
                            assert(pst.fingertable@[w as int]@.contains(j));
                            assert(ex_sub.state.constraints_vec@[j as int] == pst.constraints_vec@[j as int]);
                        }
                    }
                    assert(grows(&pst, &ex_sub.state)) by {
                        assert forall|w: int, j: usize| 0 <= w < pst.fingertable@.len() && #[trigger] pst.fingertable@[w]@.contains(j)
                            implies ex_sub.state.fingertable@[w]@.contains(j) by {
                            if w != v {
                                assert(ex_sub.state.fingertable@[w] == prev[w]);
                            }
                        }
                    }
                    lemma_grows_keeps(&pst, &ex_sub.state, &self.state, subgraph@.dom());
                    assert(copy_of(&ex_sub.state, &self.state, index_new, i));
                    assert(ex_sub.state.fingertable@[v as int]@.contains(index_new));
                    assert forall|j: usize| j < ex_sub.state.constraints_vec@.len() implies #[trigger] copied(&ex_sub.state, &self.state, subgraph@.dom(), j) by {
                        if j < index_new {
                            assert(copied(&pst, &self.state, subgraph@.dom(), j));
                        } else {
                            assert(copy_of(&ex_sub.state, &self.state, j, i) && ex_sub.state.fingertable@[v as int]@.contains(j));
                        }
                    }
                    ex_sub.state.graph.lemma_simple();
                    assert(pst.fingertable@.len() == n);
                    assert forall|aa: int, ii: usize| 0 <= aa < a && (vs@[aa] as int) < self.state.fingertable@.len() && #[trigger] self.state.fingertable@[vs@[aa] as int]@.contains(ii)
                        implies covered(&ex_sub.state, &self.state, vs@[aa], ii) by {
                        assert(covered(&pst, &self.state, vs@[aa], ii));
                        assert(vs@.to_set().contains(vs@[aa]));
                        assert(subgraph@.dom().contains(vs@[aa]));
                    }
                    assert forall|bb: int| 0 <= bb < b + 1 implies covered(&ex_sub.state, &self.state, v, #[trigger] indices@[bb]) by {
                        if bb < b {
                            assert(covered(&pst, &self.state, v, indices@[bb]));
                        } else {
                            assert(copy_of(&ex_sub.state, &self.state, index_new, indices@[bb]));
                        }
                    }
                    assert forall|w: Vx| w < n && !subgraph@.dom().contains(w)
                        implies (#[trigger] ex_sub.state.fingertable@[w as int])@ == Set::<usize>::empty() by {
                        assert(w != v);
                        assert((w as int) < prev.len());
                        assert(ex_sub.state.fingertable@[w as int] == prev[w as int]);
                        assert(pst.fingertable@[w as int] == prev[w as int]);
                    }
                    assert forall|j: int, x: Vx|
                        0 <= j < ex_sub.state.dirty@.len() && #[trigger] ex_sub.state.dirty@[j]@.contains(x) implies x < ex_sub.state.graph.spec_n() by {
                        assert(pst.dirty@[j]@.contains(x));
                    }
                    let orig0 = orig;
                    let owner0 = owner;
                    orig = orig.push(i);
                    owner = owner.push(v);
                    assert forall|j: int| #![trigger orig[j]] 0 <= j < orig.len() implies {
                        &&& copy_of(&ex_sub.state, &self.state, j as usize, orig[j])
                        &&& (owner[j] as int) < self.state.fingertable@.len()
                        &&& self.state.fingertable@[owner[j] as int]@.contains(orig[j])
                        &&& ex_sub.state.fingertable@[owner[j] as int]@.contains(j as usize)
                    } by {
                        if j < orig0.len() {
                            assert(orig[j] == orig0[j] && owner[j] == owner0[j]);
                            assert(copy_of(&pst, &self.state, j as usize, orig0[j]));
                            assert(ex_sub.state.constraints_vec@[j] == pst.constraints_vec@[j]);
                            assert(pst.fingertable@[owner0[j] as int]@.contains(j as usize));
                            if owner0[j] != v {
                                assert(ex_sub.state.fingertable@[owner0[j] as int] == prev[owner0[j] as int]);
                            }
                        } else {
                            assert(j as usize == index_new);
                        }
                    }
                    assert forall|w: int, j: usize| 0 <= w < ex_sub.state.fingertable@.len() && #[trigger] ex_sub.state.fingertable@[w]@.contains(j)
                        implies (j as int) < orig.len() && owner[j as int] == w by {
                        if w != v {
                            assert(ex_sub.state.fingertable@[w] == prev[w]);
                            assert(pst.fingertable@[w]@.contains(j));
                            assert(owner[j as int] == owner0[j as int]);
                        } else if j != index_new {
                            assert(pst.fingertable@[w]@.contains(j));
                            assert(owner[j as int] == owner0[j as int]);
                        }
                    }
                    assert forall|j1: int, j2: int| 0 <= j1 < j2 < orig.len() implies owner[j1] != owner[j2] || #[trigger] orig[j1] != #[trigger] orig[j2] by {
                        if j2 < orig0.len() {
                            assert(orig[j1] == orig0[j1] && orig[j2] == orig0[j2] && owner[j1] == owner0[j1] && owner[j2] == owner0[j2]);
                        } else {
                            assert(owner[j1] == owner0[j1] && orig[j1] == orig0[j1]);
                            if vs@.subrange(0, a as int).contains(owner0[j1]) {
                                let t = choose|t: int| 0 <= t < a && vs@.subrange(0, a as int)[t] == owner0[j1];
                                assert(vs@[t] != vs@[a as int]);
                            } else {
                                let t = choose|t: int| 0 <= t < b && indices@.subrange(0, b as int)[t] == orig0[j1];
                                assert(indices@[t] != indices@[b as int]);
                            }
                        }
                    }
                    assert forall|j: int| 0 <= j < owner.len() implies vs@.subrange(0, a as int).contains(#[trigger] owner[j])
                        || (owner[j] == v && indices@.subrange(0, b + 1).contains(orig[j])) by {
                        if j < owner0.len() {
                            assert(owner[j] == owner0[j] && orig[j] == orig0[j]);
                            if !vs@.subrange(0, a as int).contains(owner0[j]) {
                                let t = choose|t: int| 0 <= t < b && indices@.subrange(0, b as int)[t] == orig0[j];
                                assert(indices@.subrange(0, b + 1)[t] == orig0[j]);
                            }
                        } else {
                            assert(indices@.subrange(0, b + 1)[b as int] == i);
                        }
                    }
                }
                b = b + 1;
            }
            proof {
                assert forall|aa: int, i: usize| 0 <= aa < a + 1 && (vs@[aa] as int) < self.state.fingertable@.len() && #[trigger] self.state.fingertable@[vs@[aa] as int]@.contains(i)
                    implies covered(&ex_sub.state, &self.state, vs@[aa], i) by {
                    if aa == a {
                        assert(indices@.to_set().contains(i));
                        let bb = choose|bb: int| 0 <= bb < indices@.len() && indices@[bb] == i;
                        assert(covered(&ex_sub.state, &self.state, v, indices@[bb]));
                    }
                }
                assert forall|j: int| 0 <= j < owner.len() implies vs@.subrange(0, a + 1).contains(#[trigger] owner[j]) by {
                    if vs@.subrange(0, a as int).contains(owner[j]) {
                        let t = choose|t: int| 0 <= t < a && vs@.subrange(0, a as int)[t] == owner[j];
                        assert(vs@.subrange(0, a + 1)[t] == owner[j]);
                    } else {
                        assert(vs@.subrange(0, a + 1)[a as int] == v);
                    }
                }
            }
            a = a + 1;
        }
        proof {
            assert forall|j: int| 0 <= j < owner.len() implies subgraph@.dom().contains(#[trigger] owner[j]) by {
                assert(vs@.subrange(0, a as int) == vs@);
                assert(vs@.contains(owner[j]));
                assert(vs@.to_set().contains(owner[j]));
            }
            assert forall|v: Vx, i: usize| subgraph@.dom().contains(v) && (v as int) < self.state.fingertable@.len() && #[trigger] self.state.fingertable@[v as int]@.contains(i)
                implies covered(&ex_sub.state, &self.state, v, i) by {
                assert(vs@.to_set().contains(v));
                let aa = choose|aa: int| 0 <= aa < vs@.len() && vs@[aa] == v;
                assert(self.state.fingertable@[vs@[aa] as int]@.contains(i));
            }
        }
        let ovs = self.state.graph.vertices();
        let mut c: usize = 0;
        while c < ovs.len()
            invariant
                c <= ovs@.len(),
                ex_sub.wf(),
                self.wf(),
                ex_sub.state.graph.spec_n() == subgraph.spec_n(),
                ex_sub.state.graph@ == subgraph@,
                ex_sub.state.solution@.len() == 0,
                ex_sub.state.cleanup_funcs@.len() == 0,
                ex_sub.state.upper_bound == self.state.upper_bound - k,
                ex_sub.ideas@.len() == self.ideas@.len(),
                ovs@.to_set() == self.state.graph@.dom(),
                n == subgraph.spec_n(),
                substate_fits(&self.state, subgraph.spec_n()),
                forall|j: usize| j < ex_sub.state.constraints_vec@.len() ==> #[trigger] copied(&ex_sub.state, &self.state, subgraph@.dom(), j),
                forall|v: Vx, i: usize| subgraph@.dom().contains(v) && (v as int) < self.state.fingertable@.len() && #[trigger] self.state.fingertable@[v as int]@.contains(i)
                    ==> covered(&ex_sub.state, &self.state, v, i),
                forall|w: Vx| w < n && !subgraph@.dom().contains(w)
                    ==> (#[trigger] ex_sub.state.fingertable@[w as int])@ == Set::<usize>::empty(),
                ex_sub.state.dirty@.len() == self.state.dirty@.len(),
                forall|j: int| 0 <= j < ex_sub.state.dirty@.len() ==> (#[trigger] ex_sub.state.dirty@[j])@
                    == self.state.dirty@[j]@.union(ovs@.subrange(0, c as int).to_set().difference(subgraph@.dom())),
                copy_table(&ex_sub.state, &self.state, orig, owner),
                forall|j: int| 0 <= j < owner.len() ==> subgraph@.dom().contains(#[trigger] owner[j]),
            decreases ovs@.len() - c,
        {
            let v = ovs[c];
            proof {
                assert(ovs@.to_set().contains(v));
                self.state.graph.lemma_simple();
            }
            let ghost before = ex_sub.state;
            proof {
                ex_sub.state.graph.lemma_simple();
                assert(ovs@.subrange(0, c + 1) == ovs@.subrange(0, c as int).push(v));
                lemma_to_set_push(ovs@.subrange(0, c as int), v);
                if subgraph@.dom().contains(v) {
                    assert(subgraph@[v].len() > 0);
                }
            }
            if ex_sub.state.graph.get_degree(v) == 0 {
                let ghost prev = ex_sub.state;
                ex_sub.state.make_dirty(v);
                proof {
                    assert forall|j: int, x: Vx|
                        0 <= j < ex_sub.state.dirty@.len() && #[trigger] ex_sub.state.dirty@[j]@.contains(x) implies x < ex_sub.state.graph.spec_n() by {
                        assert(prev.dirty@[j]@.union(set![v]).contains(x));
                    }
                    assert(!subgraph@.dom().contains(v));
                    assert forall|j: int| 0 <= j < ex_sub.state.dirty@.len() implies (#[trigger] ex_sub.state.dirty@[j])@
                        == self.state.dirty@[j]@.union(ovs@.subrange(0, c + 1).to_set().difference(subgraph@.dom())) by {
                        assert(ex_sub.state.dirty@[j]@ == prev.dirty@[j]@.union(set![v]));
                        assert(ex_sub.state.dirty@[j]@ =~= self.state.dirty@[j]@.union(ovs@.subrange(0, c + 1).to_set().difference(subgraph@.dom())));
                    }
                }
            } else {
                proof {
                    assert(subgraph@.dom().contains(v));
                    assert forall|j: int| 0 <= j < ex_sub.state.dirty@.len() implies (#[trigger] ex_sub.state.dirty@[j])@
                        == self.state.dirty@[j]@.union(ovs@.subrange(0, c + 1).to_set().difference(subgraph@.dom())) by {
                        assert(ex_sub.state.dirty@[j]@ =~= self.state.dirty@[j]@.union(ovs@.subrange(0, c + 1).to_set().difference(subgraph@.dom())));
                    }
                }
            }
            proof {
                assert(grows(&before, &ex_sub.state));
                lemma_grows_keeps(&before, &ex_sub.state, &self.state, subgraph@.dom());
                assert forall|j: usize| j < ex_sub.state.constraints_vec@.len() implies #[trigger] copied(&ex_sub.state, &self.state, subgraph@.dom(), j) by {
                    assert(copied(&before, &self.state, subgraph@.dom(), j));
                }
                assert forall|w: Vx, i: usize| subgraph@.dom().contains(w) && (w as int) < self.state.fingertable@.len() && #[trigger] self.state.fingertable@[w as int]@.contains(i)
                    implies covered(&ex_sub.state, &self.state, w, i) by {
                    assert(covered(&before, &self.state, w, i));
                }
                assert(ex_sub.state.constraints_vec == before.constraints_vec);
                assert(ex_sub.state.diff_vec == before.diff_vec);
                assert(ex_sub.state.fingertable == before.fingertable);
                assert(copy_table(&ex_sub.state, &self.state, orig, owner)) by {
                    assert forall|j: int| #![trigger orig[j]] 0 <= j < orig.len() implies copy_of(&ex_sub.state, &self.state, j as usize, orig[j]) by {
                        assert(copy_of(&before, &self.state, j as usize, orig[j]));
                    }
                }
            }
            c = c + 1;
        }
        proof {
            assert(ovs@.subrange(0, c as int) == ovs@);
        }
        ex_sub
    }
}

/// `b` holds what `a` holds.
pub open spec fn state_eq(a: &State, b: &State) -> bool {
    &&& b.graph@ == a.graph@
    &&& b.graph.spec_n() == a.graph.spec_n()
    &&& b.solution@ == a.solution@
    &&& b.upper_bound == a.upper_bound
    &&& b.diff_vec@ == a.diff_vec@
    &&& sets_eq(a.dirty@, b.dirty@)
    &&& sets_eq(a.constraints_vec@, b.constraints_vec@)
    &&& sets_eq(a.fingertable@, b.fingertable@)
    &&& b.cleanup_funcs@.len() == a.cleanup_funcs@.len()
    &&& forall|i: int| 0 <= i < a.cleanup_funcs@.len() ==> cleanup_eq(#[trigger] a.cleanup_funcs@[i], b.cleanup_funcs@[i])
}

/// Two sequences of sets with the same elements, place by place.
pub open spec fn sets_eq(a: Seq<IdSet>, b: Seq<IdSet>) -> bool {
    &&& a.len() == b.len()
    &&& forall|i: int| 0 <= i < a.len() ==> (#[trigger] a[i])@ == b[i]@
}

/// A copy of each set.
pub fn clone_sets(v: &Vec<IdSet>) -> (r: Vec<IdSet>)
    ensures
        sets_eq(v@, r@),
{
    let mut r: Vec<IdSet> = Vec::new();
    let mut i: usize = 0;
    while i < v.len()
        invariant
            i <= v@.len(),
            r@.len() == i,
            forall|j: int| 0 <= j < i ==> (#[trigger] v@[j])@ == r@[j]@,
        decreases v@.len() - i,
    {
        r.push(v[i].duplicate());
        i = i + 1;
    }
    r
}

/// A copy of a list of ids.
pub fn clone_ids(v: &Vec<usize>) -> (r: Vec<usize>)
    ensures
        r@ == v@,
{
    let mut r: Vec<usize> = Vec::new();
    let mut i: usize = 0;
    while i < v.len()
        invariant
            i <= v@.len(),
            r@ == v@.subrange(0, i as int),
        decreases v@.len() - i,
    {
        r.push(v[i]);
        i = i + 1;
    }
    proof {
        assert(v@.subrange(0, i as int) == v@);
    }
    r
}

impl Clone for State {
    /// A copy of the state.
    fn clone(&self) -> (r: Self)
        ensures
            self.wf() ==> r.wf() && state_eq(self, &r),
    {
        let mut cf: Vec<Cleanup> = Vec::new();
        let mut i: usize = 0;
        while i < self.cleanup_funcs.len()
            invariant
                i <= self.cleanup_funcs@.len(),
                cf@.len() == i,
                forall|j: int| 0 <= j < i ==> cleanup_eq(#[trigger] self.cleanup_funcs@[j], cf@[j]),
            decreases self.cleanup_funcs@.len() - i,
        {
            cf.push(self.cleanup_funcs[i].duplicate());
            i = i + 1;
        }
        let r = State {
            cleanup_funcs: cf,
            dirty: clone_sets(&self.dirty),
            diff_vec: clone_ids(&self.diff_vec),
            constraints_vec: clone_sets(&self.constraints_vec),
            fingertable: clone_sets(&self.fingertable),
            solution: clone_ids(&self.solution),
            upper_bound: self.upper_bound,
            graph: self.graph.clone(),
        };
        proof {
            if self.wf() {
                assert forall|j: int, v: Vx|
                    0 <= j < r.dirty@.len() && #[trigger] r.dirty@[j]@.contains(v) implies v < r.graph.spec_n() by {
                    assert(self.dirty@[j]@.contains(v));
                }
                assert forall|v: usize, i: usize|
                    v < r.fingertable@.len() && #[trigger] r.fingertable@[v as int]@.contains(i) implies i
                        < r.constraints_vec@.len() && r.constraints_vec@[i as int]@.contains(v) by {
                    assert(self.fingertable@[v as int]@.contains(i));
                }
                assert forall|i: usize, v: Vx| i < r.constraints_vec@.len() && #[trigger] r.constraints_vec@[i as int]@.contains(v)
                    implies v < r.graph.spec_n() by {
                    assert(self.constraints_vec@[i as int]@.contains(v));
                }
            }
        }
        r
    }
}

/// The constraints that `x` belongs to, by the finger table.
pub open spec fn fingers(s: &State, x: Vx) -> Set<usize> {
    if x < s.fingertable@.len() { s.fingertable@[x as int]@ } else { Set::empty() }
}

/// `b` differs from `a` at most in its dirty sets.
pub open spec fn same_but_dirty(a: &State, b: &State) -> bool {
    &&& b.cleanup_funcs == a.cleanup_funcs
    &&& b.diff_vec == a.diff_vec
    &&& b.constraints_vec == a.constraints_vec
    &&& b.fingertable == a.fingertable
    &&& b.solution == a.solution
    &&& b.upper_bound == a.upper_bound
    &&& b.graph == a.graph
    &&& b.dirty@.len() == a.dirty@.len()
}

/// Every dirty set of `b` is that of `a` together with `extra`.
pub open spec fn dirty_added(a: &State, b: &State, extra: Set<Vx>) -> bool {
    &&& b.dirty@.len() == a.dirty@.len()
    &&& forall|j: int| 0 <= j < a.dirty@.len() ==> (#[trigger] b.dirty@[j])@ == a.dirty@[j]@.union(extra)
}

/// `b` agrees with `a` on everything but the graph, the dirty sets and
/// the solution.
pub open spec fn same_constraints(a: &State, b: &State) -> bool {
    &&& b.cleanup_funcs == a.cleanup_funcs
    &&& b.diff_vec == a.diff_vec
    &&& b.constraints_vec == a.constraints_vec
    &&& b.fingertable == a.fingertable
    &&& b.upper_bound == a.upper_bound
}

/// `b` came from `a` by reduction steps: the graph kept its ids and lost
/// vertices at most, the solution grew at its end, the budgets and the
/// number of rules stayed.
pub open spec fn reduced(a: &State, b: &State) -> bool {
    &&& b.wf()
    &&& b.graph.spec_n() == a.graph.spec_n()
    &&& b.graph@.dom().subset_of(a.graph@.dom())
    &&& a.solution@.len() <= b.solution@.len()
    &&& b.solution@.subrange(0, a.solution@.len() as int) == a.solution@
    &&& b.upper_bound == a.upper_bound
    &&& b.dirty@.len() == a.dirty@.len()
    &&& a.constraints_vec@.len() <= b.constraints_vec@.len()
}

/// `b` has fewer vertices in its graph or more in its solution than `a`.
pub open spec fn progressed(a: &State, b: &State) -> bool {
    b.graph@.dom() != a.graph@.dom() || a.solution@.len() < b.solution@.len()
}

/// The measure that every reduction step lowers: vertices left plus room
/// left under the upper bound.
pub open spec fn measure(s: &State) -> nat {
    (s.graph@.dom().len() + (s.upper_bound - s.solution@.len())) as nat
}

/// `b` has the vertices, the solution size, the number of constraints
/// and the dirty sets of `a`.
pub open spec fn unchanged(a: &State, b: &State) -> bool {
    &&& b.graph@.dom() == a.graph@.dom()
    &&& b.solution@.len() == a.solution@.len()
    &&& b.constraints_vec@.len() == a.constraints_vec@.len()
    &&& b.dirty@.len() == a.dirty@.len()
    &&& forall|j: int| 0 <= j < a.dirty@.len() ==> (#[trigger] b.dirty@[j])@ == a.dirty@[j]@
}

/// No vertex cover of the graph of `s` fits, with the solution, under the
/// upper bound: the state cannot lead to a solution within it.
pub open spec fn beyond_bound(s: &State) -> bool {
    forall|c: Set<Vx>| #[trigger] is_vertex_cover(s.graph@, c)
        ==> s.solution@.len() + s.graph@.dom().intersect(c).len() > s.upper_bound
}

/// `k` more vertices fit into the solution of `s` under its upper bound.
pub open spec fn lb_fits(s: &State, k: nat) -> bool {
    s.solution@.len() + k <= s.upper_bound
}

/// The vertices that joined the solution on the way from `a` to `b`.
pub open spec fn added(a: &State, b: &State) -> Set<Vx> {
    b.solution@.subrange(a.solution@.len() as int, b.solution@.len() as int).to_set()
}

/// Every vertex cover of the graph of `b`, together with the vertices
/// that joined the solution on the way from `a`, covers the graph of `a`;
/// and those vertices are out of the graph of `b`.
pub open spec fn cover_safe(a: &State, b: &State) -> bool {
    &&& forall|c: Set<Vx>| #[trigger] is_vertex_cover(b.graph@, c) ==> is_vertex_cover(a.graph@, c.union(added(a, b)))
    &&& forall|v: Vx| #[trigger] added(a, b).contains(v) ==> !b.graph@.dom().contains(v)
}

/// A step that changes nothing is safe.
pub proof fn lemma_cover_safe_refl(a: &State)
    ensures
        cover_safe(a, a),
{
    assert forall|c: Set<Vx>| #[trigger] is_vertex_cover(a.graph@, c) implies is_vertex_cover(a.graph@, c.union(added(a, a))) by {
        assert forall|u: Vx, v: Vx| #[trigger] has_edge(a.graph@, u, v) implies c.union(added(a, a)).contains(u) || c.union(added(a, a)).contains(v) by {
            assert(c.contains(u) || c.contains(v));
        }
    }
}

/// Safe steps compose.
pub proof fn lemma_cover_safe_trans(a: &State, b: &State, c: &State)
    requires
        reduced(a, b),
        reduced(b, c),
        cover_safe(a, b),
        cover_safe(b, c),
    ensures
        cover_safe(a, c),
{
    let la = a.solution@.len() as int;
    let lb = b.solution@.len() as int;
    let lc = c.solution@.len() as int;
    let s = c.solution@;
    assert(s.subrange(la, lc) == s.subrange(la, lb) + s.subrange(lb, lc));
    assert(s.subrange(la, lb) == b.solution@.subrange(la, lb)) by {
        assert(s.subrange(0, lb) == b.solution@);
        assert forall|i: int| 0 <= i < lb - la implies s.subrange(la, lb)[i] == b.solution@.subrange(la, lb)[i] by {
            assert(s.subrange(0, lb)[la + i] == s[la + i]);
        }
    }
    vstd::seq_lib::seq_to_set_distributes_over_add(s.subrange(la, lb), s.subrange(lb, lc));
    assert(added(a, c) == added(a, b).union(added(b, c)));
    assert forall|x: Set<Vx>| #[trigger] is_vertex_cover(c.graph@, x) implies is_vertex_cover(a.graph@, x.union(added(a, c))) by {
        assert(is_vertex_cover(b.graph@, x.union(added(b, c))));
        assert(is_vertex_cover(a.graph@, x.union(added(b, c)).union(added(a, b))));
        assert(x.union(added(b, c)).union(added(a, b)) =~= x.union(added(a, c)));
    }
}

/// A step that keeps the graph and the solution is safe.
pub proof fn lemma_cover_safe_same(a: &State, b: &State)
    requires
        b.graph@ == a.graph@,
        b.solution@ == a.solution@,
    ensures
        cover_safe(a, b),
{
    lemma_cover_safe_refl(a);
}

/// Safety depends on the graphs and solutions alone.
pub proof fn lemma_cover_safe_congr(a: &State, b: &State, c: &State)
    requires
        cover_safe(a, b),
        c.graph@ == b.graph@,
        c.solution@ == b.solution@,
    ensures
        cover_safe(a, c),
{
    assert(added(a, c) == added(a, b));
    assert forall|x: Set<Vx>| #[trigger] is_vertex_cover(c.graph@, x) implies is_vertex_cover(a.graph@, x.union(added(a, c))) by {
        assert(is_vertex_cover(b.graph@, x));
    }
}

/// Taking `x` out of the graph and into the solution is safe.
pub proof fn lemma_cover_safe_add(a: &State, b: &State, x: Vx)
    requires
        a.graph.wf(),
        b.graph@ == without_vertex(a.graph@, x),
        b.solution@ == a.solution@.push(x),
    ensures
        cover_safe(a, b),
{
    a.graph.lemma_simple();
    let la = a.solution@.len() as int;
    assert(b.solution@.subrange(la, la + 1) =~= seq![x]);
    assert(added(a, b).contains(x)) by {
        assert(b.solution@.subrange(la, la + 1)[0] == x);
    }
    assert forall|c: Set<Vx>| #[trigger] is_vertex_cover(b.graph@, c) implies is_vertex_cover(a.graph@, c.union(added(a, b))) by {
        assert forall|u: Vx, v: Vx| #[trigger] has_edge(a.graph@, u, v) implies c.union(added(a, b)).contains(u) || c.union(added(a, b)).contains(v) by {
            if u != x && v != x {
                assert(a.graph@[u].remove(x).contains(v));
                lemma_contains_len(a.graph@[u].remove(x), v);
                assert(has_edge(b.graph@, u, v));
            }
        }
    }
}

/// The vertices that joined the solution on the way from `a` to `b` were
/// vertices of the graph of `a`.
pub open spec fn from_graph(a: &State, b: &State) -> bool {
    forall|v: Vx| #[trigger] added(a, b).contains(v) ==> a.graph@.dom().contains(v)
}

/// A step that adds nothing to the solution takes nothing from outside
/// the graph.
pub proof fn lemma_from_graph_same(a: &State, b: &State)
    requires
        b.solution@ == a.solution@,
    ensures
        from_graph(a, b),
{
    assert(added(a, b) =~= Set::<Vx>::empty()) by {
        assert(b.solution@.subrange(a.solution@.len() as int, b.solution@.len() as int) =~= Seq::<Vx>::empty());
    }
}

/// Putting `x` of the graph into the solution takes it from the graph.
pub proof fn lemma_from_graph_push(a: &State, b: &State, x: Vx)
    requires
        b.solution@ == a.solution@.push(x),
        a.graph@.dom().contains(x),
    ensures
        from_graph(a, b),
{
    let la = a.solution@.len() as int;
    assert(b.solution@.subrange(la, la + 1) =~= seq![x]);
    assert forall|v: Vx| #[trigger] added(a, b).contains(v) implies a.graph@.dom().contains(v) by {
        let sq = b.solution@.subrange(la, la + 1);
        let k = choose|k: int| 0 <= k < 1 && #[trigger] sq[k] == v;
        assert(sq[0] == x);
    }
}

/// Putting the vertices `xs` of the graph into the solution takes them
/// from the graph.
pub proof fn lemma_from_graph_extend(a: &State, b: &State, xs: Seq<Vx>)
    requires
        b.solution@ == a.solution@ + xs,
        forall|v: Vx| #[trigger] xs.contains(v) ==> a.graph@.dom().contains(v),
    ensures
        from_graph(a, b),
{
    let la = a.solution@.len() as int;
    assert(b.solution@.subrange(la, b.solution@.len() as int) =~= xs);
}

/// After steps that took from the graph of `a`, putting vertices `xs` of
/// that graph into the solution still takes from it.
pub proof fn lemma_from_graph_extend_from(a: &State, b: &State, c: &State, xs: Seq<Vx>)
    requires
        a.solution@.len() <= b.solution@.len(),
        b.solution@.subrange(0, a.solution@.len() as int) == a.solution@,
        from_graph(a, b),
        c.solution@ == b.solution@ + xs,
        forall|v: Vx| #[trigger] xs.contains(v) ==> a.graph@.dom().contains(v),
    ensures
        from_graph(a, c),
{
    let la = a.solution@.len() as int;
    let lb = b.solution@.len() as int;
    let ab = b.solution@.subrange(la, lb);
    assert(c.solution@.subrange(la, c.solution@.len() as int) =~= ab + xs);
    assert forall|v: Vx| #[trigger] added(a, c).contains(v) implies a.graph@.dom().contains(v) by {
        let k = choose|k: int| 0 <= k < (ab + xs).len() && #[trigger] (ab + xs)[k] == v;
        if k < ab.len() {
            assert(ab[k] == v);
            assert(added(a, b).contains(v));
        } else {
            assert(xs[k - ab.len()] == v);
            assert(xs.contains(v));
        }
    }
}

/// Taking from the graph depends on the solutions alone.
pub proof fn lemma_from_graph_congr(a: &State, b: &State, c: &State)
    requires
        from_graph(a, b),
        c.solution@ == b.solution@,
    ensures
        from_graph(a, c),
{
    assert(added(a, c) == added(a, b));
}

/// Steps that take from the graph compose.
pub proof fn lemma_from_graph_trans(a: &State, b: &State, c: &State)
    requires
        reduced(a, b),
        reduced(b, c),
        from_graph(a, b),
        from_graph(b, c),
    ensures
        from_graph(a, c),
{
    let la = a.solution@.len() as int;
    let lb = b.solution@.len() as int;
    let lc = c.solution@.len() as int;
    let s = c.solution@;
    assert(s.subrange(la, lc) == s.subrange(la, lb) + s.subrange(lb, lc));
    assert(s.subrange(la, lb) == b.solution@.subrange(la, lb)) by {
        assert(s.subrange(0, lb) == b.solution@);
        assert forall|i: int| 0 <= i < lb - la implies s.subrange(la, lb)[i] == b.solution@.subrange(la, lb)[i] by {
            assert(s.subrange(0, lb)[la + i] == s[la + i]);
        }
    }
    vstd::seq_lib::seq_to_set_distributes_over_add(s.subrange(la, lb), s.subrange(lb, lc));
    assert(added(a, c) == added(a, b).union(added(b, c)));
}

/// Doing nothing is a reduction step.
pub proof fn lemma_reduced_refl(a: &State)
    requires
        a.wf(),
    ensures
        reduced(a, a),
        !progressed(a, a),
        unchanged(a, a),
{
    assert(a.solution@.subrange(0, a.solution@.len() as int) =~= a.solution@);
}

/// Reduction steps compose.
pub proof fn lemma_reduced_trans(a: &State, b: &State, c: &State)
    requires
        reduced(a, b),
        reduced(b, c),
    ensures
        reduced(a, c),
        progressed(a, b) || progressed(b, c) ==> progressed(a, c),
{
    assert(c.solution@.subrange(0, a.solution@.len() as int) =~= c.solution@.subrange(0, b.solution@.len() as int).subrange(0, a.solution@.len() as int));
    if progressed(a, b) || progressed(b, c) {
        if a.solution@.len() == c.solution@.len() {
            if a.graph@.dom() == c.graph@.dom() {
                assert(b.graph@.dom() =~= a.graph@.dom());
            }
        }
    }
}

/// A step that makes progress lowers the measure.
pub proof fn lemma_progress_measure(a: &State, b: &State)
    requires
        a.wf(),
        reduced(a, b),
        progressed(a, b),
        b.solution@.len() <= b.upper_bound,
    ensures
        measure(b) < measure(a),
{
    a.graph.lemma_simple();
    b.graph.lemma_simple();
    vstd::set_lib::lemma_len_subset(b.graph@.dom(), a.graph@.dom());
    if b.graph@.dom() != a.graph@.dom() {
        let x = choose|x: Vx| a.graph@.dom().contains(x) && !b.graph@.dom().contains(x);
        assert(a.graph@.dom().contains(x) && !b.graph@.dom().contains(x)) by {
            if !(exists|x: Vx| a.graph@.dom().contains(x) && !b.graph@.dom().contains(x)) {
                assert(b.graph@.dom() =~= a.graph@.dom());
            }
        }
        b.graph@.dom().lemma_subset_not_in_lt(a.graph@.dom(), x);
    }
}

/// How many entries of `xs` belong to constraint `i`, by the finger table
/// of `s`.
pub open spec fn hits(s: &State, xs: Seq<Vx>, i: usize) -> nat
    decreases xs.len(),
{
    if xs.len() == 0 {
        0
    } else {
        hits(s, xs.drop_last(), i) + if fingers(s, xs.last()).contains(i) { 1nat } else { 0nat }
    }
}

/// The solution of `s` can take the vertices `xs`, one after the other:
/// they fit under the upper bound, and no constraint gets more of them
/// than its budget.
pub open spec fn takes(s: &State, xs: Seq<Vx>) -> bool {
    &&& xs.len() == 0 || s.solution@.len() + xs.len() <= s.upper_bound
    &&& forall|i: usize| i < s.diff_vec@.len() ==> #[trigger] hits(s, xs, i) <= s.diff_vec@[i as int]
}

/// The members of `xs` that constraint `i` of `s` holds, by its finger
/// table.
pub open spec fn held(s: &State, xs: Set<Vx>, i: usize) -> Set<Vx> {
    xs.filter(|x: Vx| fingers(s, x).contains(i))
}

/// The solution of `s` can take the vertices of the set `xs`.
pub open spec fn takes_set(s: &State, xs: Set<Vx>) -> bool {
    &&& xs.len() == 0 || s.solution@.len() + xs.len() <= s.upper_bound
    &&& forall|i: usize| i < s.diff_vec@.len() ==> #[trigger] held(s, xs, i).len() <= s.diff_vec@[i as int]
}

/// Counting the entries of a sequence without repeats that constraint `i`
/// holds counts the members of its set that it holds.
pub proof fn lemma_hits_set(s: &State, xs: Seq<Vx>, i: usize)
    requires
        xs.no_duplicates(),
    ensures
        hits(s, xs, i) == held(s, xs.to_set(), i).len(),
        held(s, xs.to_set(), i).finite(),
    decreases xs.len(),
{
    let h = held(s, xs.to_set(), i);
    if xs.len() == 0 {
        assert(h =~= Set::<Vx>::empty());
    } else {
        let pre = xs.drop_last();
        let x = xs.last();
        assert(pre.no_duplicates()) by {
            assert forall|a: int, b: int| 0 <= a < pre.len() && 0 <= b < pre.len() && a != b implies pre[a] != pre[b] by {
                assert(xs[a] != xs[b]);
            }
        }
        lemma_hits_set(s, pre, i);
        assert(xs == pre.push(x));
        crate::graph::lemma_to_set_push(pre, x);
        let h0 = held(s, pre.to_set(), i);
        assert(!h0.contains(x)) by {
            if pre.contains(x) {
                let k = choose|k: int| 0 <= k < pre.len() && #[trigger] pre[k] == x;
                assert(xs[k] == xs[xs.len() - 1]);
            }
        }
        if fingers(s, x).contains(i) {
            assert(h =~= h0.insert(x));
        } else {
            assert(h =~= h0);
        }
    }
}

/// For a sequence without repeats, taking it is taking its set.
pub proof fn lemma_takes_set(s: &State, xs: Seq<Vx>)
    requires
        xs.no_duplicates(),
    ensures
        takes(s, xs) <==> takes_set(s, xs.to_set()),
{
    xs.unique_seq_to_set();
    assert forall|i: usize| i < s.diff_vec@.len() implies #[trigger] hits(s, xs, i) == held(s, xs.to_set(), i).len() by {
        lemma_hits_set(s, xs, i);
    }
    if takes_set(s, xs.to_set()) {
        assert forall|i: usize| i < s.diff_vec@.len() implies #[trigger] hits(s, xs, i) <= s.diff_vec@[i as int] by {
            lemma_hits_set(s, xs, i);
        }
    }
    if takes(s, xs) {
        assert forall|i: usize| i < s.diff_vec@.len() implies #[trigger] held(s, xs.to_set(), i).len() <= s.diff_vec@[i as int] by {
            lemma_hits_set(s, xs, i);
        }
    }
}

/// The solution of a consistent state takes the single vertex `x` where
/// it fits under the bound and every constraint that holds `x` has budget
/// left: just what adding `x` to the solution asks.
pub proof fn lemma_takes_one(s: &State, x: Vx)
    requires
        s.wf(),
    ensures
        takes_set(s, set![x]) <==> (s.solution@.len() + 1 <= s.upper_bound && forall|i: usize|
            #[trigger] fingers(s, x).contains(i) ==> s.diff_vec@[i as int] > 0),
{
    let xs = seq![x];
    assert(xs.to_set() =~= set![x]) by {
        assert forall|v: Vx| xs.to_set().contains(v) implies v == x by {
            let k = choose|k: int| 0 <= k < 1 && xs[k] == v;
        }
        assert(xs[0] == x);
    }
    lemma_takes_set(s, xs);
    assert(xs.drop_last() =~= Seq::<Vx>::empty());
    assert forall|i: usize| #[trigger] hits(s, xs, i) == (if fingers(s, x).contains(i) { 1nat } else { 0nat }) by {
        assert(hits(s, xs.drop_last(), i) == 0);
    }
    if takes(s, xs) {
        assert forall|i: usize| #[trigger] fingers(s, x).contains(i) implies s.diff_vec@[i as int] > 0 by {
            assert(s.fingertable@[x as int]@.contains(i));
            assert(hits(s, xs, i) == 1);
        }
    }
    if s.solution@.len() + 1 <= s.upper_bound && forall|i: usize| #[trigger] fingers(s, x).contains(i) ==> s.diff_vec@[i as int] > 0 {
        assert forall|i: usize| i < s.diff_vec@.len() implies #[trigger] hits(s, xs, i) <= s.diff_vec@[i as int] by {
            assert(hits(s, xs, i) == (if fingers(s, x).contains(i) { 1nat } else { 0nat }));
        }
    }
}

/// After a new constraint `c` with budget `d` joined the state `s` (giving
/// `t`), the solution of `t` takes the vertices `xs` of the graph where
/// that of `s` does and no more than `d` of them lie in `c`.
pub proof fn lemma_takes_set_new_constraint(s: &State, t: &State, c: Set<Vx>, d: usize, xs: Set<Vx>)
    requires
        s.wf(),
        xs.finite(),
        forall|x: Vx| #[trigger] xs.contains(x) ==> x < s.graph.spec_n(),
        t.solution@ == s.solution@,
        t.upper_bound == s.upper_bound,
        t.diff_vec@ == s.diff_vec@.push(d),
        t.fingertable@.len() == s.fingertable@.len(),
        s.constraints_vec@.len() <= usize::MAX,
        forall|v: usize| v < s.fingertable@.len() ==> (#[trigger] t.fingertable@[v as int])@ == (if c.contains(v) {
            s.fingertable@[v as int]@.insert(s.constraints_vec@.len() as usize) } else { s.fingertable@[v as int]@ }),
    ensures
        takes_set(t, xs) <==> (takes_set(s, xs) && xs.intersect(c).len() <= d),
{
    let l = s.constraints_vec@.len() as usize;
    assert forall|i: usize| i < s.diff_vec@.len() implies #[trigger] held(t, xs, i) == held(s, xs, i) by {
        assert(held(t, xs, i) =~= held(s, xs, i)) by {
            assert forall|x: Vx| xs.contains(x) implies (fingers(t, x).contains(i) <==> fingers(s, x).contains(i)) by {
                assert(i != l);
            }
        }
    }
    assert(held(t, xs, l) =~= xs.intersect(c)) by {
        assert forall|x: Vx| xs.contains(x) implies (fingers(t, x).contains(l) <==> c.contains(x)) by {
            if s.fingertable@[x as int]@.contains(l) {
                assert(l < s.constraints_vec@.len());
            }
        }
    }
    if takes_set(t, xs) {
        assert forall|i: usize| i < s.diff_vec@.len() implies #[trigger] held(s, xs, i).len() <= s.diff_vec@[i as int] by {
            assert(held(t, xs, i) == held(s, xs, i));
            assert(t.diff_vec@[i as int] == s.diff_vec@[i as int]);
        }
        assert(t.diff_vec@[l as int] == d);
    }
    if takes_set(s, xs) && xs.intersect(c).len() <= d {
        assert forall|i: usize| i < t.diff_vec@.len() implies #[trigger] held(t, xs, i).len() <= t.diff_vec@[i as int] by {
            if i < s.diff_vec@.len() {
                assert(held(t, xs, i) == held(s, xs, i));
            }
        }
    }
}

/// Where `t` has the solution, bound and budgets of `s`, with more
/// constraints after them, and the vertices `xs` are in the same
/// constraints of both, `t` takes `xs` just where `s` does.
pub proof fn lemma_takes_set_same(s: &State, t: &State, xs: Set<Vx>)
    requires
        s.wf(),
        t.solution@ == s.solution@,
        t.upper_bound == s.upper_bound,
        s.diff_vec@.len() <= t.diff_vec@.len(),
        forall|i: int| 0 <= i < s.diff_vec@.len() ==> #[trigger] t.diff_vec@[i] == s.diff_vec@[i],
        forall|x: Vx| #[trigger] xs.contains(x) ==> fingers(t, x) == fingers(s, x),
    ensures
        takes_set(t, xs) <==> takes_set(s, xs),
{
    assert forall|i: usize| i < t.diff_vec@.len() implies #[trigger] held(t, xs, i) == (if i < s.diff_vec@.len() { held(s, xs, i) } else { Set::<Vx>::empty() }) by {
        if i < s.diff_vec@.len() {
            assert(held(t, xs, i) =~= held(s, xs, i));
        } else {
            assert forall|x: Vx| xs.contains(x) implies !fingers(t, x).contains(i) by {
                if fingers(s, x).contains(i) {
                    assert(s.fingertable@[x as int]@.contains(i));
                }
            }
            assert(held(t, xs, i) =~= Set::<Vx>::empty());
        }
    }
    if takes_set(t, xs) {
        assert forall|i: usize| i < s.diff_vec@.len() implies #[trigger] held(s, xs, i).len() <= s.diff_vec@[i as int] by {
            assert(held(t, xs, i) == held(s, xs, i));
        }
    }
    if takes_set(s, xs) {
        assert forall|i: usize| i < t.diff_vec@.len() implies #[trigger] held(t, xs, i).len() <= t.diff_vec@[i as int] by {
            if i < s.diff_vec@.len() {
                assert(held(t, xs, i) == held(s, xs, i));
            } else {
                assert(held(t, xs, i) == Set::<Vx>::empty());
            }
        }
    }
}

/// Counting over a longer prefix counts at least as many.
pub proof fn lemma_hits_prefix(s: &State, xs: Seq<Vx>, a: int, b: int, i: usize)
    requires
        0 <= a <= b <= xs.len(),
    ensures
        hits(s, xs.subrange(0, a), i) <= hits(s, xs.subrange(0, b), i),
    decreases b - a,
{
    if a < b {
        lemma_hits_prefix(s, xs, a, b - 1, i);
        assert(xs.subrange(0, b).drop_last() == xs.subrange(0, b - 1));
    }
}

/// One more entry adds one to the count of each constraint that holds it.
pub proof fn lemma_hits_push(s: &State, xs: Seq<Vx>, k: int, i: usize)
    requires
        0 <= k < xs.len(),
    ensures
        hits(s, xs.subrange(0, k + 1), i) == hits(s, xs.subrange(0, k), i) + if fingers(s, xs[k]).contains(i) { 1nat } else { 0nat },
{
    assert(xs.subrange(0, k + 1).drop_last() == xs.subrange(0, k));
}

impl State {
    /// The state is consistent: the graph is, every constraint has a
    /// budget, and the finger table points only to constraints that hold
    /// the vertex.
    pub open spec fn wf(&self) -> bool {
        &&& self.graph.wf()
        &&& self.diff_vec@.len() == self.constraints_vec@.len()
        &&& self.fingertable@.len() == self.graph.spec_n()
        &&& forall|j: int, v: Vx|
            0 <= j < self.dirty@.len() && #[trigger] self.dirty@[j]@.contains(v) ==> v < self.graph.spec_n()
        &&& forall|v: usize, i: usize|
            v < self.fingertable@.len() && #[trigger] self.fingertable@[v as int]@.contains(i) ==> i
                < self.constraints_vec@.len() && self.constraints_vec@[i as int]@.contains(v)
        &&& forall|i: usize, v: Vx|
            i < self.constraints_vec@.len() && #[trigger] self.constraints_vec@[i as int]@.contains(v) ==> v < self.graph.spec_n()
    }

    /// Marks `x` dirty for every rule.
    pub fn make_dirty(&mut self, x: Vx)
        ensures
            same_but_dirty(old(self), final(self)),
            dirty_added(old(self), final(self), set![x]),
    {
        let ghost d0 = self.dirty@;
        let mut j: usize = 0;
        while j < self.dirty.len()
            invariant
                j <= self.dirty@.len(),
                same_but_dirty(old(self), self),
                forall|k: int| 0 <= k < j ==> (#[trigger] self.dirty@[k])@ == old(self).dirty@[k]@.union(set![x]),
                forall|k: int| j <= k < self.dirty@.len() ==> (#[trigger] self.dirty@[k]) == old(self).dirty@[k],
            decreases self.dirty@.len() - j,
        {
            let ghost prev = self.dirty@;
            self.dirty[j].insert(x);
            proof {
                assert(old(self).dirty@[j as int]@.union(set![x]) =~= old(self).dirty@[j as int]@.insert(x));
                assert forall|k: int| 0 <= k < self.dirty@.len() && k != j implies self.dirty@[k] == prev[k] by {}
            }
            j = j + 1;
        }
    }

    /// Marks every vertex of `xs` dirty for every rule.
    pub fn make_iter_dirty(&mut self, xs: Vec<Vx>)
        ensures
            same_but_dirty(old(self), final(self)),
            dirty_added(old(self), final(self), xs@.to_set()),
    {
        let mut i: usize = 0;
        proof {
            assert(xs@.subrange(0, 0).to_set() =~= Set::<Vx>::empty());
            assert forall|j: int| 0 <= j < old(self).dirty@.len() implies (#[trigger] self.dirty@[j])@ == old(self).dirty@[j]@.union(xs@.subrange(0, 0).to_set()) by {
                assert(old(self).dirty@[j]@.union(Set::<Vx>::empty()) =~= old(self).dirty@[j]@);
            }
        }
        while i < xs.len()
            invariant
                i <= xs@.len(),
                same_but_dirty(old(self), self),
                dirty_added(old(self), self, xs@.subrange(0, i as int).to_set()),
            decreases xs@.len() - i,
        {
            let ghost prev = *self;
            self.make_dirty(xs[i]);
            proof {
                assert(xs@.subrange(0, i + 1) == xs@.subrange(0, i as int).push(xs@[i as int]));
                assert(xs@.subrange(0, i + 1).to_set() =~= xs@.subrange(0, i as int).to_set().insert(xs@[i as int])) by {
                    assert forall|y: Vx| xs@.subrange(0, i + 1).to_set().contains(y) <==> xs@.subrange(0, i as int).to_set().insert(xs@[i as int]).contains(y) by {
                        lemma_push_contains(xs@.subrange(0, i as int), xs@[i as int], y);
                    }
                }
                assert forall|j: int| 0 <= j < old(self).dirty@.len() implies (#[trigger] self.dirty@[j])@ == old(self).dirty@[j]@.union(xs@.subrange(0, i + 1).to_set()) by {
                    assert(self.dirty@[j]@ == prev.dirty@[j]@.union(set![xs@[i as int]]));
                    assert(old(self).dirty@[j]@.union(xs@.subrange(0, i as int).to_set()).union(set![xs@[i as int]]) =~= old(self).dirty@[j]@.union(xs@.subrange(0, i + 1).to_set()));
                }
            }
            i = i + 1;
        }
        proof {
            assert(xs@.subrange(0, i as int) == xs@);
        }
    }

    /// Adds the edge `{a, b}` and marks `a`, `b` and their common
    /// neighbours dirty; where the edge is there already, nothing changes.
    pub fn add_edge(&mut self, a: Vx, b: Vx)
        requires
            old(self).wf(),
            a < old(self).graph.spec_n(),
            b < old(self).graph.spec_n(),
            a != b,
        ensures
            final(self).wf(),
            same_constraints(old(self), final(self)),
            final(self).solution == old(self).solution,
            final(self).graph.spec_n() == old(self).graph.spec_n(),
            final(self).graph@ == with_edge(old(self).graph@, a, b),
            !has_edge(old(self).graph@, a, b) ==> dirty_added(old(self), final(self), set![a, b].union(
                nbrs(final(self).graph@, a).intersect(nbrs(final(self).graph@, b)))),
            has_edge(old(self).graph@, a, b) ==> *final(self) == *old(self),
    {
        if self.graph.get_edge(a, b) {
            proof {
                let g = self.graph@;
                self.graph.lemma_simple();
                assert(with_edge(g, a, b) =~= g) by {
                    assert(nbrs(g, a).insert(b) =~= g[a]);
                    assert(nbrs(g, b).insert(a) =~= g[b]);
                }
            }
            return;
        }
        self.graph.add_edge(a, b);
        let mut changed: Vec<Vx> = Vec::new();
        changed.push(a);
        changed.push(b);
        let na = self.graph.neighbours(a);
        let ghost g = self.graph@;
        let mut i: usize = 0;
        proof {
            lemma_to_set_push(Seq::<Vx>::empty(), a);
            lemma_to_set_push(seq![a], b);
            assert(changed@ == seq![a].push(b));
            assert(seq![a] == Seq::<Vx>::empty().push(a));
            assert(Seq::<Vx>::empty().to_set() =~= Set::<Vx>::empty());
            assert(na@.subrange(0, 0).to_set() =~= Set::<Vx>::empty());
            assert(changed@.to_set() =~= set![a, b].union(
                na@.subrange(0, i as int).to_set().intersect(nbrs(g, b))));
        }
        while i < na.len()
            invariant
                self.graph.wf(),
                self.graph@ == g,
                i <= na@.len(),
                na@.to_set() == nbrs(g, a),
                changed@.to_set() == set![a, b].union(
                    na@.subrange(0, i as int).to_set().intersect(nbrs(g, b))),
            decreases na@.len() - i,
        {
            let y = na[i];
            let ghost before = changed@;
            if self.graph.get_edge(b, y) {
                changed.push(y);
            }
            proof {
                assert(na@.subrange(0, i + 1) == na@.subrange(0, i as int).push(y));
                lemma_to_set_push(na@.subrange(0, i as int), y);
                lemma_to_set_push(before, y);
                assert(nbrs(g, b).contains(y) == has_edge(g, b, y));
                assert(changed@.to_set() =~= set![a, b].union(
                    na@.subrange(0, i + 1).to_set().intersect(nbrs(g, b))));
            }
            i = i + 1;
        }
        proof {
            assert(na@.subrange(0, i as int) == na@);
        }
        let ghost ch = changed@;
        self.make_iter_dirty(changed);
        proof {
            self.graph.lemma_simple();
            assert forall|j: int, v: Vx|
                0 <= j < self.dirty@.len() && #[trigger] self.dirty@[j]@.contains(v) implies v < self.graph.spec_n() by {
                assert(old(self).dirty@[j]@.union(ch.to_set()).contains(v));
                if ch.to_set().contains(v) && v != a && v != b {
                    assert(nbrs(g, a).contains(v));
                    assert(g[a].contains(v));
                }
            }
        }
    }

    /// Takes `x` and its edges out of the graph and marks `x` and its
    /// former neighbours dirty.
    pub fn remove_vertex(&mut self, x: Vx)
        requires
            old(self).wf(),
            x < old(self).graph.spec_n(),
        ensures
            final(self).wf(),
            same_constraints(old(self), final(self)),
            final(self).solution == old(self).solution,
            final(self).graph.spec_n() == old(self).graph.spec_n(),
            final(self).graph@ == without_vertex(old(self).graph@, x),
            dirty_added(old(self), final(self), nbrs(old(self).graph@, x).insert(x)),
            reduced(old(self), final(self)),
            old(self).graph@.dom().contains(x) ==> progressed(old(self), final(self)),
    {
        let h = self.graph.rm_vertex(x);
        let ghost mid = *self;
        self.make_dirty(x);
        let ghost mid2 = *self;
        let hs = h.elements();
        self.make_iter_dirty(hs);
        proof {
            assert forall|j: int| 0 <= j < old(self).dirty@.len() implies (#[trigger] self.dirty@[j])@ == old(self).dirty@[j]@.union(nbrs(old(self).graph@, x).insert(x)) by {
                assert(mid2.dirty@[j]@ == mid.dirty@[j]@.union(set![x]));
                assert(self.dirty@[j]@ == mid2.dirty@[j]@.union(hs@.to_set()));
                assert(old(self).dirty@[j]@.union(set![x]).union(hs@.to_set()) =~= old(self).dirty@[j]@.union(nbrs(old(self).graph@, x).insert(x)));
            }
            old(self).graph.lemma_simple();
            assert forall|j: int, v: Vx|
                0 <= j < self.dirty@.len() && #[trigger] self.dirty@[j]@.contains(v) implies v < self.graph.spec_n() by {
                assert(old(self).dirty@[j]@.union(nbrs(old(self).graph@, x).insert(x)).contains(v));
                if nbrs(old(self).graph@, x).contains(v) {
                    assert(old(self).graph@[x].contains(v));
                }
            }
            assert(self.solution@.subrange(0, old(self).solution@.len() as int) =~= old(self).solution@);
            if old(self).graph@.dom().contains(x) {
                assert(!self.graph@.dom().contains(x));
            }
        }
    }

    /// Puts `x` into the solution: takes it out of the graph, marks it and
    /// its former neighbours dirty, and spends one unit of the budget of
    /// each constraint that holds it. `None` where the solution grows past
    /// the upper bound or a constraint has no budget left. `x` is an id of
    /// the graph (below `n`): every id in a solution is printed by its name,
    /// and only the ids below `n` have one.
    pub fn add_to_solution(&mut self, x: Vx) -> (r: Option<()>)
        requires
            old(self).wf(),
            x < old(self).graph.spec_n(),
        ensures
            final(self).wf(),
            final(self).cleanup_funcs == old(self).cleanup_funcs,
            final(self).constraints_vec == old(self).constraints_vec,
            final(self).fingertable == old(self).fingertable,
            final(self).upper_bound == old(self).upper_bound,
            final(self).diff_vec@.len() == old(self).diff_vec@.len(),
            final(self).solution@ == old(self).solution@.push(x),
            final(self).graph.spec_n() == old(self).graph.spec_n(),
            final(self).graph@ == without_vertex(old(self).graph@, x),
            dirty_added(old(self), final(self), nbrs(old(self).graph@, x).insert(x)),
            reduced(old(self), final(self)),
            progressed(old(self), final(self)),
            cover_safe(old(self), final(self)),
            r is Some <==> (old(self).solution@.len() + 1 <= old(self).upper_bound && forall|i: usize|
                #[trigger] fingers(old(self), x).contains(i) ==> old(self).diff_vec@[i as int] > 0),
            r is Some ==> forall|i: usize|
                i < old(self).diff_vec@.len() ==> #[trigger] final(self).diff_vec@[i as int] == old(self).diff_vec@[i as int] - (if fingers(old(self), x).contains(i) { 1int } else { 0int }),
    {
        self.remove_vertex(x);
        self.solution.push(x);
        proof {
            assert(self.solution@.subrange(0, old(self).solution@.len() as int) =~= old(self).solution@);
            lemma_cover_safe_add(old(self), self, x);
        }
        if self.solution.len() > self.upper_bound {
            return None;
        }
        if x < self.fingertable.len() {
            let idx = self.fingertable[x].elements();
            let ghost d0 = self.diff_vec@;
            let mut k: usize = 0;
            while k < idx.len()
                invariant
                    self.wf(),
                    old(self).wf(),
                    x < self.fingertable@.len(),
                    self.graph.spec_n() == old(self).graph.spec_n(),
                    self.graph@ == without_vertex(old(self).graph@, x),
                    dirty_added(old(self), self, nbrs(old(self).graph@, x).insert(x)),
                    self.cleanup_funcs == old(self).cleanup_funcs,
                    self.constraints_vec == old(self).constraints_vec,
                    self.fingertable == old(self).fingertable,
                    self.upper_bound == old(self).upper_bound,
                    self.diff_vec@.len() == d0.len(),
                    d0 == old(self).diff_vec@,
                    idx@.no_duplicates(),
                    idx@.to_set() == self.fingertable@[x as int]@,
                    k <= idx@.len(),
                    forall|m: int| 0 <= m < k ==> d0[idx@[m] as int] > 0,
                    forall|i: usize| i < d0.len() ==> #[trigger] self.diff_vec@[i as int] == d0[i as int] - (if idx@.subrange(0, k as int).contains(i) { 1int } else { 0int }),
                    self.solution@ == old(self).solution@.push(x),
                    self.solution@.len() <= self.upper_bound,
                    reduced(old(self), self),
                decreases idx@.len() - k,
            {
                let i = idx[k];
                proof {
                    assert(idx@.to_set().contains(i));
                    assert(self.fingertable@[x as int]@.contains(i));
                    assert(!idx@.subrange(0, k as int).contains(i)) by {
                        if idx@.subrange(0, k as int).contains(i) {
                            let m = choose|m: int| 0 <= m < k && idx@.subrange(0, k as int)[m] == i;
                            assert(idx@[m] == idx@[k as int]);
                        }
                    }
                }
                if self.diff_vec[i] == 0 {
                    proof {
                        assert(d0[i as int] == 0);
                        assert(fingers(old(self), x).contains(i));
                        lemma_cover_safe_add(old(self), self, x);
                    }
                    return None;
                }
                let d = self.diff_vec[i];
                let ghost pd = self.diff_vec@;
                self.diff_vec.set(i, d - 1);
                proof {
                    assert(pd[i as int] == d0[i as int]);
                    assert(idx@.subrange(0, k + 1) == idx@.subrange(0, k as int).push(i));
                    assert forall|j: usize| j < d0.len() implies #[trigger] self.diff_vec@[j as int] == d0[j as int] - (if idx@.subrange(0, k + 1).contains(j) { 1int } else { 0int }) by {
                        lemma_push_contains(idx@.subrange(0, k as int), i, j);
                        assert(pd[j as int] == d0[j as int] - (if idx@.subrange(0, k as int).contains(j) { 1int } else { 0int }));
                        if j != i {
                            assert(self.diff_vec@[j as int] == pd[j as int]);
                        }
                    }
                }
                k = k + 1;
            }
            proof {
                assert(idx@.subrange(0, k as int) == idx@);
                assert forall|i: usize| #[trigger] fingers(old(self), x).contains(i) implies old(self).diff_vec@[i as int] > 0 by {
                    assert(idx@.to_set().contains(i));
                    let m = choose|m: int| 0 <= m < idx@.len() && idx@[m] == i;
                }
                assert forall|i: usize| i < old(self).diff_vec@.len() implies #[trigger] self.diff_vec@[i as int] == old(self).diff_vec@[i as int] - (if fingers(old(self), x).contains(i) { 1int } else { 0int }) by {
                    assert(idx@.contains(i) == idx@.to_set().contains(i));
                }
            }
        } else {
            proof {
                assert(fingers(old(self), x) =~= Set::<usize>::empty());
            }
        }
        proof {
            lemma_cover_safe_add(old(self), self, x);
        }
        Some(())
    }

    /// Puts the vertices of `xs` into the solution one after the other,
    /// as `add_to_solution` does; `None` as soon as one of them fails.
    pub fn extend_solution(&mut self, xs: Vec<Vx>) -> (r: Option<()>)
        requires
            old(self).wf(),
            forall|k: int| 0 <= k < xs@.len() ==> xs@[k] < old(self).graph.spec_n(),
        ensures
            final(self).wf(),
            final(self).cleanup_funcs == old(self).cleanup_funcs,
            final(self).constraints_vec == old(self).constraints_vec,
            final(self).fingertable == old(self).fingertable,
            final(self).upper_bound == old(self).upper_bound,
            final(self).diff_vec@.len() == old(self).diff_vec@.len(),
            final(self).graph.spec_n() == old(self).graph.spec_n(),
            final(self).dirty@.len() == old(self).dirty@.len(),
            reduced(old(self), final(self)),
            cover_safe(old(self), final(self)),
            xs@.len() > 0 ==> progressed(old(self), final(self)),
            r is Some <==> ((xs@.len() == 0 || old(self).solution@.len() + xs@.len() <= old(self).upper_bound) && forall|i: usize|
                i < old(self).diff_vec@.len() ==> #[trigger] hits(old(self), xs@, i) <= old(self).diff_vec@[i as int]),
            r is Some ==> {
                &&& final(self).solution@ == old(self).solution@ + xs@
                &&& final(self).graph@ == without_set(old(self).graph@, xs@.to_set())
                &&& dirty_added(old(self), final(self), xs@.to_set().union(neighbourhood(old(self).graph@, xs@.to_set())))
                &&& forall|i: usize| i < old(self).diff_vec@.len() ==> #[trigger] final(self).diff_vec@[i as int] == old(self).diff_vec@[i as int] - hits(old(self), xs@, i)
            },
    {
        let ghost g0 = self.graph@;
        proof {
            assert(self.solution@.subrange(0, self.solution@.len() as int) =~= self.solution@);
            lemma_cover_safe_refl(self);
            self.graph.lemma_simple();
            lemma_without_set_insert(g0, self.graph.spec_n(), Set::empty(), 0);
            assert(xs@.subrange(0, 0).to_set() =~= Set::<Vx>::empty());
            assert(neighbourhood(g0, Set::<Vx>::empty()) =~= Set::<Vx>::empty());
            assert(old(self).solution@ + xs@.subrange(0, 0) =~= old(self).solution@);
            assert forall|j: int| 0 <= j < old(self).dirty@.len() implies (#[trigger] self.dirty@[j])@ == old(self).dirty@[j]@.union(
                xs@.subrange(0, 0).to_set().union(neighbourhood(g0, xs@.subrange(0, 0).to_set()))) by {
                assert(old(self).dirty@[j]@.union(Set::<Vx>::empty().union(Set::<Vx>::empty())) =~= old(self).dirty@[j]@);
            }
        }
        let mut k: usize = 0;
        while k < xs.len()
            invariant
                k <= xs@.len(),
                self.wf(),
                self.cleanup_funcs == old(self).cleanup_funcs,
                self.constraints_vec == old(self).constraints_vec,
                self.fingertable == old(self).fingertable,
                self.upper_bound == old(self).upper_bound,
                self.diff_vec@.len() == old(self).diff_vec@.len(),
                self.graph.spec_n() == old(self).graph.spec_n(),
                g0 == old(self).graph@,
                forall|k: int| 0 <= k < xs@.len() ==> xs@[k] < old(self).graph.spec_n(),
                simple_graph(g0, old(self).graph.spec_n()),
                self.solution@ == old(self).solution@ + xs@.subrange(0, k as int),
                k == 0 || old(self).solution@.len() + k <= old(self).upper_bound,
                reduced(old(self), self),
                cover_safe(old(self), self),
                k > 0 ==> progressed(old(self), self),
                self.graph@ == without_set(g0, xs@.subrange(0, k as int).to_set()),
                dirty_added(old(self), self, xs@.subrange(0, k as int).to_set().union(neighbourhood(g0, xs@.subrange(0, k as int).to_set()))),
                forall|i: usize| i < old(self).diff_vec@.len() ==> #[trigger] self.diff_vec@[i as int] == old(self).diff_vec@[i as int] - hits(old(self), xs@.subrange(0, k as int), i),
                forall|i: usize| i < old(self).diff_vec@.len() ==> #[trigger] hits(old(self), xs@.subrange(0, k as int), i) <= old(self).diff_vec@[i as int],
            decreases xs@.len() - k,
        {
            let x = xs[k];
            let ghost prev = *self;
            let ghost pre = xs@.subrange(0, k as int);
            let r = self.add_to_solution(x);
            proof {
                lemma_reduced_trans(old(self), &prev, self);
                lemma_cover_safe_trans(old(self), &prev, self);
                assert(xs@.subrange(0, k + 1) == pre.push(x));
                lemma_to_set_push(pre, x);
                assert(fingers(&prev, x) == fingers(old(self), x));
                assert forall|i: usize| true implies hits(old(self), xs@.subrange(0, k + 1), i) == hits(old(self), pre, i) + if fingers(old(self), x).contains(i) { 1nat } else { 0nat } by {
                    lemma_hits_push(old(self), xs@, k as int, i);
                }
            }
            if r.is_none() {
                proof {
                    if xs@.len() == 0 || old(self).solution@.len() + xs@.len() <= old(self).upper_bound {
                        assert(prev.solution@.len() + 1 <= prev.upper_bound);
                        let i = choose|i: usize| #[trigger] fingers(&prev, x).contains(i) && !(prev.diff_vec@[i as int] > 0);
                        assert(i < prev.diff_vec@.len());
                        lemma_hits_prefix(old(self), xs@, k + 1, xs@.len() as int, i);
                        assert(xs@.subrange(0, xs@.len() as int) == xs@);
                        assert(hits(old(self), xs@, i) > old(self).diff_vec@[i as int]);
                    }
                }
                return None;
            }
            proof {
                lemma_nbrs_without_set(g0, old(self).graph.spec_n(), pre.to_set(), x);
                lemma_without_set_insert(g0, old(self).graph.spec_n(), pre.to_set(), x);
                let big = xs@.subrange(0, k + 1).to_set();
                assert(neighbourhood(g0, big) =~= neighbourhood(g0, pre.to_set()).union(nbrs(g0, x))) by {
                    assert forall|v: Vx| neighbourhood(g0, big).contains(v) implies neighbourhood(g0, pre.to_set()).union(nbrs(g0, x)).contains(v) by {
                        let y = choose|y: Vx| big.contains(y) && has_edge(g0, y, v);
                        if y != x {
                            assert(pre.to_set().contains(y));
                        }
                    }
                    assert forall|v: Vx| neighbourhood(g0, pre.to_set()).union(nbrs(g0, x)).contains(v) implies neighbourhood(g0, big).contains(v) by {
                        if nbrs(g0, x).contains(v) {
                            assert(big.contains(x) && has_edge(g0, x, v));
                        } else {
                            let y = choose|y: Vx| pre.to_set().contains(y) && has_edge(g0, y, v);
                            assert(big.contains(y));
                        }
                    }
                }
                assert forall|j: int| 0 <= j < old(self).dirty@.len() implies (#[trigger] self.dirty@[j])@ == old(self).dirty@[j]@.union(
                    big.union(neighbourhood(g0, big))) by {
                    assert(self.dirty@[j]@ == prev.dirty@[j]@.union(nbrs(prev.graph@, x).insert(x)));
                    assert forall|v: Vx| nbrs(g0, x).contains(v) && !pre.to_set().contains(v) implies nbrs(prev.graph@, x).contains(v) || pre.to_set().contains(x) by {}
                    assert forall|v: Vx| pre.to_set().contains(x) && nbrs(g0, x).contains(v) implies neighbourhood(g0, pre.to_set()).contains(v) by {
                        assert(has_edge(g0, x, v));
                    }
                    assert(self.dirty@[j]@ =~= old(self).dirty@[j]@.union(big.union(neighbourhood(g0, big))));
                }
                assert(self.solution@ =~= old(self).solution@ + xs@.subrange(0, k + 1));
                assert forall|i: usize| i < old(self).diff_vec@.len() implies #[trigger] self.diff_vec@[i as int] == old(self).diff_vec@[i as int] - hits(old(self), xs@.subrange(0, k + 1), i) by {
                    assert(self.diff_vec@[i as int] == prev.diff_vec@[i as int] - (if fingers(&prev, x).contains(i) { 1int } else { 0int }));
                }
                assert forall|i: usize| i < old(self).diff_vec@.len() implies #[trigger] hits(old(self), xs@.subrange(0, k + 1), i) <= old(self).diff_vec@[i as int] by {
                    if fingers(&prev, x).contains(i) {
                        assert(prev.diff_vec@[i as int] > 0);
                    }
                }
            }
            k = k + 1;
        }
        proof {
            assert(xs@.subrange(0, k as int) == xs@);
        }
        Some(())
    }

    /// Takes the vertices of `xs` out of the graph, as `remove_vertex` does.
    pub fn remove_vertices(&mut self, xs: Vec<Vx>)
        requires
            old(self).wf(),
            forall|k: int| 0 <= k < xs@.len() ==> xs@[k] < old(self).graph.spec_n(),
        ensures
            final(self).wf(),
            same_constraints(old(self), final(self)),
            final(self).solution == old(self).solution,
            final(self).graph.spec_n() == old(self).graph.spec_n(),
            final(self).graph@ == without_set(old(self).graph@, xs@.to_set()),
            dirty_added(old(self), final(self), xs@.to_set().union(neighbourhood(old(self).graph@, xs@.to_set()))),
            reduced(old(self), final(self)),
            (exists|k: int| 0 <= k < xs@.len() && old(self).graph@.dom().contains(xs@[k])) ==> progressed(old(self), final(self)),
    {
        let ghost g0 = self.graph@;
        proof {
            assert(self.solution@.subrange(0, self.solution@.len() as int) =~= self.solution@);
            self.graph.lemma_simple();
            lemma_without_set_insert(g0, self.graph.spec_n(), Set::empty(), 0);
            assert(xs@.subrange(0, 0).to_set() =~= Set::<Vx>::empty());
            assert(neighbourhood(g0, Set::<Vx>::empty()) =~= Set::<Vx>::empty());
            assert forall|j: int| 0 <= j < old(self).dirty@.len() implies (#[trigger] self.dirty@[j])@ == old(self).dirty@[j]@.union(
                xs@.subrange(0, 0).to_set().union(neighbourhood(g0, xs@.subrange(0, 0).to_set()))) by {
                assert(old(self).dirty@[j]@.union(Set::<Vx>::empty().union(Set::<Vx>::empty())) =~= old(self).dirty@[j]@);
            }
        }
        let mut k: usize = 0;
        while k < xs.len()
            invariant
                k <= xs@.len(),
                self.wf(),
                same_constraints(old(self), self),
                self.solution == old(self).solution,
                self.graph.spec_n() == old(self).graph.spec_n(),
                g0 == old(self).graph@,
                forall|k: int| 0 <= k < xs@.len() ==> xs@[k] < old(self).graph.spec_n(),
                simple_graph(g0, old(self).graph.spec_n()),
                self.graph@ == without_set(g0, xs@.subrange(0, k as int).to_set()),
                dirty_added(old(self), self, xs@.subrange(0, k as int).to_set().union(neighbourhood(g0, xs@.subrange(0, k as int).to_set()))),
                reduced(old(self), self),
                (exists|m: int| 0 <= m < k && g0.dom().contains(xs@[m])) ==> progressed(old(self), self),
            decreases xs@.len() - k,
        {
            let x = xs[k];
            let ghost prev = *self;
            let ghost pre = xs@.subrange(0, k as int);
            self.remove_vertex(x);
            proof {
                lemma_reduced_trans(old(self), &prev, self);
                if g0.dom().contains(x) {
                    if !prev.graph@.dom().contains(x) {
                        assert(!without_set(g0, pre.to_set()).dom().contains(x));
                        assert(pre.to_set().contains(x) || g0[x].difference(pre.to_set()).len() == 0);
                        if pre.to_set().contains(x) {
                            let m = choose|m: int| 0 <= m < pre.len() && pre[m] == x;
                            assert(xs@[m] == x);
                            assert(progressed(old(self), &prev));
                        } else {
                            assert(g0[x].finite());
                            g0[x].difference(pre.to_set()).lemma_len0_is_empty();
                            let w = g0[x].choose();
                            assert(g0[x].len() > 0);
                            assert(g0[x].contains(w)) by {
                                if !g0[x].contains(w) {
                                    assert(g0[x] =~= Set::<Vx>::empty());
                                }
                            }
                            assert(!g0[x].difference(pre.to_set()).contains(w));
                            assert(pre.to_set().contains(w));
                            let m = choose|m: int| 0 <= m < pre.len() && pre[m] == w;
                            assert(g0.dom().contains(xs@[m]));
                            assert(progressed(old(self), &prev));
                        }
                    }
                }
                assert((exists|m: int| 0 <= m < k + 1 && g0.dom().contains(xs@[m])) ==> progressed(old(self), self)) by {
                    if exists|m: int| 0 <= m < k + 1 && g0.dom().contains(xs@[m]) {
                        let m = choose|m: int| 0 <= m < k + 1 && g0.dom().contains(xs@[m]);
                        if m < k {
                            assert(progressed(old(self), &prev));
                        }
                    }
                }
                assert(xs@.subrange(0, k + 1) == pre.push(x));
                lemma_to_set_push(pre, x);
                lemma_nbrs_without_set(g0, old(self).graph.spec_n(), pre.to_set(), x);
                lemma_without_set_insert(g0, old(self).graph.spec_n(), pre.to_set(), x);
                let big = xs@.subrange(0, k + 1).to_set();
                assert(neighbourhood(g0, big) =~= neighbourhood(g0, pre.to_set()).union(nbrs(g0, x))) by {
                    assert forall|v: Vx| neighbourhood(g0, big).contains(v) implies neighbourhood(g0, pre.to_set()).union(nbrs(g0, x)).contains(v) by {
                        let y = choose|y: Vx| big.contains(y) && has_edge(g0, y, v);
                        if y != x {
                            assert(pre.to_set().contains(y));
                        }
                    }
                    assert forall|v: Vx| neighbourhood(g0, pre.to_set()).union(nbrs(g0, x)).contains(v) implies neighbourhood(g0, big).contains(v) by {
                        if nbrs(g0, x).contains(v) {
                            assert(big.contains(x) && has_edge(g0, x, v));
                        } else {
                            let y = choose|y: Vx| pre.to_set().contains(y) && has_edge(g0, y, v);
                            assert(big.contains(y));
                        }
                    }
                }
                assert forall|j: int| 0 <= j < old(self).dirty@.len() implies (#[trigger] self.dirty@[j])@ == old(self).dirty@[j]@.union(
                    big.union(neighbourhood(g0, big))) by {
                    assert(self.dirty@[j]@ == prev.dirty@[j]@.union(nbrs(prev.graph@, x).insert(x)));
                    assert forall|v: Vx| pre.to_set().contains(x) && nbrs(g0, x).contains(v) implies neighbourhood(g0, pre.to_set()).contains(v) by {
                        assert(has_edge(g0, x, v));
                    }
                    assert(self.dirty@[j]@ =~= old(self).dirty@[j]@.union(big.union(neighbourhood(g0, big))));
                }
            }
            k = k + 1;
        }
        proof {
            assert(xs@.subrange(0, k as int) == xs@);
        }
    }

    /// Drops every constraint that holds `x`: each is emptied, given the
    /// budget 1, and taken out of the finger table.
    pub fn clear_constraints(&mut self, x: Vx)
        requires
            old(self).wf(),
        ensures
            final(self).wf(),
            final(self).cleanup_funcs == old(self).cleanup_funcs,
            final(self).solution == old(self).solution,
            final(self).upper_bound == old(self).upper_bound,
            final(self).graph == old(self).graph,
            final(self).dirty == old(self).dirty,
            final(self).diff_vec@.len() == old(self).diff_vec@.len(),
            final(self).constraints_vec@.len() == old(self).constraints_vec@.len(),
            final(self).fingertable@.len() == old(self).fingertable@.len(),
            forall|i: usize| i < old(self).constraints_vec@.len() ==> {
                &&& #[trigger] final(self).constraints_vec@[i as int]@ == (if fingers(old(self), x).contains(i) { Set::<Vx>::empty() } else { old(self).constraints_vec@[i as int]@ })
                &&& final(self).diff_vec@[i as int] == (if fingers(old(self), x).contains(i) { 1 } else { old(self).diff_vec@[i as int] })
            },
            forall|v: usize| v < old(self).fingertable@.len() ==> (#[trigger] final(self).fingertable@[v as int])@ == old(self).fingertable@[v as int]@.difference(fingers(old(self), x)),
    {
        if x >= self.fingertable.len() {
            proof {
                assert forall|v: usize| v < old(self).fingertable@.len() implies (#[trigger] self.fingertable@[v as int])@ == old(self).fingertable@[v as int]@.difference(fingers(old(self), x)) by {
                    assert(old(self).fingertable@[v as int]@.difference(Set::<usize>::empty()) =~= old(self).fingertable@[v as int]@);
                }
            }
            return;
        }
        let mut indices = IdSet::empty();
        std::mem::swap(&mut indices, &mut self.fingertable[x]);
        let idx = indices.elements();
        let ghost f = indices@;
        let ghost c0 = old(self).constraints_vec@;
        let mut k: usize = 0;
        while k < idx.len()
            invariant
                k <= idx@.len(),
                idx@.no_duplicates(),
                idx@.to_set() == f,
                f == old(self).fingertable@[x as int]@,
                x < old(self).fingertable@.len(),
                old(self).wf(),
                c0 == old(self).constraints_vec@,
                self.graph == old(self).graph,
                self.dirty == old(self).dirty,
                self.solution == old(self).solution,
                self.upper_bound == old(self).upper_bound,
                self.cleanup_funcs == old(self).cleanup_funcs,
                self.diff_vec@.len() == old(self).diff_vec@.len(),
                self.constraints_vec@.len() == c0.len(),
                self.fingertable@.len() == old(self).fingertable@.len(),
                forall|i: usize| i < c0.len() ==> {
                    &&& #[trigger] self.constraints_vec@[i as int]@ == (if idx@.subrange(0, k as int).contains(i) { Set::<Vx>::empty() } else { c0[i as int]@ })
                    &&& self.diff_vec@[i as int] == (if idx@.subrange(0, k as int).contains(i) { 1 } else { old(self).diff_vec@[i as int] })
                },
                forall|v: usize| v < old(self).fingertable@.len() && v != x ==> (#[trigger] self.fingertable@[v as int])@ == old(self).fingertable@[v as int]@.difference(idx@.subrange(0, k as int).to_set()),
                self.fingertable@[x as int]@ == Set::<usize>::empty(),
            decreases idx@.len() - k,
        {
            let i = idx[k];
            proof {
                assert(idx@.to_set().contains(i));
                assert(!idx@.subrange(0, k as int).contains(i)) by {
                    if idx@.subrange(0, k as int).contains(i) {
                        let m = choose|m: int| 0 <= m < k && idx@.subrange(0, k as int)[m] == i;
                        assert(idx@[m] == idx@[k as int]);
                    }
                }
                assert(idx@.subrange(0, k + 1) == idx@.subrange(0, k as int).push(i));
                lemma_to_set_push(idx@.subrange(0, k as int), i);
            }
            proof {
                assert(old(self).fingertable@[x as int]@.contains(i));
                assert(i < c0.len());
                assert(self.constraints_vec@[i as int]@ == c0[i as int]@);
            }
            let ghost s0 = *self;
            self.diff_vec.set(i, 1);
            let mut h = IdSet::empty();
            std::mem::swap(&mut h, &mut self.constraints_vec[i]);
            proof {
                assert(self.constraints_vec@[i as int]@ == Set::<Vx>::empty());
                assert(h@ == c0[i as int]@);
                assert forall|i2: usize| i2 < c0.len() && i2 != i implies self.constraints_vec@[i2 as int] == s0.constraints_vec@[i2 as int]
                    && self.diff_vec@[i2 as int] == s0.diff_vec@[i2 as int] by {}
            }
            let ys = h.elements();
            let ghost ft_start = self.fingertable@;
            let ghost s1 = *self;
            let mut m: usize = 0;
            while m < ys.len()
                invariant
                    self.constraints_vec == s1.constraints_vec,
                    self.diff_vec == s1.diff_vec,
                    self.graph == s1.graph,
                    self.dirty == s1.dirty,
                    self.solution == s1.solution,
                    self.upper_bound == s1.upper_bound,
                    self.cleanup_funcs == s1.cleanup_funcs,
                    m <= ys@.len(),
                    ys@.to_set() == c0[i as int]@,
                    self.fingertable@.len() == ft_start.len(),
                    forall|v: usize| v < ft_start.len() ==> (#[trigger] self.fingertable@[v as int])@ == (if ys@.subrange(0, m as int).contains(v) { ft_start[v as int]@.remove(i) } else { ft_start[v as int]@ }),
                decreases ys@.len() - m,
            {
                let y = ys[m];
                proof {
                    assert(ys@.subrange(0, m + 1) == ys@.subrange(0, m as int).push(y));
                }
                let ghost fprev = self.fingertable@;
                if y < self.fingertable.len() {
                    self.fingertable[y].remove(i);
                }
                proof {
                    assert forall|v: usize| v < ft_start.len() implies (#[trigger] self.fingertable@[v as int])@ == (if ys@.subrange(0, m + 1).contains(v) { ft_start[v as int]@.remove(i) } else { ft_start[v as int]@ }) by {
                        lemma_push_contains(ys@.subrange(0, m as int), y, v);
                        if v != y {
                            assert(self.fingertable@[v as int] == fprev[v as int]);
                        } else if ys@.subrange(0, m as int).contains(v) {
                            assert(fprev[v as int]@.remove(i) =~= ft_start[v as int]@.remove(i).remove(i));
                        }
                    }
                }
                m = m + 1;
            }
            proof {
                assert(ys@.subrange(0, m as int) == ys@);
                assert forall|i2: usize| i2 < c0.len() implies {
                    &&& #[trigger] self.constraints_vec@[i2 as int]@ == (if idx@.subrange(0, k + 1).contains(i2) { Set::<Vx>::empty() } else { c0[i2 as int]@ })
                    &&& self.diff_vec@[i2 as int] == (if idx@.subrange(0, k + 1).contains(i2) { 1 } else { old(self).diff_vec@[i2 as int] })
                } by {
                    lemma_push_contains(idx@.subrange(0, k as int), i, i2);
                    if i2 != i {
                        assert(s1.constraints_vec@[i2 as int] == s0.constraints_vec@[i2 as int]);
                        assert(s1.diff_vec@[i2 as int] == s0.diff_vec@[i2 as int]);
                        assert(self.constraints_vec@[i2 as int] == s0.constraints_vec@[i2 as int]);
                        assert(self.diff_vec@[i2 as int] == s0.diff_vec@[i2 as int]);
                    } else {
                        assert(self.constraints_vec@[i2 as int]@ == Set::<Vx>::empty());
                        assert(self.diff_vec@[i2 as int] == 1);
                    }
                }
                assert forall|v: usize| v < old(self).fingertable@.len() && v != x implies (#[trigger] self.fingertable@[v as int])@ == old(self).fingertable@[v as int]@.difference(idx@.subrange(0, k + 1).to_set()) by {
                    let before = old(self).fingertable@[v as int]@.difference(idx@.subrange(0, k as int).to_set());
                    assert(ft_start[v as int]@ == before);
                    if ys@.contains(v) {
                        assert(before.remove(i) =~= old(self).fingertable@[v as int]@.difference(idx@.subrange(0, k + 1).to_set()));
                    } else {
                        if old(self).fingertable@[v as int]@.contains(i) {
                            assert(c0[i as int]@.contains(v));
                            assert(ys@.to_set().contains(v));
                        }
                        assert(before =~= old(self).fingertable@[v as int]@.difference(idx@.subrange(0, k + 1).to_set()));
                    }
                }
                if ys@.contains(x) {
                    assert(self.fingertable@[x as int]@ =~= Set::<usize>::empty());
                }
            }
            k = k + 1;
        }
        proof {
            assert(idx@.subrange(0, k as int) == idx@);
            assert forall|v: usize| v < old(self).fingertable@.len() implies (#[trigger] self.fingertable@[v as int])@ == old(self).fingertable@[v as int]@.difference(fingers(old(self), x)) by {
                if v == x {
                    assert(old(self).fingertable@[v as int]@.difference(fingers(old(self), x)) =~= Set::<usize>::empty());
                } else {
                    assert(idx@.to_set() == fingers(old(self), x));
                }
            }
            assert forall|i: usize| i < old(self).constraints_vec@.len() implies {
                &&& #[trigger] self.constraints_vec@[i as int]@ == (if fingers(old(self), x).contains(i) { Set::<Vx>::empty() } else { old(self).constraints_vec@[i as int]@ })
                &&& self.diff_vec@[i as int] == (if fingers(old(self), x).contains(i) { 1 } else { old(self).diff_vec@[i as int] })
            } by {
                assert(idx@.contains(i) == idx@.to_set().contains(i));
            }
            assert forall|vu: usize, i: usize|
                vu < self.fingertable@.len() && #[trigger] self.fingertable@[vu as int]@.contains(i) implies i
                    < self.constraints_vec@.len() && self.constraints_vec@[i as int]@.contains(vu) by {
                let v = vu as int;
                assert(old(self).fingertable@[v]@.contains(i));
                assert(!fingers(old(self), x).contains(i));
            }
            assert forall|i: usize, v: Vx| i < self.constraints_vec@.len() && #[trigger] self.constraints_vec@[i as int]@.contains(v)
                implies v < self.graph.spec_n() by {
                assert(self.constraints_vec@[i as int]@ == (if fingers(old(self), x).contains(i) { Set::<Vx>::empty() } else { old(self).constraints_vec@[i as int]@ }));
                assert(old(self).constraints_vec@[i as int]@.contains(v));
            }
        }
    }

    /// Takes `x` out of every constraint that the finger table lists for
    /// it, and empties its finger-table entry.
    pub fn shallow_clear_constraints(&mut self, x: Vx)
        requires
            old(self).wf(),
        ensures
            final(self).wf(),
            final(self).cleanup_funcs == old(self).cleanup_funcs,
            final(self).solution == old(self).solution,
            final(self).upper_bound == old(self).upper_bound,
            final(self).graph == old(self).graph,
            final(self).dirty == old(self).dirty,
            final(self).diff_vec == old(self).diff_vec,
            final(self).constraints_vec@.len() == old(self).constraints_vec@.len(),
            final(self).fingertable@.len() == old(self).fingertable@.len(),
            forall|i: usize| i < old(self).constraints_vec@.len() ==> #[trigger] final(self).constraints_vec@[i as int]@ == (if fingers(old(self), x).contains(i) { old(self).constraints_vec@[i as int]@.remove(x) } else { old(self).constraints_vec@[i as int]@ }),
            forall|v: usize| v < old(self).fingertable@.len() ==> (#[trigger] final(self).fingertable@[v as int])@ == (if v == x { Set::<usize>::empty() } else { old(self).fingertable@[v as int]@ }),
    {
        if x >= self.fingertable.len() {
            return;
        }
        let mut indices = IdSet::empty();
        std::mem::swap(&mut indices, &mut self.fingertable[x]);
        let idx = indices.elements();
        let ghost c0 = old(self).constraints_vec@;
        let ghost s1 = *self;
        proof {
            assert forall|v: usize| v < old(self).fingertable@.len() implies (#[trigger] self.fingertable@[v as int])@ == (if v == x { Set::<usize>::empty() } else { old(self).fingertable@[v as int]@ }) by {}
        }
        let mut k: usize = 0;
        while k < idx.len()
            invariant
                k <= idx@.len(),
                idx@.to_set() == old(self).fingertable@[x as int]@,
                x < old(self).fingertable@.len(),
                old(self).wf(),
                c0 == old(self).constraints_vec@,
                self.graph == old(self).graph,
                self.dirty == old(self).dirty,
                self.solution == old(self).solution,
                self.upper_bound == old(self).upper_bound,
                self.cleanup_funcs == old(self).cleanup_funcs,
                self.diff_vec == old(self).diff_vec,
                self.fingertable == s1.fingertable,
                forall|v: usize| v < old(self).fingertable@.len() ==> (#[trigger] self.fingertable@[v as int])@ == (if v == x { Set::<usize>::empty() } else { old(self).fingertable@[v as int]@ }),
                self.constraints_vec@.len() == c0.len(),
                forall|i: usize| i < c0.len() ==> #[trigger] self.constraints_vec@[i as int]@ == (if idx@.subrange(0, k as int).contains(i) { c0[i as int]@.remove(x) } else { c0[i as int]@ }),
            decreases idx@.len() - k,
        {
            let i = idx[k];
            proof {
                assert(idx@.to_set().contains(i));
                assert(old(self).fingertable@[x as int]@.contains(i));
                assert(idx@.subrange(0, k + 1) == idx@.subrange(0, k as int).push(i));
            }
            let ghost prev = self.constraints_vec@;
            proof {
                assert(i < c0.len());
                assert(prev[i as int]@ == (if idx@.subrange(0, k as int).contains(i) { c0[i as int]@.remove(x) } else { c0[i as int]@ }));
            }
            self.constraints_vec[i].remove(x);
            proof {
                assert(self.constraints_vec@[i as int]@ == prev[i as int]@.remove(x));
                assert forall|i2: usize| i2 < c0.len() implies #[trigger] self.constraints_vec@[i2 as int]@ == (if idx@.subrange(0, k + 1).contains(i2) { c0[i2 as int]@.remove(x) } else { c0[i2 as int]@ }) by {
                    lemma_push_contains(idx@.subrange(0, k as int), i, i2);
                    if i2 != i {
                        assert(self.constraints_vec@[i2 as int] == prev[i2 as int]);
                    } else {
                        assert(c0[i2 as int]@.remove(x).remove(x) =~= c0[i2 as int]@.remove(x));
                    }
                }
            }
            k = k + 1;
        }
        proof {
            assert(idx@.subrange(0, k as int) == idx@);
            assert forall|i: usize| i < old(self).constraints_vec@.len() implies #[trigger] self.constraints_vec@[i as int]@ == (if fingers(old(self), x).contains(i) { old(self).constraints_vec@[i as int]@.remove(x) } else { old(self).constraints_vec@[i as int]@ }) by {
                assert(idx@.contains(i) == idx@.to_set().contains(i));
            }
            assert forall|vu: usize, i: usize|
                vu < self.fingertable@.len() && #[trigger] self.fingertable@[vu as int]@.contains(i) implies i
                    < self.constraints_vec@.len() && self.constraints_vec@[i as int]@.contains(vu) by {
                let v = vu as int;
                assert(old(self).fingertable@[v]@.contains(i));
            }
            assert forall|i: usize, v: Vx| i < self.constraints_vec@.len() && #[trigger] self.constraints_vec@[i as int]@.contains(v)
                implies v < self.graph.spec_n() by {
                assert(self.constraints_vec@[i as int]@ == (if fingers(old(self), x).contains(i) { old(self).constraints_vec@[i as int]@.remove(x) } else { old(self).constraints_vec@[i as int]@ }));
                assert(old(self).constraints_vec@[i as int]@.contains(v));
            }
        }
    }

    /// `clear_constraints` for each vertex of `xs` in turn.
    pub fn clear_constraints_iter(&mut self, xs: Vec<Vx>)
        requires
            old(self).wf(),
        ensures
            final(self).wf(),
            final(self).cleanup_funcs == old(self).cleanup_funcs,
            final(self).solution == old(self).solution,
            final(self).upper_bound == old(self).upper_bound,
            final(self).graph == old(self).graph,
            final(self).dirty == old(self).dirty,
            final(self).diff_vec@.len() == old(self).diff_vec@.len(),
            final(self).constraints_vec@.len() == old(self).constraints_vec@.len(),
            forall|v: usize| #[trigger] xs@.contains(v) ==> fingers(final(self), v) == Set::<usize>::empty(),
    {
        let mut k: usize = 0;
        while k < xs.len()
            invariant
                k <= xs@.len(),
                self.wf(),
                self.cleanup_funcs == old(self).cleanup_funcs,
                self.solution == old(self).solution,
                self.upper_bound == old(self).upper_bound,
                self.graph == old(self).graph,
                self.dirty == old(self).dirty,
                self.diff_vec@.len() == old(self).diff_vec@.len(),
                self.constraints_vec@.len() == old(self).constraints_vec@.len(),
                forall|j: int| 0 <= j < k ==> fingers(self, #[trigger] xs@[j]) == Set::<usize>::empty(),
            decreases xs@.len() - k,
        {
            let ghost prev = *self;
            self.clear_constraints(xs[k]);
            proof {
                assert forall|j: int| 0 <= j < k + 1 implies fingers(self, #[trigger] xs@[j]) == Set::<usize>::empty() by {
                    let v = xs@[j];
                    if v < self.fingertable@.len() {
                        assert(self.fingertable@[v as int]@ == prev.fingertable@[v as int]@.difference(fingers(&prev, xs@[k as int])));
                        if j == k {
                            assert(self.fingertable@[v as int]@ =~= Set::<usize>::empty());
                        } else {
                            assert(prev.fingertable@[v as int]@ == Set::<usize>::empty());
                            assert(self.fingertable@[v as int]@ =~= Set::<usize>::empty());
                        }
                    }
                }
            }
            k = k + 1;
        }
    }

    /// `Some` where `k` more vertices still fit under the upper bound.
    pub fn lb(&self, k: usize) -> (r: Option<()>)
        ensures
            r is Some <==> self.solution@.len() + k <= self.upper_bound,
    {
        if k > self.upper_bound || self.solution.len() > self.upper_bound - k {
            return None;
        }
        Some(())
    }

    /// Marks every vertex id dirty for every rule and drops all constraints.
    pub fn full_clear(&mut self)
        requires
            old(self).wf(),
        ensures
            final(self).wf(),
            final(self).cleanup_funcs == old(self).cleanup_funcs,
            final(self).solution == old(self).solution,
            final(self).upper_bound == old(self).upper_bound,
            final(self).graph == old(self).graph,
            final(self).dirty@.len() == old(self).dirty@.len(),
            forall|j: int| 0 <= j < final(self).dirty@.len() ==> (#[trigger] final(self).dirty@[j])@ == Set::new(|v: Vx| v < old(self).graph.spec_n()),
            final(self).diff_vec@.len() == 0,
            final(self).constraints_vec@.len() == 0,
            forall|v: usize| v < final(self).fingertable@.len() ==> (#[trigger] final(self).fingertable@[v as int])@ == Set::<usize>::empty(),
    {
        let n = self.graph.n();
        let mut j: usize = 0;
        while j < self.dirty.len()
            invariant
                j <= self.dirty@.len(),
                self.dirty@.len() == old(self).dirty@.len(),
                n == old(self).graph.spec_n(),
                self.graph == old(self).graph,
                self.cleanup_funcs == old(self).cleanup_funcs,
                self.solution == old(self).solution,
                self.upper_bound == old(self).upper_bound,
                self.diff_vec == old(self).diff_vec,
                self.constraints_vec == old(self).constraints_vec,
                self.fingertable == old(self).fingertable,
                forall|k: int| 0 <= k < j ==> (#[trigger] self.dirty@[k])@ == Set::new(|v: Vx| v < n),
            decreases self.dirty@.len() - j,
        {
            let mut h = IdSet::empty();
            let mut v: usize = 0;
            while v < n
                invariant
                    v <= n,
                    h@ == Set::new(|w: Vx| w < v),
                decreases n - v,
            {
                h.insert(v);
                proof {
                    assert(h@ =~= Set::new(|w: Vx| w < v + 1));
                }
                v = v + 1;
            }
            let ghost prev = self.dirty@;
            self.dirty.set(j, h);
            proof {
                assert forall|k: int| 0 <= k < j + 1 implies (#[trigger] self.dirty@[k])@ == Set::new(|v: Vx| v < n) by {
                    if k < j {
                        assert(self.dirty@[k] == prev[k]);
                    }
                }
            }
            j = j + 1;
        }
        self.diff_vec = Vec::new();
        self.constraints_vec = Vec::new();
        let mut ft: Vec<IdSet> = Vec::new();
        let mut v: usize = 0;
        while v < n
            invariant
                v <= n,
                ft@.len() == v,
                forall|w: int| 0 <= w < v ==> (#[trigger] ft@[w])@ == Set::<usize>::empty(),
            decreases n - v,
        {
            ft.push(IdSet::empty());
            v = v + 1;
        }
        self.fingertable = ft;
    }

    /// Adds the packing constraint `s` with budget `diff` and indexes it
    /// in the finger table.
    pub(crate) fn add_constraint(&mut self, s: IdSet, diff: usize)
        requires
            old(self).wf(),
            forall|v: Vx| s@.contains(v) ==> v < old(self).graph.spec_n(),
        ensures
            final(self).wf(),
            final(self).cleanup_funcs == old(self).cleanup_funcs,
            final(self).solution == old(self).solution,
            final(self).upper_bound == old(self).upper_bound,
            final(self).graph == old(self).graph,
            final(self).dirty == old(self).dirty,
            final(self).constraints_vec@ == old(self).constraints_vec@.push(s),
            final(self).diff_vec@ == old(self).diff_vec@.push(diff),
            final(self).fingertable@.len() == old(self).fingertable@.len(),
            old(self).constraints_vec@.len() <= usize::MAX,
            forall|v: usize| v < old(self).fingertable@.len() ==> (#[trigger] final(self).fingertable@[v as int])@ == (if s@.contains(v) {
                old(self).fingertable@[v as int]@.insert(old(self).constraints_vec@.len() as usize) } else { old(self).fingertable@[v as int]@ }),
    {
        let index = self.constraints_vec.len();
        let elems = s.elements();
        let ghost f0 = self.fingertable@;
        let mut k: usize = 0;
        while k < elems.len()
            invariant
                k <= elems@.len(),
                elems@.to_set() == s@,
                forall|v: Vx| s@.contains(v) ==> v < old(self).graph.spec_n(),
                old(self).wf(),
                f0 == old(self).fingertable@,
                index == old(self).constraints_vec@.len(),
                self.fingertable@.len() == f0.len(),
                self.graph == old(self).graph,
                self.dirty == old(self).dirty,
                self.solution == old(self).solution,
                self.upper_bound == old(self).upper_bound,
                self.cleanup_funcs == old(self).cleanup_funcs,
                self.diff_vec == old(self).diff_vec,
                self.constraints_vec == old(self).constraints_vec,
                forall|v: usize| v < f0.len() ==> (#[trigger] self.fingertable@[v as int])@ == (if elems@.subrange(0, k as int).contains(v) { f0[v as int]@.insert(index) } else { f0[v as int]@ }),
            decreases elems@.len() - k,
        {
            let v = elems[k];
            proof {
                assert(elems@.to_set().contains(v));
                assert(elems@.subrange(0, k + 1) == elems@.subrange(0, k as int).push(v));
            }
            let ghost prev = self.fingertable@;
            self.fingertable[v].insert(index);
            proof {
                assert forall|w: usize| w < f0.len() implies (#[trigger] self.fingertable@[w as int])@ == (if elems@.subrange(0, k + 1).contains(w) { f0[w as int]@.insert(index) } else { f0[w as int]@ }) by {
                    lemma_push_contains(elems@.subrange(0, k as int), v, w);
                    if w != v {
                        assert(self.fingertable@[w as int] == prev[w as int]);
                    } else {
                        assert(f0[w as int]@.insert(index).insert(index) =~= f0[w as int]@.insert(index));
                    }
                }
            }
            k = k + 1;
        }
        self.constraints_vec.push(s);
        self.diff_vec.push(diff);
        proof {
            assert(elems@.subrange(0, k as int) == elems@);
            assert forall|v: usize| v < old(self).fingertable@.len() implies (#[trigger] self.fingertable@[v as int])@ == (if s@.contains(v) {
                old(self).fingertable@[v as int]@.insert(old(self).constraints_vec@.len() as usize) } else { old(self).fingertable@[v as int]@ }) by {
                assert(elems@.contains(v) == elems@.to_set().contains(v));
            }
            assert forall|vu: usize, i: usize|
                vu < self.fingertable@.len() && #[trigger] self.fingertable@[vu as int]@.contains(i) implies i
                    < self.constraints_vec@.len() && self.constraints_vec@[i as int]@.contains(vu) by {
                let v = vu as int;
                if i != index {
                    assert(old(self).fingertable@[v]@.contains(i));
                    assert(self.constraints_vec@[i as int] == old(self).constraints_vec@[i as int]);
                } else {
                    if !s@.contains(vu) {
                        assert(old(self).fingertable@[v]@.contains(i));
                    }
                }
            }
        }
    }
}

} // verus!
