//! Packing-constraint reductions. A constraint `S` with budget `k` says
//! that at most `k` more vertices of `S` may join the solution. With `k`
//! zero, `S` must stay outside the solution: its neighbours join it and
//! `S` leaves the graph (and any edge inside `S` ends the branch). With
//! `k` positive, a vertex outside `S` with more than `k` neighbours in `S`
//! joins the solution. Each step adds the constraints that it implies.

use vstd::prelude::*;
use vstd::set_lib::*;
use crate::idset::IdSet;
use crate::graph::{Vx, Graph, nbrs, has_edge, neighbourhood, without_set, simple_graph, lemma_to_set_push, lemma_bounded_set_len, lemma_contains_len};
use crate::state::{State, reduced, progressed, unchanged, lemma_reduced_refl, lemma_reduced_trans};
use crate::idea::Idea;
use crate::ideas::unchanged_but_dirty;

verus! {

/// The constraint rule; it keeps the indices of the constraints with
/// budget zero that it has settled.
pub struct ConstraintReductions(pub IdSet);

impl ConstraintReductions {
    /// The constraints of `s` that the rule has not settled.
    pub open spec fn open_constraints(&self, s: &State) -> Set<usize> {
        Set::new(|j: usize| j < s.constraints_vec@.len() && !self.0@.contains(j))
    }

    /// The number of constraints of `s` that the rule has not settled.
    pub open spec fn aux(&self, s: &State) -> nat {
        self.open_constraints(s).len()
    }

    /// A copy of the rule with its data.
    pub fn duplicate(&self) -> (r: ConstraintReductions)
        ensures
            r.0@ == self.0@,
    {
        ConstraintReductions(self.0.duplicate())
    }
}

/// Whether `a` and `b` have more than `k` elements in common.
fn has_more_common(a: &IdSet, b: &IdSet, k: usize) -> (r: bool)
    requires
        a@.finite(),
        a@.len() < usize::MAX,
    ensures
        r == (a@.intersect(b@).len() > k),
{
    let xs = a.elements();
    let mut count: usize = 0;
    let mut i: usize = 0;
    let ghost mut seen: Set<Vx> = Set::empty();
    proof {
        xs@.unique_seq_to_set();
        lemma_set_subset_finite(a@, a@.intersect(b@));
        lemma_len_subset(a@.intersect(b@), a@);
    }
    while i < xs.len()
        invariant
            i <= xs@.len(),
            xs@.no_duplicates(),
            xs@.to_set() == a@,
            xs@.len() == a@.len(),
            a@.len() < usize::MAX,
            seen == xs@.subrange(0, i as int).to_set().intersect(b@),
            seen.finite(),
            count == seen.len(),
            count <= i,
        decreases xs@.len() - i,
    {
        let x = xs[i];
        proof {
            assert(xs@.subrange(0, i + 1) == xs@.subrange(0, i as int).push(x));
            lemma_to_set_push(xs@.subrange(0, i as int), x);
            assert(!xs@.subrange(0, i as int).contains(x)) by {
                if xs@.subrange(0, i as int).contains(x) {
                    let j = choose|j: int| 0 <= j < i && xs@.subrange(0, i as int)[j] == x;
                    assert(xs@[j] == xs@[i as int]);
                }
            }
        }
        if b.contains(x) {
            count = count + 1;
            proof {
                assert(xs@.subrange(0, i + 1).to_set().intersect(b@) =~= seen.insert(x));
                seen = seen.insert(x);
            }
        } else {
            proof {
                assert(xs@.subrange(0, i + 1).to_set().intersect(b@) =~= seen);
            }
        }
        i = i + 1;
    }
    proof {
        assert(xs@.subrange(0, i as int) == xs@);
    }
    count > k
}

/// The neighbours of the vertices of `xs` (in `g`) that `skip` does not
/// hold (when `outside` is set), collected in the order in which the
/// neighbour sets are walked.
fn neighbours_of(g: &Graph, xs: &Vec<Vx>, skip: &IdSet, outside: bool) -> (r: IdSet)
    requires
        g.wf(),
    ensures
        forall|w: Vx| #[trigger] r@.contains(w) <==> neighbourhood(g@, xs@.to_set()).contains(w) && (outside ==> !skip@.contains(w)),
        forall|w: Vx| #[trigger] r@.contains(w) ==> w < g.spec_n() && g@.dom().contains(w),
{
    let mut r = IdSet::empty();
    let mut i: usize = 0;
    proof {
        g.lemma_simple();
    }
    while i < xs.len()
        invariant
            g.wf(),
            simple_graph(g@, g.spec_n()),
            i <= xs@.len(),
            forall|w: Vx| #[trigger] r@.contains(w) <==> neighbourhood(g@, xs@.subrange(0, i as int).to_set()).contains(w) && (outside ==> !skip@.contains(w)),
            forall|w: Vx| #[trigger] r@.contains(w) ==> w < g.spec_n() && g@.dom().contains(w),
        decreases xs@.len() - i,
    {
        let v = xs[i];
        let nb = g.neighbours(v);
        let ghost r_start = r@;
        let mut j: usize = 0;
        while j < nb.len()
            invariant
                g.wf(),
                simple_graph(g@, g.spec_n()),
                j <= nb@.len(),
                nb@.to_set() == nbrs(g@, v),
                r_start.subset_of(r@),
                forall|w: Vx| #[trigger] r@.contains(w) ==> r_start.contains(w) || (nbrs(g@, v).contains(w) && (outside ==> !skip@.contains(w))),
                forall|jj: int| 0 <= jj < j ==> (outside ==> !skip@.contains(#[trigger] nb@[jj])) ==> r@.contains(nb@[jj]),
                forall|w: Vx| #[trigger] r@.contains(w) ==> w < g.spec_n() && g@.dom().contains(w),
            decreases nb@.len() - j,
        {
            let w = nb[j];
            proof {
                assert(nb@.to_set().contains(nb@[j as int]));
                assert(has_edge(g@, v, w));
            }
            let ghost rb = r@;
            if !outside || !skip.contains(w) {
                r.insert(w);
            }
            proof {
                assert forall|u: Vx| #[trigger] r@.contains(u) implies r_start.contains(u) || (nbrs(g@, v).contains(u) && (outside ==> !skip@.contains(u))) by {
                    if u != w {
                        assert(rb.contains(u));
                    }
                }
                assert forall|u: Vx| #[trigger] r@.contains(u) implies u < g.spec_n() && g@.dom().contains(u) by {
                    if u != w {
                        assert(rb.contains(u));
                    }
                }
                assert forall|jj: int| 0 <= jj < j + 1 implies (outside ==> !skip@.contains(#[trigger] nb@[jj])) ==> r@.contains(nb@[jj]) by {
                    if jj < j && (outside ==> !skip@.contains(nb@[jj])) {
                        assert(rb.contains(nb@[jj]));
                    }
                }
            }
            j = j + 1;
        }
        proof {
            let pre = xs@.subrange(0, i as int);
            let post = xs@.subrange(0, i + 1);
            assert(post == pre.push(v));
            lemma_to_set_push(pre, v);
            assert forall|w: Vx| #[trigger] r@.contains(w) <==> neighbourhood(g@, post.to_set()).contains(w) && (outside ==> !skip@.contains(w)) by {
                if r@.contains(w) {
                    if r_start.contains(w) {
                        assert(neighbourhood(g@, pre.to_set()).contains(w));
                        let y = choose|y: Vx| pre.to_set().contains(y) && has_edge(g@, y, w);
                        assert(post.to_set().contains(y));
                    } else {
                        assert(has_edge(g@, v, w));
                        assert(post.to_set().contains(v));
                    }
                }
                if neighbourhood(g@, post.to_set()).contains(w) && (outside ==> !skip@.contains(w)) {
                    let y = choose|y: Vx| post.to_set().contains(y) && has_edge(g@, y, w);
                    if y == v {
                        assert(nb@.to_set().contains(w));
                        let jj = choose|jj: int| 0 <= jj < nb@.len() && nb@[jj] == w;
                        assert((outside ==> !skip@.contains(nb@[jj])) ==> r@.contains(nb@[jj]));
                    } else {
                        assert(pre.to_set().contains(y));
                        assert(neighbourhood(g@, pre.to_set()).contains(w));
                        assert(r_start.contains(w));
                    }
                }
            }
        }
        i = i + 1;
    }
    proof {
        assert(xs@.subrange(0, i as int) == xs@);
    }
    r
}

/// `i0` is the first constraint of `s` that `seen` does not hold.
pub open spec fn first_open(seen: Set<usize>, s: &State, i0: usize) -> bool {
    &&& i0 < s.constraints_vec@.len()
    &&& !seen.contains(i0)
    &&& forall|j: usize| j < i0 ==> #[trigger] seen.contains(j)
}

/// The constraint `i0` of `s` is the first that `seen` leaves open, may
/// take no more vertices, and no edge joins two of its vertices.
pub open spec fn exhausted_clean(seen: Set<usize>, s: &State, i0: usize) -> bool {
    &&& first_open(seen, s, i0)
    &&& s.diff_vec@[i0 as int] == 0
    &&& !inner_edge(s.graph@, s.constraints_vec@[i0 as int]@)
}

/// The vertices outside the constraint `c` that see more than `k` of its
/// vertices in `g`.
pub open spec fn overloaded(g: Map<Vx, Set<Vx>>, c: Set<Vx>, k: usize) -> Set<Vx> {
    neighbourhood(g, c).filter(|u: Vx| !c.contains(u) && common_fits(g, c, k, true, u))
}

/// Two vertices of `c` are adjacent in `g`.
pub open spec fn inner_edge(g: Map<Vx, Set<Vx>>, c: Set<Vx>) -> bool {
    exists|a: Vx, b: Vx| c.contains(a) && c.contains(b) && a < b && #[trigger] has_edge(g, a, b)
}

/// How many entries of `sol` lie in `s`.
pub open spec fn hits_in(sol: Seq<Vx>, s: Set<Vx>) -> nat
    decreases sol.len(),
{
    if sol.len() == 0 {
        0
    } else {
        hits_in(sol.drop_last(), s) + if s.contains(sol.last()) { 1nat } else { 0nat }
    }
}

/// `d` less one for each entry of `sol` that `s` holds; `None` where that
/// would go below zero.
fn budget_left(sol: &Vec<Vx>, s: &IdSet, d: usize) -> (r: Option<usize>)
    ensures
        match r {
            Some(x) => hits_in(sol@, s@) <= d && x == d - hits_in(sol@, s@),
            None => hits_in(sol@, s@) > d,
        },
{
    let mut diff = d;
    let mut i: usize = 0;
    while i < sol.len()
        invariant
            i <= sol@.len(),
            hits_in(sol@.subrange(0, i as int), s@) <= d,
            diff == d - hits_in(sol@.subrange(0, i as int), s@),
        decreases sol@.len() - i,
    {
        proof {
            assert(sol@.subrange(0, i + 1).drop_last() == sol@.subrange(0, i as int));
        }
        if s.contains(sol[i]) {
            if diff == 0 {
                proof {
                    assert(sol@.subrange(0, i + 1).last() == sol@[i as int]);
                    assert(hits_in(sol@.subrange(0, i + 1), s@) == d + 1);
                    lemma_hits_prefix(sol@, s@, i + 1, sol@.len() as int);
                    assert(sol@.subrange(0, sol@.len() as int) == sol@);
                }
                return None;
            }
            diff = diff - 1;
        }
        i = i + 1;
    }
    proof {
        assert(sol@.subrange(0, i as int) == sol@);
    }
    Some(diff)
}

/// Counting over a longer prefix counts at least as many.
proof fn lemma_hits_prefix(sol: Seq<Vx>, s: Set<Vx>, a: int, b: int)
    requires
        0 <= a <= b <= sol.len(),
    ensures
        hits_in(sol.subrange(0, a), s) <= hits_in(sol.subrange(0, b), s),
    decreases b - a,
{
    if a < b {
        lemma_hits_prefix(sol, s, a, b - 1);
        assert(sol.subrange(0, b).drop_last() == sol.subrange(0, b - 1));
    }
}

/// Whether two entries of `xs` are adjacent in `g`.
fn has_inner_edge(g: &Graph, xs: &Vec<Vx>) -> (r: bool)
    requires
        g.wf(),
    ensures
        r == exists|a: int, b: int| 0 <= a < xs@.len() && 0 <= b < xs@.len() && xs@[a] < xs@[b] && #[trigger] has_edge(g@, xs@[a], xs@[b]),
{
    let mut i: usize = 0;
    while i < xs.len()
        invariant
            g.wf(),
            i <= xs@.len(),
            forall|a: int, b: int| 0 <= a < i && 0 <= b < xs@.len() && xs@[a] < xs@[b] ==> !#[trigger] has_edge(g@, xs@[a], xs@[b]),
        decreases xs@.len() - i,
    {
        let mut j: usize = 0;
        while j < xs.len()
            invariant
                g.wf(),
                i < xs@.len(),
                j <= xs@.len(),
                forall|a: int, b: int| 0 <= a < i && 0 <= b < xs@.len() && xs@[a] < xs@[b] ==> !#[trigger] has_edge(g@, xs@[a], xs@[b]),
                forall|b: int| 0 <= b < j && xs@[i as int] < xs@[b] ==> !#[trigger] has_edge(g@, xs@[i as int], xs@[b]),
            decreases xs@.len() - j,
        {
            if xs[i] < xs[j] && g.get_edge(xs[i], xs[j]) {
                return true;
            }
            j = j + 1;
        }
        i = i + 1;
    }
    false
}

/// The neighbourhood of `u` in `g` meets `s` in more than `k` vertices
/// (with `more`), or in at most `k` (without).
pub open spec fn common_fits(g: Map<Vx, Set<Vx>>, s: Set<Vx>, k: usize, more: bool, u: Vx) -> bool {
    (g[u].intersect(s).len() > k) == more
}

/// The candidates `u` of `cand` (vertices of `g`) whose neighbourhood
/// meets `s` in more than `k` vertices (with `more`), or in at most `k`
/// (without), in the order of `cand`.
fn filter_by_common(g: &Graph, cand: &Vec<Vx>, s: &IdSet, k: usize, more: bool) -> (r: Vec<Vx>)
    requires
        g.wf(),
        forall|j: int| 0 <= j < cand@.len() ==> g@.dom().contains(#[trigger] cand@[j]),
    ensures
        forall|j: int| 0 <= j < r@.len() ==> cand@.contains(#[trigger] r@[j]),
        r@.len() <= cand@.len(),
        cand@.no_duplicates() ==> r@.no_duplicates(),
        r@ == cand@.filter(|u: Vx| common_fits(g@, s@, k, more, u)),
{
    let mut r: Vec<Vx> = Vec::new();
    let mut j: usize = 0;
    let nn = g.n();
    proof {
        g.lemma_simple();
    }
    while j < cand.len()
        invariant
            g.wf(),
            nn == g.spec_n(),
            nn < u32::MAX,
            simple_graph(g@, g.spec_n()),
            j <= cand@.len(),
            forall|jj: int| 0 <= jj < cand@.len() ==> g@.dom().contains(#[trigger] cand@[jj]),
            forall|jj: int| 0 <= jj < r@.len() ==> exists|t: int| 0 <= t < j && cand@[t] == #[trigger] r@[jj],
            r@.len() <= j,
            cand@.no_duplicates() ==> r@.no_duplicates(),
            r@ == cand@.subrange(0, j as int).filter(|u: Vx| common_fits(g@, s@, k, more, u)),
        decreases cand@.len() - j,
    {
        let u = cand[j];
        proof {
            assert(cand@.subrange(0, j + 1).drop_last() == cand@.subrange(0, j as int));
            assert(g@.dom().contains(cand@[j as int]));
            reveal_with_fuel(Seq::filter, 1);
        }
        match g.neighbours_hashset(u) {
            Some(nu) => {
                proof {
                    assert forall|x: usize| nu@.contains(x) implies x < nn by {
                        assert(g@[u].contains(x));
                    }
                    lemma_bounded_set_len(nu@, nn);
                }
                if has_more_common(nu, s, k) == more {
                    let ghost r0 = r@;
                    r.push(u);
                    proof {
                        assert forall|jj: int| 0 <= jj < r@.len() implies exists|t: int| 0 <= t < j + 1 && cand@[t] == #[trigger] r@[jj] by {
                            if jj < r0.len() {
                                let t = choose|t: int| 0 <= t < j && cand@[t] == r0[jj];
                                assert(cand@[t] == r@[jj]);
                            } else {
                                assert(cand@[j as int] == r@[jj]);
                            }
                        }
                        if cand@.no_duplicates() {
                            assert forall|a: int, b: int| 0 <= a < b < r@.len() implies r@[a] != r@[b] by {
                                if b == r0.len() {
                                    let t = choose|t: int| 0 <= t < j && cand@[t] == r0[a];
                                    assert(cand@[t] != cand@[j as int]);
                                } else {
                                    assert(r0[a] != r0[b]);
                                }
                            }
                        }
                    }
                }
            },
            None => {},
        }
        j = j + 1;
    }
    proof {
        assert forall|jj: int| 0 <= jj < r@.len() implies cand@.contains(#[trigger] r@[jj]) by {
            let t = choose|t: int| 0 <= t < j && cand@[t] == r@[jj];
        }
        assert(cand@.subrange(0, j as int) == cand@);
    }
    r
}

impl Idea for ConstraintReductions {
    open spec fn inv(&self, n: nat) -> bool {
        true
    }

    open spec fn pending(&self, dirty: Set<Vx>) -> bool {
        dirty.len() > 0
    }

    fn new(g: &Graph) -> (r: Self)
        ensures
            r.0@ == Set::<usize>::empty(),
    {
        ConstraintReductions(IdSet::empty())
    }

    fn priority(&self, state: &State, dirty: &IdSet) -> (r: usize)
        ensures
            r == (if dirty@.len() > 0 { 2usize } else { 0 }),
    {
        if dirty.len() == 0 {
            return 0;
        }
        2
    }

    /// Goes through the constraints it has not settled, in order. One with
    /// no budget left is settled: `None` where an edge joins two of its
    /// vertices, else each neighbour that sees only one of its vertices
    /// gets a constraint on its neighbours outside it and its
    /// neighbourhood, its neighbours join the solution, and it leaves the
    /// graph. One with budget `k` puts into the solution every outside
    /// vertex that sees more than `k` of its vertices, each with a
    /// constraint on its neighbours. `None` also where the solution, a
    /// budget, or the room of a new constraint runs out.
    fn apply(&mut self, state: &mut State, dirty: &IdSet) -> (r: Option<()>)
        ensures
            r is Some ==> progressed(old(state), final(state))
                || (unchanged_but_dirty(old(state), final(state)) && final(self).aux(final(state)) < old(self).aux(old(state)))
                || (unchanged(old(state), final(state)) && final(self).aux(final(state)) <= old(self).aux(old(state))),
            final(state).cleanup_funcs == old(state).cleanup_funcs,
            crate::state::cover_safe(old(state), final(state)),
            forall|i0: usize| #[trigger] first_open(old(self).0@, old(state), i0) && old(state).diff_vec@[i0 as int] == 0
                && inner_edge(old(state).graph@, old(state).constraints_vec@[i0 as int]@) ==> r is None
                    && *final(state) == *old(state) && final(self).0@ == old(self).0@.insert(i0),
            r is None ==> exists|j: usize| j < old(state).constraints_vec@.len() && !(#[trigger] old(self).0@.contains(j)),
            (forall|j: usize| j < old(state).constraints_vec@.len() ==> #[trigger] old(self).0@.contains(j))
                ==> r is Some && *final(state) == *old(state) && final(self).0@ == old(self).0@,
            forall|i0: usize| #[trigger] exhausted_clean(old(self).0@, old(state), i0) && r is Some ==> {
                &&& final(self).0@.contains(i0)
                &&& old(state).constraints_vec@[i0 as int]@.disjoint(final(state).graph@.dom())
                &&& neighbourhood(old(state).graph@, old(state).constraints_vec@[i0 as int]@).subset_of(final(state).solution@.to_set())
            },
            forall|i0: usize| #[trigger] first_open(old(self).0@, old(state), i0) && old(state).diff_vec@[i0 as int] > 0 && r is Some
                ==> overloaded(old(state).graph@, old(state).constraints_vec@[i0 as int]@, old(state).diff_vec@[i0 as int])
                    .subset_of(final(state).solution@.to_set()),
    {
        let len0 = state.constraints_vec.len();
        let ghost s0 = *state;
        let ghost self0 = self.0@;
        let ghost mut newly = false;
        let ghost mut wit: usize = 0;
        proof {
            lemma_reduced_refl(state);
            crate::state::lemma_cover_safe_refl(state);
            crate::state::lemma_from_graph_same(state, state);
        }
        let mut i: usize = 0;
        while i < len0
            invariant
                state.wf(),
                s0.wf(),
                s0 == *old(state),
                crate::state::cover_safe(&s0, state),
                crate::state::from_graph(&s0, state),
                state.cleanup_funcs == s0.cleanup_funcs,
                self0 == old(self).0@,
                len0 == s0.constraints_vec@.len(),
                len0 <= state.constraints_vec@.len(),
                i <= len0,
                reduced(&s0, state),
                self0.subset_of(self.0@),
                forall|j: usize| #[trigger] self.0@.contains(j) && !self0.contains(j) ==> j < i,
                forall|i0: usize| #[trigger] exhausted_clean(self0, &s0, i0) && i0 < i ==> {
                    &&& self.0@.contains(i0)
                    &&& s0.constraints_vec@[i0 as int]@.disjoint(state.graph@.dom())
                    &&& neighbourhood(s0.graph@, s0.constraints_vec@[i0 as int]@).subset_of(state.solution@.to_set())
                },
                forall|i0: usize| #[trigger] first_open(self0, &s0, i0) && s0.diff_vec@[i0 as int] > 0 && i0 < i
                    ==> overloaded(s0.graph@, s0.constraints_vec@[i0 as int]@, s0.diff_vec@[i0 as int]).subset_of(state.solution@.to_set()),
                !progressed(&s0, state) ==> unchanged_but_dirty(&s0, state),
                !newly ==> self.0@ == self0,
                !newly && !progressed(&s0, state) ==> *state == s0,
                newly ==> wit < len0 && !self0.contains(wit) && self.0@.contains(wit),
                (forall|j: usize| j < i ==> #[trigger] self0.contains(j)) ==> *state == s0 && self.0@ == self0,
                forall|i0: usize| #[trigger] first_open(self0, &s0, i0) && s0.diff_vec@[i0 as int] == 0
                    && inner_edge(s0.graph@, s0.constraints_vec@[i0 as int]@) ==> i <= i0,
            decreases len0 - i,
        {
            if self.0.contains(i) {
                proof {
                    if forall|j: usize| j < i ==> #[trigger] self0.contains(j) {
                        assert forall|j: usize| j < i + 1 implies #[trigger] self0.contains(j) by {
                            if j == i {
                                assert(self.0@.contains(i));
                            }
                        }
                    }
                    assert forall|i0: usize| #[trigger] first_open(self0, &s0, i0) && s0.diff_vec@[i0 as int] == 0
                        && inner_edge(s0.graph@, s0.constraints_vec@[i0 as int]@) implies i + 1 <= i0 by {
                        if i0 == i {
                            assert(forall|j: usize| j < i ==> #[trigger] self0.contains(j));
                            assert(self.0@ == self0);
                        }
                    }
                    assert forall|i0: usize| #[trigger] exhausted_clean(self0, &s0, i0) && i0 < i + 1 implies {
                        &&& self.0@.contains(i0)
                        &&& s0.constraints_vec@[i0 as int]@.disjoint(state.graph@.dom())
                        &&& neighbourhood(s0.graph@, s0.constraints_vec@[i0 as int]@).subset_of(state.solution@.to_set())
                    } by {
                        if i0 == i {
                            assert(self.0@.contains(i));
                            assert(!self0.contains(i));
                        }
                    }
                    assert forall|i0: usize| #[trigger] first_open(self0, &s0, i0) && s0.diff_vec@[i0 as int] > 0 && i0 < i + 1
                        implies overloaded(s0.graph@, s0.constraints_vec@[i0 as int]@, s0.diff_vec@[i0 as int]).subset_of(state.solution@.to_set()) by {
                        if i0 == i {
                            assert(self.0@.contains(i));
                            assert(!self0.contains(i));
                        }
                    }
                }
                i = i + 1;
                continue;
            }
            let ghost fresh = forall|j: usize| j < i ==> #[trigger] self0.contains(j);
            let ghost seen_start = self.0@;
            proof {
                assert(!self0.contains(i));
                assert forall|i0: usize| #[trigger] first_open(self0, &s0, i0) && s0.diff_vec@[i0 as int] == 0
                    && inner_edge(s0.graph@, s0.constraints_vec@[i0 as int]@) implies i0 == i && fresh by {
                    if i0 != i {
                        assert(i < i0);
                        assert(self0.contains(i));
                    }
                }
            }
            let k = state.diff_vec[i];
            let set = state.constraints_vec[i].duplicate();
            let ghost before = *state;
            let n = state.graph.n();
            proof {
                state.graph.lemma_simple();
                assert forall|x: usize| set@.contains(x) implies x < n by {
                    assert(state.constraints_vec@[i as int]@.contains(x));
                }
            }
            if k == 0 {
                let ghost sb = self.0@;
                self.0.insert(i);
                proof {
                    newly = true;
                    wit = i;
                    assert(self0.subset_of(self.0@));
                    assert forall|j: usize| #[trigger] self.0@.contains(j) && !self0.contains(j) implies j < i + 1 by {
                        if j != i {
                            assert(sb.contains(j));
                        }
                    }
                }
                let set_e = set.elements();
                proof {
                    if fresh && s0.diff_vec@[i as int] == 0 && inner_edge(s0.graph@, s0.constraints_vec@[i as int]@) {
                        let (a, b) = choose|a: Vx, b: Vx| s0.constraints_vec@[i as int]@.contains(a) && s0.constraints_vec@[i as int]@.contains(b)
                            && a < b && #[trigger] has_edge(s0.graph@, a, b);
                        assert(set_e@.to_set().contains(a) && set_e@.to_set().contains(b));
                        let ia = choose|ia: int| 0 <= ia < set_e@.len() && set_e@[ia] == a;
                        let ib = choose|ib: int| 0 <= ib < set_e@.len() && set_e@[ib] == b;
                        assert(set_e@[ia] < set_e@[ib] && has_edge(state.graph@, set_e@[ia], set_e@[ib]));
                    }
                }
                if has_inner_edge(&state.graph, &set_e) {
                    proof {
                        assert forall|i0: usize| #[trigger] first_open(self0, &s0, i0) && s0.diff_vec@[i0 as int] == 0
                            && inner_edge(s0.graph@, s0.constraints_vec@[i0 as int]@)
                            implies *state == s0 && self.0@ == self0.insert(i0) by {
                            assert(i0 == i && fresh);
                            assert(sb == self0);
                        }
                    }
                    return None;
                }
                proof {
                    assert forall|i0: usize| #[trigger] first_open(self0, &s0, i0) && s0.diff_vec@[i0 as int] == 0
                        && inner_edge(s0.graph@, s0.constraints_vec@[i0 as int]@) implies false by {
                        assert(i0 == i && fresh);
                    }
                }
                let n_s = neighbours_of(&state.graph, &set_e, &set, false);
                let ce = n_s.elements();
                proof {
                    assert forall|j: int| 0 <= j < ce@.len() implies state.graph@.dom().contains(#[trigger] ce@[j]) by {
                        assert(ce@.to_set().contains(ce@[j]));
                        assert(n_s@.contains(ce@[j]));
                    }
                }
                let kept = filter_by_common(&state.graph, &ce, &set, 1, false);
                let mut t: usize = 0;
                while t < kept.len()
                    invariant
                        state.wf(),
                        n == state.graph.spec_n(),
                        t <= kept@.len(),
                        forall|j: int| 0 <= j < kept@.len() ==> ce@.contains(#[trigger] kept@[j]),
                        ce@.to_set() == n_s@,
                        forall|w: Vx| #[trigger] n_s@.contains(w) ==> w < n,
                        forall|x: usize| #[trigger] set@.contains(x) ==> x < n,
                        set_e@.to_set() == set@,
                        state.graph == before.graph,
                        state.solution == before.solution,
                        state.upper_bound == before.upper_bound,
                        state.dirty == before.dirty,
                        before.constraints_vec@.len() <= state.constraints_vec@.len(),
                        t == 0 ==> *state == before,
                        crate::state::cover_safe(&s0, &before),
                        crate::state::cover_safe(&s0, state),
                        crate::state::from_graph(&s0, &before),
                        state.cleanup_funcs == s0.cleanup_funcs,
                        before.cleanup_funcs == s0.cleanup_funcs,
                        s0 == *old(state),
                        reduced(&s0, &before),
                        i < len0,
                        !self0.contains(i),
                        self0 == old(self).0@,
                        len0 == s0.constraints_vec@.len(),
                        forall|i0: usize| #[trigger] first_open(self0, &s0, i0) && s0.diff_vec@[i0 as int] == 0
                            && inner_edge(s0.graph@, s0.constraints_vec@[i0 as int]@) ==> false,
                    decreases kept@.len() - t,
                {
                    let u = kept[t];
                    let nbu = state.graph.neighbours(u);
                    let mut np = IdSet::from_vec(&nbu);
                    proof {
                        state.graph.lemma_simple();
                        assert(ce@.contains(kept@[t as int]));
                        assert(ce@.to_set().contains(u));
                        assert forall|x: Vx| np@.contains(x) implies x < n by {
                            assert(nbu@.to_set().contains(x));
                            assert(has_edge(state.graph@, u, x));
                        }
                    }
                    let mut q: usize = 0;
                    while q < set_e.len()
                        invariant
                            state.wf(),
                            n == state.graph.spec_n(),
                            q <= set_e@.len(),
                            forall|x: Vx| #[trigger] np@.contains(x) ==> x < n,
                        decreases set_e@.len() - q,
                    {
                        let v = set_e[q];
                        let ghost p0 = np@;
                        np.remove(v);
                        let nv = state.graph.neighbours(v);
                        let mut z: usize = 0;
                        while z < nv.len()
                            invariant
                                z <= nv@.len(),
                                forall|x: Vx| #[trigger] np@.contains(x) ==> x < n,
                            decreases nv@.len() - z,
                        {
                            let ghost p1 = np@;
                            np.remove(nv[z]);
                            proof {
                                assert forall|x: Vx| #[trigger] np@.contains(x) implies x < n by {
                                    assert(p1.contains(x));
                                }
                            }
                            z = z + 1;
                        }
                        proof {
                            assert forall|x: Vx| #[trigger] np@.contains(x) implies x < n by {}
                        }
                        q = q + 1;
                    }
                    proof {
                        assert forall|x: Vx| np@.contains(x) implies x < n by {}
                    }
                    let d1 = match np.len().checked_sub(1) {
                        Some(x) => x,
                        None => {
                            return None;
                        },
                    };
                    let diff = match budget_left(&state.solution, &np, d1) {
                        Some(x) => x,
                        None => {
                            return None;
                        },
                    };
                    let ghost sc = *state;
                    state.add_constraint(np, diff);
                    proof {
                        crate::state::lemma_cover_safe_congr(&s0, &sc, state);
                    }
                    t = t + 1;
                }
                proof {
                    assert(reduced(&before, state)) by {
                        assert(state.solution@.subrange(0, before.solution@.len() as int) =~= before.solution@);
                    }
                }
                let ghost before1 = *state;
                let ns_e = n_s.elements();
                proof {
                    assert forall|j: int| 0 <= j < ns_e@.len() implies ns_e@[j] < state.graph.spec_n() by {
                        assert(ns_e@.to_set().contains(ns_e@[j]));
                    }
                    assert forall|j: int| 0 <= j < set_e@.len() implies set_e@[j] < state.graph.spec_n() by {
                        assert(set_e@.to_set().contains(set_e@[j]));
                    }
                }
                let r1 = state.extend_solution(ns_e);
                proof {
                    lemma_reduced_trans(&s0, &before, &before1);
                    crate::state::lemma_cover_safe_trans(&s0, &before1, state);
                    crate::state::lemma_from_graph_congr(&s0, &before, &before1);
                    if r1 is Some {
                        assert forall|v: Vx| #[trigger] ns_e@.contains(v) implies s0.graph@.dom().contains(v) by {
                            let j = choose|j: int| 0 <= j < ns_e@.len() && ns_e@[j] == v;
                            assert(ns_e@.to_set().contains(v));
                            assert(ce@.to_set().contains(v));
                            let j2 = choose|j2: int| 0 <= j2 < ce@.len() && ce@[j2] == v;
                            assert(before.graph@.dom().contains(ce@[j2]));
                        }
                        crate::state::lemma_from_graph_extend_from(&s0, &before1, state, ns_e@);
                    }
                }
                if r1.is_none() {
                    return None;
                }
                let ghost before2 = *state;
                state.remove_vertices(set_e);
                proof {
                    lemma_reduced_trans(&before, &before1, &before2);
                    lemma_reduced_trans(&before, &before2, state);
                    lemma_reduced_trans(&s0, &before1, &before2);
                    assert forall|v: Vx| #[trigger] set_e@.to_set().contains(v) implies !before2.graph@.dom().contains(v) by {
                        let g = before1.graph@;
                        if before2.graph@.dom().contains(v) {
                            assert(g[v].difference(ns_e@.to_set()) =~= Set::<Vx>::empty()) by {
                                assert forall|w: Vx| g[v].contains(w) implies ns_e@.to_set().contains(w) by {
                                    assert(has_edge(g, v, w));
                                    assert(neighbourhood(g, set_e@.to_set()).contains(w));
                                    assert(n_s@.contains(w));
                                }
                            }
                        }
                    }
                    before2.graph.lemma_simple();
                    crate::graph::lemma_without_absent(before2.graph@, before2.graph.spec_n(), set_e@.to_set());
                    crate::state::lemma_cover_safe_same(&before2, state);
                    if r1 is Some {
                        crate::state::lemma_from_graph_congr(&s0, &before2, state);
                    }
                    crate::state::lemma_cover_safe_trans(&s0, &before2, state);
                    if ns_e@.len() == 0 {
                        assert(ns_e@.to_set() =~= Set::<Vx>::empty());
                        assert(n_s@ =~= Set::<Vx>::empty());
                        assert(kept@.len() == 0) by {
                            if kept@.len() > 0 {
                                assert(ce@.contains(kept@[0]));
                                assert(ce@.to_set().contains(kept@[0]));
                            }
                        }
                        assert(before1 == before);
                        let g = before.graph@;
                        before.graph.lemma_simple();
                        crate::graph::lemma_without_set_insert(g, before.graph.spec_n(), Set::empty(), 0);
                        assert(before2.graph@ == g);
                        assert(before2.solution@ =~= before.solution@);
                        assert forall|w: Vx| !neighbourhood(g, set_e@.to_set()).contains(w) by {
                            if neighbourhood(g, set_e@.to_set()).contains(w) {
                                assert(n_s@.contains(w));
                            }
                        }
                        assert(state.graph@.dom() =~= g.dom()) by {
                            assert forall|v: Vx| g.dom().contains(v) implies state.graph@.dom().contains(v) by {
                                assert(!set_e@.to_set().contains(v)) by {
                                    if set_e@.to_set().contains(v) {
                                        crate::graph::lemma_nonempty_choose(g[v]);
                                        assert(neighbourhood(g, set_e@.to_set()).contains(g[v].choose()));
                                    }
                                }
                                assert(g[v].difference(set_e@.to_set()) =~= g[v]) by {
                                    assert forall|w: Vx| g[v].contains(w) implies !set_e@.to_set().contains(w) by {
                                        if set_e@.to_set().contains(w) {
                                            assert(has_edge(g, w, v));
                                            assert(neighbourhood(g, set_e@.to_set()).contains(v));
                                        }
                                    }
                                }
                            }
                        }
                        assert(unchanged_but_dirty(&before, state));
                    } else {
                        assert(progressed(&before, &before2));
                    }
                }
                proof {
                    if exhausted_clean(self0, &s0, i) {
                        assert(fresh);
                        assert(before == s0);
                        assert(set_e@.to_set() == s0.constraints_vec@[i as int]@);
                        assert forall|v: Vx| s0.constraints_vec@[i as int]@.contains(v) implies !state.graph@.dom().contains(v) by {
                            assert(set_e@.to_set().contains(v));
                            assert(!before2.graph@.dom().contains(v));
                        }
                        assert forall|w: Vx| neighbourhood(s0.graph@, s0.constraints_vec@[i as int]@).contains(w)
                            implies state.solution@.to_set().contains(w) by {
                            assert(n_s@.contains(w));
                            assert(ns_e@.to_set().contains(w));
                            let k = choose|k: int| 0 <= k < ns_e@.len() && ns_e@[k] == w;
                            assert(state.solution@[before1.solution@.len() + k] == w);
                        }
                    }
                }
            } else {
                proof {
                    assert forall|i0: usize| #[trigger] first_open(self0, &s0, i0) && s0.diff_vec@[i0 as int] == 0
                        && inner_edge(s0.graph@, s0.constraints_vec@[i0 as int]@) implies false by {
                        assert(i0 == i && fresh);
                    }
                }
                let set_e = set.elements();
                let cand = neighbours_of(&state.graph, &set_e, &set, true);
                let ce = cand.elements();
                proof {
                    assert forall|j: int| 0 <= j < ce@.len() implies state.graph@.dom().contains(#[trigger] ce@[j]) by {
                        assert(ce@.to_set().contains(ce@[j]));
                        assert(cand@.contains(ce@[j]));
                    }
                    lemma_reduced_refl(state);
                }
                let kept = filter_by_common(&state.graph, &ce, &set, k, true);
                let mut t: usize = 0;
                while t < kept.len()
                    invariant
                        state.wf(),
                        n == state.graph.spec_n(),
                        t <= kept@.len(),
                        forall|j: int| 0 <= j < kept@.len() ==> ce@.contains(#[trigger] kept@[j]),
                        ce@.to_set() == cand@,
                        forall|w: Vx| #[trigger] cand@.contains(w) ==> w < n,
                        reduced(&before, state),
                        before.wf(),
                        t > 0 ==> progressed(&before, state),
                        t == 0 ==> *state == before,
                        s0 == *old(state),
                        s0.wf(),
                        reduced(&s0, &before),
                        crate::state::cover_safe(&s0, state),
                        crate::state::from_graph(&s0, state),
                        forall|j: int| 0 <= j < ce@.len() ==> before.graph@.dom().contains(#[trigger] ce@[j]),
                        state.cleanup_funcs == s0.cleanup_funcs,
                        i < len0,
                        !self0.contains(i),
                        self0 == old(self).0@,
                        len0 == s0.constraints_vec@.len(),
                        forall|i0: usize| #[trigger] first_open(self0, &s0, i0) && s0.diff_vec@[i0 as int] == 0
                            && inner_edge(s0.graph@, s0.constraints_vec@[i0 as int]@) ==> false,
                        forall|j: int| 0 <= j < t ==> state.solution@.to_set().contains(#[trigger] kept@[j]),
                    decreases kept@.len() - t,
                {
                    let u = kept[t];
                    let ghost sol_t = state.solution@;
                    proof {
                        assert(ce@.contains(kept@[t as int]));
                        assert(ce@.to_set().contains(u));
                    }
                    let nbu = state.graph.neighbours(u);
                    let nset = IdSet::from_vec(&nbu);
                    proof {
                        state.graph.lemma_simple();
                        assert forall|x: Vx| nset@.contains(x) implies x < n by {
                            assert(nbu@.to_set().contains(x));
                            assert(has_edge(state.graph@, u, x));
                        }
                    }
                    let d1 = match nset.len().checked_sub(2) {
                        Some(x) => x,
                        None => {
                            return None;
                        },
                    };
                    let diff = match budget_left(&state.solution, &nset, d1) {
                        Some(x) => x,
                        None => {
                            return None;
                        },
                    };
                    let ghost b0 = *state;
                    state.add_constraint(nset, diff);
                    let ghost b1 = *state;
                    let r2 = state.add_to_solution(u);
                    proof {
                        assert(reduced(&b0, &b1)) by {
                            assert(b1.solution@.subrange(0, b0.solution@.len() as int) =~= b0.solution@);
                        }
                        lemma_reduced_trans(&b0, &b1, state);
                        lemma_reduced_trans(&before, &b0, state);
                        lemma_reduced_trans(&s0, &before, &b0);
                        lemma_reduced_trans(&s0, &b0, &b1);
                        crate::state::lemma_cover_safe_congr(&s0, &b0, &b1);
                        crate::state::lemma_cover_safe_trans(&s0, &b1, state);
                        assert(s0.graph@.dom().contains(u)) by {
                            let j2 = choose|j2: int| 0 <= j2 < ce@.len() && ce@[j2] == u;
                            assert(before.graph@.dom().contains(ce@[j2]));
                        }
                        assert forall|v: Vx| #[trigger] seq![u].contains(v) implies s0.graph@.dom().contains(v) by {
                            let j = choose|j: int| 0 <= j < 1 && seq![u][j] == v;
                        }
                        assert(state.solution@ =~= b1.solution@ + seq![u]);
                        crate::state::lemma_from_graph_congr(&s0, &b0, &b1);
                        crate::state::lemma_from_graph_extend_from(&s0, &b1, state, seq![u]);
                    }
                    if r2.is_none() {
                        return None;
                    }
                    proof {
                        assert(state.solution@ == b1.solution@.push(u));
                        assert(b1.solution@ == sol_t);
                        assert forall|j: int| 0 <= j < t + 1 implies state.solution@.to_set().contains(#[trigger] kept@[j]) by {
                            if j < t {
                                assert(sol_t.to_set().contains(kept@[j]));
                                let q = choose|q: int| 0 <= q < sol_t.len() && sol_t[q] == kept@[j];
                                assert(state.solution@[q] == kept@[j]);
                            } else {
                                assert(state.solution@[sol_t.len() as int] == u);
                            }
                        }
                    }
                    t = t + 1;
                }
                proof {
                    if fresh {
                        assert(before == s0);
                        assert(set_e@.to_set() == s0.constraints_vec@[i as int]@);
                        assert forall|w: Vx| overloaded(s0.graph@, s0.constraints_vec@[i as int]@, s0.diff_vec@[i as int]).contains(w)
                            implies state.solution@.to_set().contains(w) by {
                            assert(cand@.contains(w));
                            assert(ce@.to_set().contains(w));
                            assert(common_fits(before.graph@, set@, k, true, w));
                            assert(ce@.filter(|u: Vx| common_fits(before.graph@, set@, k, true, u)).contains(w));
                            assert(kept@.contains(w));
                            let j = choose|j: int| 0 <= j < kept@.len() && kept@[j] == w;
                            assert(state.solution@.to_set().contains(kept@[j]));
                        }
                    }
                }
            }
            proof {
                if progressed(&before, state) {
                    lemma_reduced_trans(&s0, &before, state);
                } else {
                    lemma_reduced_trans(&s0, &before, state);
                }
                assert(seen_start.subset_of(self.0@));
                assert forall|i0: usize| #[trigger] exhausted_clean(self0, &s0, i0) && i0 < i + 1 implies {
                    &&& self.0@.contains(i0)
                    &&& s0.constraints_vec@[i0 as int]@.disjoint(state.graph@.dom())
                    &&& neighbourhood(s0.graph@, s0.constraints_vec@[i0 as int]@).subset_of(state.solution@.to_set())
                } by {
                    if i0 < i {
                        let c = s0.constraints_vec@[i0 as int]@;
                        assert(c.disjoint(before.graph@.dom()));
                        assert(neighbourhood(s0.graph@, c).subset_of(before.solution@.to_set()));
                        assert forall|w: Vx| before.solution@.to_set().contains(w) implies state.solution@.to_set().contains(w) by {
                            let k = choose|k: int| 0 <= k < before.solution@.len() && before.solution@[k] == w;
                            assert(state.solution@.subrange(0, before.solution@.len() as int)[k] == w);
                        }
                    } else {
                        assert(first_open(self0, &s0, i0));
                        assert(fresh);
                    }
                }
                assert forall|i0: usize| #[trigger] first_open(self0, &s0, i0) && s0.diff_vec@[i0 as int] > 0 && i0 < i + 1
                    implies overloaded(s0.graph@, s0.constraints_vec@[i0 as int]@, s0.diff_vec@[i0 as int]).subset_of(state.solution@.to_set()) by {
                    if i0 < i {
                        assert(overloaded(s0.graph@, s0.constraints_vec@[i0 as int]@, s0.diff_vec@[i0 as int]).subset_of(before.solution@.to_set()));
                        assert forall|w: Vx| before.solution@.to_set().contains(w) implies state.solution@.to_set().contains(w) by {
                            let k = choose|k: int| 0 <= k < before.solution@.len() && before.solution@[k] == w;
                            assert(state.solution@.subrange(0, before.solution@.len() as int)[k] == w);
                        }
                    } else {
                        assert(fresh);
                        assert(before == s0);
                    }
                }
            }
            i = i + 1;
        }
        proof {
            if !progressed(&s0, state) {
                if newly {
                    let o0 = old(self).open_constraints(&s0);
                    let o1 = self.open_constraints(state);
                    assert(o1.subset_of(o0));
                    assert(o0.contains(wit));
                    assert(!o1.contains(wit));
                    lemma_bounded_set_len(o0, len0);
                    o1.lemma_subset_not_in_lt(o0, wit);
                } else {
                    lemma_reduced_refl(&s0);
                    assert(self.0@ =~= old(self).0@);
                    assert(self.open_constraints(state) =~= old(self).open_constraints(&s0));
                }
            }
        }
        Some(())
    }
}

} // verus!
