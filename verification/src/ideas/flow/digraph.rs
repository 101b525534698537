//! Directed graphs on the ids `0..n`, kept as successor and predecessor
//! sets per vertex.

use vstd::prelude::*;
use crate::idset::IdSet;
use crate::graph::{Vx, Edge, lemma_to_set_push, lemma_bounded_set_len};

verus! {

/// A directed graph on the ids `0..n`.
pub struct Digraph {
    pub n: usize,
    pub succ: Vec<IdSet>,
    pub pred: Vec<IdSet>,
}

/// The pairs `(u, y)` for the `y` of `s`.
pub open spec fn pairs_from(u: Vx, s: Seq<Vx>) -> Set<Edge> {
    Set::new(|e: Edge| e.0 == u && s.contains(e.1))
}

/// `p` is a path along the arcs `arcs`: one or more vertices, each with
/// an arc to the next.
pub open spec fn is_path(arcs: Set<Edge>, p: Seq<Vx>) -> bool {
    &&& p.len() > 0
    &&& forall|i: int| #![trigger p[i]] 0 <= i < p.len() - 1 ==> arcs.contains((p[i], p[i + 1]))
}

/// A path along `arcs` leads from `u` to `w`.
#[verifier::opaque]
pub open spec fn reaches(arcs: Set<Edge>, u: Vx, w: Vx) -> bool {
    exists|p: Seq<Vx>| #[trigger] is_path(arcs, p) && p[0] == u && p.last() == w
}

/// Every vertex reaches itself.
pub proof fn lemma_reaches_refl(arcs: Set<Edge>, u: Vx)
    ensures
        reaches(arcs, u, u),
{
    reveal(reaches);
    assert(is_path(arcs, seq![u]));
}

/// A path to `v` goes on along the arc to `w`.
pub proof fn lemma_reaches_step(arcs: Set<Edge>, u: Vx, v: Vx, w: Vx)
    requires
        reaches(arcs, u, v),
        arcs.contains((v, w)),
    ensures
        reaches(arcs, u, w),
{
    reveal(reaches);
    let p = choose|p: Seq<Vx>| #[trigger] is_path(arcs, p) && p[0] == u && p.last() == v;
    let q = p.push(w);
    assert forall|i: int| 0 <= i < q.len() - 1 implies arcs.contains((#[trigger] q[i], q[i + 1])) by {
        if i < p.len() - 1 {
            assert(q[i] == p[i] && q[i + 1] == p[i + 1]);
        }
    }
    assert(is_path(arcs, q));
}

/// The vertices of a path that starts in a set closed under the arcs lie
/// in the set, up to `i`.
proof fn lemma_path_stays(arcs: Set<Edge>, s: Set<Vx>, p: Seq<Vx>, i: int)
    requires
        is_path(arcs, p),
        s.contains(p[0]),
        forall|x: Vx, y: Vx| s.contains(x) && #[trigger] arcs.contains((x, y)) ==> s.contains(y),
        0 <= i < p.len(),
    ensures
        s.contains(p[i]),
    decreases i,
{
    if i > 0 {
        lemma_path_stays(arcs, s, p, i - 1);
        assert(arcs.contains((p[i - 1], p[i])));
    }
}

/// A set that holds `u` and is closed under the arcs holds every vertex
/// that `u` reaches.
pub proof fn lemma_closed_holds_reached(arcs: Set<Edge>, s: Set<Vx>, u: Vx, w: Vx)
    requires
        s.contains(u),
        forall|x: Vx, y: Vx| s.contains(x) && #[trigger] arcs.contains((x, y)) ==> s.contains(y),
        reaches(arcs, u, w),
    ensures
        s.contains(w),
{
    reveal(reaches);
    let p = choose|p: Seq<Vx>| #[trigger] is_path(arcs, p) && p[0] == u && p.last() == w;
    lemma_path_stays(arcs, s, p, p.len() - 1);
}

impl View for Digraph {
    type V = Set<Edge>;

    /// The arcs.
    open spec fn view(&self) -> Set<Edge> {
        Set::new(|e: Edge| e.0 < self.succ@.len() && self.succ@[e.0 as int]@.contains(e.1))
    }
}

impl Digraph {
    /// One successor and one predecessor set per id; both list the same
    /// arcs, and every arc joins ids below `n`.
    pub open spec fn wf(&self) -> bool {
        &&& self.succ@.len() == self.n
        &&& self.pred@.len() == self.n
        &&& forall|u: int, v: Vx| 0 <= u < self.n && #[trigger] self.succ@[u]@.contains(v) ==> v < self.n
        &&& forall|v: int, u: Vx| 0 <= v < self.n && #[trigger] self.pred@[v]@.contains(u) ==> u < self.n
            && self.succ@[u as int]@.contains(v as usize)
        &&& forall|u: int, v: Vx| 0 <= u < self.n && #[trigger] self.succ@[u]@.contains(v) ==> self.pred@[v as int]@.contains(u as usize)
    }

    /// The digraph on the ids `0..n` with the arcs of `edges`.
    pub fn new(n: usize, edges: Vec<Edge>) -> (d: Digraph)
        requires
            forall|i: int| 0 <= i < edges@.len() ==> edges@[i].0 < n && edges@[i].1 < n,
        ensures
            d.wf(),
            d.n == n,
            d@ == edges@.to_set(),
    {
        let mut succ: Vec<IdSet> = Vec::new();
        let mut pred: Vec<IdSet> = Vec::new();
        let mut i: usize = 0;
        while i < n
            invariant
                i <= n,
                succ@.len() == i,
                pred@.len() == i,
                forall|k: int| 0 <= k < i ==> (#[trigger] succ@[k])@ == Set::<Vx>::empty(),
                forall|k: int| 0 <= k < i ==> (#[trigger] pred@[k])@ == Set::<Vx>::empty(),
            decreases n - i,
        {
            succ.push(IdSet::empty());
            pred.push(IdSet::empty());
            i = i + 1;
        }
        let mut d = Digraph { n, succ, pred };
        let mut k: usize = 0;
        proof {
            assert(d@ =~= edges@.subrange(0, 0).to_set());
        }
        while k < edges.len()
            invariant
                d.wf(),
                d.n == n,
                k <= edges@.len(),
                forall|i: int| 0 <= i < edges@.len() ==> edges@[i].0 < n && edges@[i].1 < n,
                d@ == edges@.subrange(0, k as int).to_set(),
            decreases edges@.len() - k,
        {
            let (u, v) = edges[k];
            let ghost d0 = d@;
            let ghost s0 = d.succ@;
            let ghost p0 = d.pred@;
            d.succ[u].insert(v);
            d.pred[v].insert(u);
            proof {
                assert(edges@.subrange(0, k + 1) == edges@.subrange(0, k as int).push((u, v)));
                lemma_to_set_push(edges@.subrange(0, k as int), (u, v));
                assert forall|a: int| 0 <= a < n && a != u implies d.succ@[a] == s0[a] by {}
                assert forall|a: int| 0 <= a < n && a != v implies d.pred@[a] == p0[a] by {}
                assert forall|e: Edge| d@.contains(e) <==> d0.insert((u, v)).contains(e) by {
                    if e.0 < n && e.0 != u {
                        assert(d.succ@[e.0 as int] == s0[e.0 as int]);
                    }
                }
                assert(d@ =~= d0.insert((u, v)));
                assert forall|a: int, b: Vx| 0 <= a < d.n && #[trigger] d.succ@[a]@.contains(b) implies b < d.n && d.pred@[b as int]@.contains(a as usize) by {
                    if a != u || b != v {
                        assert(s0[a]@.contains(b));
                    }
                }
                assert forall|b: int, a: Vx| 0 <= b < d.n && #[trigger] d.pred@[b]@.contains(a) implies a < d.n && d.succ@[a as int]@.contains(b as usize) by {
                    if a != u || b != v {
                        assert(p0[b]@.contains(a));
                    }
                }
            }
            k = k + 1;
        }
        proof {
            assert(edges@.subrange(0, k as int) == edges@);
        }
        d
    }

    /// The vertices with an outgoing arc, in increasing order.
    pub fn vertices(&self) -> (r: Vec<Vx>)
        requires
            self.wf(),
        ensures
            r@.no_duplicates(),
            forall|x: Vx| r@.contains(x) <==> exists|y: Vx| #[trigger] self@.contains((x, y)),
    {
        let mut r: Vec<Vx> = Vec::new();
        let mut u: usize = 0;
        while u < self.n
            invariant
                self.wf(),
                u <= self.n,
                forall|i: int, j: int| 0 <= i < j < r@.len() ==> r@[i] < r@[j],
                forall|i: int| 0 <= i < r@.len() ==> r@[i] < u,
                forall|x: Vx| x < u ==> (r@.contains(x) <==> exists|y: Vx| #[trigger] self@.contains((x, y))),
            decreases self.n - u,
        {
            let ghost r0 = r@;
            if self.succ[u].len() > 0 {
                r.push(u);
                proof {
                    let y = self.succ@[u as int]@.choose();
                    lemma_bounded_set_len(self.succ@[u as int]@, self.n);
                    crate::graph::lemma_nonempty_choose(self.succ@[u as int]@);
                    assert(self@.contains((u, y)));
                }
            } else {
                proof {
                    assert forall|y: Vx| !self@.contains((u, y)) by {
                        if self@.contains((u, y)) {
                            lemma_bounded_set_len(self.succ@[u as int]@, self.n);
                            crate::graph::lemma_contains_len(self.succ@[u as int]@, y);
                        }
                    }
                }
            }
            proof {
                assert forall|x: Vx| x < u + 1 implies (r@.contains(x) <==> exists|y: Vx| #[trigger] self@.contains((x, y))) by {
                    if x < u {
                        if r0.contains(x) {
                            let i = choose|i: int| 0 <= i < r0.len() && r0[i] == x;
                            assert(r@[i] == x);
                        }
                        if r@.contains(x) {
                            let i = choose|i: int| 0 <= i < r@.len() && r@[i] == x;
                            if i < r0.len() {
                                assert(r0[i] == x);
                            }
                        }
                    } else if r@.contains(x) {
                        let i = choose|i: int| 0 <= i < r@.len() && r@[i] == x;
                        if i < r0.len() {
                            assert(r0[i] < u);
                        }
                    } else {
                        if r@.len() > r0.len() {
                            assert(r@[r@.len() - 1] == u);
                        }
                    }
                }
            }
            u = u + 1;
        }
        proof {
            assert forall|x: Vx| r@.contains(x) implies x < self.n by {
                let i = choose|i: int| 0 <= i < r@.len() && r@[i] == x;
            }
            assert forall|x: Vx, y: Vx| self@.contains((x, y)) implies x < self.n by {}
        }
        r
    }

    /// The arcs, each once, by increasing tail.
    pub fn edges(&self) -> (r: Vec<Edge>)
        requires
            self.wf(),
        ensures
            r@.no_duplicates(),
            r@.to_set() == self@,
    {
        let mut r: Vec<Edge> = Vec::new();
        let mut u: usize = 0;
        while u < self.n
            invariant
                self.wf(),
                u <= self.n,
                r@.no_duplicates(),
                forall|i: int| 0 <= i < r@.len() ==> (#[trigger] r@[i]).0 < u,
                r@.to_set() == self@.filter(|e: Edge| e.0 < u),
            decreases self.n - u,
        {
            let ys = self.succ[u].elements();
            let mut j: usize = 0;
            let ghost r0 = r@;
            while j < ys.len()
                invariant
                    self.wf(),
                    u < self.n,
                    j <= ys@.len(),
                    ys@.no_duplicates(),
                    ys@.to_set() == self.succ@[u as int]@,
                    r@.no_duplicates(),
                    r@.len() == r0.len() + j,
                    forall|i: int| 0 <= i < r0.len() ==> r@[i] == r0[i],
                    forall|i: int| 0 <= i < r0.len() ==> (#[trigger] r0[i]).0 < u,
                    forall|i: int| r0.len() <= i < r@.len() ==> (#[trigger] r@[i]) == (u, ys@[i - r0.len()]),
                    r@.to_set() == r0.to_set().union(pairs_from(u, ys@.subrange(0, j as int))),
                decreases ys@.len() - j,
            {
                let ghost rb = r@;
                r.push((u, ys[j]));
                proof {
                    assert(ys@.subrange(0, j + 1) == ys@.subrange(0, j as int).push(ys@[j as int]));
                    lemma_to_set_push(ys@.subrange(0, j as int), ys@[j as int]);
                    lemma_to_set_push(rb, (u, ys@[j as int]));
                    assert forall|e: Edge| pairs_from(u, ys@.subrange(0, j + 1)).contains(e) <==> pairs_from(u, ys@.subrange(0, j as int)).insert((u, ys@[j as int])).contains(e) by {
                        crate::graph::lemma_push_contains(ys@.subrange(0, j as int), ys@[j as int], e.1);
                    }
                    assert(pairs_from(u, ys@.subrange(0, j + 1)) =~= pairs_from(u, ys@.subrange(0, j as int)).insert((u, ys@[j as int])));
                    assert(r@.to_set() =~= r0.to_set().union(pairs_from(u, ys@.subrange(0, j + 1))));
                    assert(r@.no_duplicates()) by {
                        assert forall|a: int, b: int| 0 <= a < b < r@.len() implies r@[a] != r@[b] by {
                            if b == r@.len() - 1 {
                                if a < r0.len() {
                                    assert(r0[a].0 < u);
                                } else {
                                    assert(rb[a] == (u, ys@[a - r0.len()]));
                                    assert(ys@[a - r0.len()] != ys@[j as int]);
                                }
                            } else {
                                assert(rb[a] != rb[b]);
                            }
                        }
                    }
                }
                j = j + 1;
            }
            proof {
                assert(ys@.subrange(0, j as int) == ys@);
                assert forall|e: Edge| r@.to_set().contains(e) <==> self@.filter(|e: Edge| e.0 < u + 1).contains(e) by {
                    if e.0 == u && self@.contains(e) {
                        assert(ys@.to_set().contains(e.1));
                        assert(ys@.contains(e.1));
                        assert(pairs_from(u, ys@).contains(e));
                    }
                    if pairs_from(u, ys@).contains(e) {
                        assert(ys@.to_set().contains(e.1));
                    }
                    if r0.to_set().contains(e) {
                        let i = choose|i: int| 0 <= i < r0.len() && r0[i] == e;
                        assert(r0[i].0 < u);
                    }
                }
                assert(r@.to_set() =~= self@.filter(|e: Edge| e.0 < u + 1));
                assert forall|i: int| 0 <= i < r@.len() implies (#[trigger] r@[i]).0 < u + 1 by {
                    if i < r0.len() {
                        assert(r@[i] == r0[i]);
                        assert(r0[i].0 < u);
                    }
                }
            }
            u = u + 1;
        }
        proof {
            assert forall|e: Edge| self@.contains(e) implies e.0 < self.n by {}
            assert(self@.filter(|e: Edge| e.0 < u) =~= self@);
        }
        r
    }

    /// The successors of `x`, each once.
    pub fn succ(&self, x: Vx) -> (r: Vec<Vx>)
        requires
            self.wf(),
        ensures
            r@.no_duplicates(),
            forall|y: Vx| r@.contains(y) <==> self@.contains((x, y)),
    {
        if x >= self.n {
            return Vec::new();
        }
        let r = self.succ[x].elements();
        proof {
            assert forall|y: Vx| r@.contains(y) <==> self@.contains((x, y)) by {
                assert(r@.contains(y) <==> r@.to_set().contains(y));
            }
        }
        r
    }

    /// The predecessors of `x`, each once.
    pub fn pred(&self, x: Vx) -> (r: Vec<Vx>)
        requires
            self.wf(),
        ensures
            r@.no_duplicates(),
            forall|y: Vx| r@.contains(y) <==> self@.contains((y, x)),
    {
        if x >= self.n {
            let r: Vec<Vx> = Vec::new();
            proof {
                assert forall|y: Vx| !self@.contains((y, x)) by {
                    if self@.contains((y, x)) {
                        assert(self.succ@[y as int]@.contains(x));
                    }
                }
            }
            return r;
        }
        let r = self.pred[x].elements();
        proof {
            assert forall|y: Vx| r@.contains(y) <==> self@.contains((y, x)) by {
                assert(r@.contains(y) <==> r@.to_set().contains(y));
                if self@.contains((y, x)) {
                    assert(y < self.n);
                    assert(self.succ@[y as int]@.contains(x));
                    assert(self.pred@[x as int]@.contains(y));
                }
                if r@.contains(y) {
                    assert(self.pred@[x as int]@.contains(y));
                    assert(y < self.n && self.succ@[y as int]@.contains(x));
                }
            }
        }
        r
    }

    /// The vertices reachable from `from` along arcs, `from` included: the
    /// result holds `from` and every successor of each of its vertices.
    pub fn reachable(&self, from: Vx) -> (r: IdSet)
        requires
            self.wf(),
        ensures
            r@.contains(from),
            forall|x: Vx, y: Vx| r@.contains(x) && #[trigger] self@.contains((x, y)) ==> r@.contains(y),
            forall|x: Vx| #[trigger] r@.contains(x) ==> x == from || x < self.n,
            forall|x: Vx| #[trigger] r@.contains(x) ==> reaches(self@, from, x),
            forall|x: Vx| reaches(self@, from, x) ==> #[trigger] r@.contains(x),
    {
        let mut hs = IdSet::empty();
        let mut todo = IdSet::empty();
        todo.insert(from);
        proof {
            lemma_reaches_refl(self@, from);
        }
        loop
            invariant
                self.wf(),
                hs@.contains(from) || todo@.contains(from),
                forall|x: Vx| #[trigger] hs@.contains(x) ==> x == from || x < self.n,
                forall|x: Vx| #[trigger] todo@.contains(x) ==> x == from || x < self.n,
                forall|x: Vx, y: Vx| hs@.contains(x) && #[trigger] self@.contains((x, y)) ==> hs@.contains(y) || todo@.contains(y),
                forall|x: Vx| #[trigger] todo@.contains(x) ==> !hs@.contains(x),
                hs@.finite(),
                hs@.len() <= self.n + 1,
                forall|x: Vx| #[trigger] hs@.contains(x) ==> reaches(self@, from, x),
                forall|x: Vx| #[trigger] todo@.contains(x) ==> reaches(self@, from, x),
            ensures
                todo@ == Set::<Vx>::empty(),
            decreases self.n + 1 - hs@.len(),
        {
            let ghost h0 = hs@;
            let ghost t0 = todo@;
            let x = match todo.some_element() {
                None => {
                    break;
                },
                Some(x) => x,
            };
            proof {
                assert(todo@.contains(x));
            }
            todo.remove(x);
            hs.insert(x);
            proof {
                assert forall|z: Vx| #[trigger] todo@.contains(z) implies !hs@.contains(z) by {
                    assert(z != x);
                }
            }
            let ys = self.succ(x);
            let ghost t1 = todo@;
            let mut j: usize = 0;
            while j < ys.len()
                invariant
                    self.wf(),
                    j <= ys@.len(),
                    forall|y: Vx| ys@.contains(y) <==> self@.contains((x, y)),
                    hs@.contains(x),
                    forall|z: Vx| #[trigger] todo@.contains(z) ==> z == from || z < self.n,
                    forall|jj: int| 0 <= jj < j ==> hs@.contains(#[trigger] ys@[jj]) || todo@.contains(ys@[jj]),
                    forall|z: Vx| #[trigger] todo@.contains(z) ==> !hs@.contains(z),
                    hs@.contains(from) || todo@.contains(from),
                    t1.subset_of(todo@),
                    reaches(self@, from, x),
                    forall|z: Vx| #[trigger] todo@.contains(z) ==> reaches(self@, from, z),
                decreases ys@.len() - j,
            {
                let y = ys[j];
                let ghost tb = todo@;
                if !hs.contains(y) {
                    todo.insert(y);
                    proof {
                        assert(ys@.contains(y));
                        assert(self@.contains((x, y)));
                        lemma_reaches_step(self@, from, x, y);
                        assert forall|z: Vx| #[trigger] todo@.contains(z) implies reaches(self@, from, z) by {
                            if z != y {
                                assert(tb.contains(z));
                            }
                        }
                        assert forall|z: Vx| #[trigger] todo@.contains(z) implies (z == from || z < self.n) && !hs@.contains(z) by {
                            if z != y {
                                assert(tb.contains(z));
                            }
                        }
                    }
                }
                proof {
                    assert forall|jj: int| 0 <= jj < j + 1 implies hs@.contains(#[trigger] ys@[jj]) || todo@.contains(ys@[jj]) by {
                        if jj < j && !hs@.contains(ys@[jj]) {
                            assert(tb.contains(ys@[jj]));
                        }
                    }
                }
                j = j + 1;
            }
            proof {
                assert forall|a: Vx, b: Vx| hs@.contains(a) && #[trigger] self@.contains((a, b)) implies hs@.contains(b) || todo@.contains(b) by {
                    if a == x {
                        assert(ys@.contains(b));
                        let jj = choose|jj: int| 0 <= jj < ys@.len() && ys@[jj] == b;
                        assert(hs@.contains(ys@[jj]) || todo@.contains(ys@[jj]));
                    } else {
                        assert(h0.contains(a));
                        assert(h0.contains(b) || t0.contains(b));
                        if t0.contains(b) && b != x {
                            assert(t1.contains(b));
                        }
                    }
                }
                assert(!h0.contains(x));
                assert(hs@ == h0.insert(x));
                assert forall|z: usize| hs@.remove(from).contains(z) implies z < self.n by {}
                lemma_bounded_set_len(hs@.remove(from), self.n);
                assert(hs@.remove(from).len() <= self.n);
                if hs@.contains(from) {
                    assert(hs@.remove(from).len() == hs@.len() - 1);
                } else {
                    assert(hs@.remove(from) == hs@);
                }
            }
        }
        proof {
            assert forall|x: Vx| reaches(self@, from, x) implies #[trigger] hs@.contains(x) by {
                lemma_closed_holds_reached(self@, hs@, from, x);
            }
        }
        hs
    }
}

} // verus!
