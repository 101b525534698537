//! The residual digraph of a 0/1 flow.

use vstd::prelude::*;
use crate::graph::{Vx, Edge};
use super::digraph::Digraph;

verus! {

/// The capacity of the arc `e` in the flow network whose source is `s`:
/// unbounded between the two copies of the graph, one elsewhere.
pub open spec fn cap_of(e: Edge, s: Vx) -> int {
    if e.0 < s && e.1 < s { usize::MAX as int } else { 1 }
}

/// The arcs of the residual digraph of `arcs` under the 0/1 flow `f` and
/// the capacities `cap`: an arc stays where its flow is below its capacity,
/// and is reversed where it carries flow.
pub open spec fn residual_with(arcs: Set<Edge>, f: Set<Edge>, cap: spec_fn(Edge) -> int) -> Set<Edge> {
    Set::new(|e: Edge|
        (arcs.contains(e) && (if f.contains(e) { 1int } else { 0int }) < cap(e))
        || (arcs.contains((e.1, e.0)) && f.contains((e.1, e.0))))
}

/// The residual arcs under the capacities that `caps` lists.
pub open spec fn residual_by(arcs: Set<Edge>, f: Set<Edge>, caps: Map<Edge, usize>) -> Set<Edge> {
    residual_with(arcs, f, |e: Edge| caps[e] as int)
}

/// The residual arcs of the flow network whose source is `s`.
pub open spec fn residual_arcs(arcs: Set<Edge>, f: Set<Edge>, s: Vx) -> Set<Edge> {
    residual_with(arcs, f, |e: Edge| cap_of(e, s))
}

/// Whether `f` lists the arc `e`.
pub fn contains_arc(f: &Vec<Edge>, e: Edge) -> (r: bool)
    ensures
        r == f@.contains(e),
{
    let mut k: usize = 0;
    while k < f.len()
        invariant
            k <= f@.len(),
            forall|j: int| 0 <= j < k ==> f@[j] != e,
        decreases f@.len() - k,
    {
        let a = f[k];
        if a.0 == e.0 && a.1 == e.1 {
            proof {
                assert(f@[k as int] == e);
            }
            return true;
        }
        k = k + 1;
    }
    false
}

impl Digraph {
    /// The residual digraph under the 0/1 flow `f`, where `cap` gives the
    /// capacity of each arc: the capacities it returned, arc by arc, decide
    /// which arcs stay.
    pub fn residual<Cap: Fn(Edge) -> usize>(&self, f: &Vec<Edge>, cap: Cap) -> (r: Digraph)
        requires
            self.wf(),
            forall|e: Edge| #[trigger] self@.contains(e) ==> call_requires(cap, (e,)),
        ensures
            r.wf(),
            r.n == self.n,
            exists|caps: Map<Edge, usize>| {
                &&& forall|e: Edge| #[trigger] self@.contains(e) ==> caps.dom().contains(e) && call_ensures(cap, (e,), caps[e])
                &&& r@ == #[trigger] residual_by(self@, f@.to_set(), caps)
            },
    {
        let es = self.edges();
        let mut out: Vec<Edge> = Vec::new();
        let ghost mut caps: Map<Edge, usize> = Map::empty();
        let mut k: usize = 0;
        while k < es.len()
            invariant
                self.wf(),
                k <= es@.len(),
                es@.to_set() == self@,
                es@.no_duplicates(),
                forall|e: Edge| #[trigger] self@.contains(e) ==> call_requires(cap, (e,)),
                forall|i: int| 0 <= i < out@.len() ==> (#[trigger] out@[i]).0 < self.n && out@[i].1 < self.n,
                forall|e: Edge| #[trigger] es@.subrange(0, k as int).to_set().contains(e) ==> caps.dom().contains(e) && call_ensures(cap, (e,), caps[e]),
                forall|e: Edge| out@.contains(e) <==> #[trigger] residual_by(es@.subrange(0, k as int).to_set(), f@.to_set(), caps).contains(e),
            decreases es@.len() - k,
        {
            let (u, v) = es[k];
            proof {
                assert(es@.to_set().contains(es@[k as int]));
            }
            let current_flow: usize = if contains_arc(f, (u, v)) { 1 } else { 0 };
            let c: usize = cap((u, v));
            let ghost caps0 = caps;
            proof {
                caps = caps.insert((u, v), c);
            }
            let ghost o0 = out@;
            if current_flow < c {
                out.push((u, v));
            }
            let ghost o1 = out@;
            if current_flow > 0 {
                out.push((v, u));
            }
            proof {
                let pre = es@.subrange(0, k as int);
                let post = es@.subrange(0, k + 1);
                assert(post == pre.push((u, v)));
                crate::graph::lemma_to_set_push(pre, (u, v));
                assert(!pre.to_set().contains((u, v))) by {
                    if pre.to_set().contains((u, v)) {
                        let j = choose|j: int| 0 <= j < pre.len() && pre[j] == (u, v);
                        assert(es@[j] == es@[k as int]);
                    }
                }
                assert(f@.to_set().contains((u, v)) == f@.contains((u, v)));
                assert forall|e: Edge| #[trigger] post.to_set().contains(e) implies caps.dom().contains(e) && call_ensures(cap, (e,), caps[e]) by {
                    if e != (u, v) {
                        assert(pre.to_set().contains(e));
                    }
                }
                assert forall|e: Edge| out@.contains(e) <==> #[trigger] residual_by(post.to_set(), f@.to_set(), caps).contains(e) by {
                    assert(o0.contains(e) <==> residual_by(pre.to_set(), f@.to_set(), caps0).contains(e));
                    if pre.to_set().contains(e) {
                        assert(caps[e] == caps0[e]);
                    }
                    if o1.len() > o0.len() {
                        crate::graph::lemma_push_contains(o0, (u, v), e);
                    }
                    if out@.len() > o1.len() {
                        crate::graph::lemma_push_contains(o1, (v, u), e);
                    }
                    assert(f@.to_set().contains((e.1, e.0)) == f@.contains((e.1, e.0)));
                    assert(f@.to_set().contains(e) == f@.contains(e));
                }
                assert forall|i: int| 0 <= i < out@.len() implies (#[trigger] out@[i]).0 < self.n && out@[i].1 < self.n by {
                    if i < o0.len() {
                        assert(out@[i] == o0[i]);
                    } else if i < o1.len() {
                        assert(out@[i] == o1[i]);
                    }
                }
            }
            k = k + 1;
        }
        proof {
            assert(es@.subrange(0, k as int) == es@);
            assert(out@.to_set() =~= residual_by(self@, f@.to_set(), caps)) by {
                assert forall|e: Edge| out@.to_set().contains(e) <==> residual_by(self@, f@.to_set(), caps).contains(e) by {
                    assert(residual_by(es@.subrange(0, k as int).to_set(), f@.to_set(), caps).contains(e) <==> out@.contains(e));
                }
            }
            assert forall|e: Edge| #[trigger] self@.contains(e) implies caps.dom().contains(e) && call_ensures(cap, (e,), caps[e]) by {
                assert(es@.subrange(0, k as int).to_set().contains(e));
            }
        }
        let r = Digraph::new(self.n, out);
        proof {
            assert(r@ == residual_by(self@, f@.to_set(), caps));
        }
        r
    }
}

} // verus!
