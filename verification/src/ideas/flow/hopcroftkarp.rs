//! Maximum matchings in bipartite graphs by Hopcroft and Karp's method.

use vstd::prelude::*;
use std::collections::VecDeque;
use crate::idset::IdSet;
use vstd::set_lib::*;
use crate::graph::{Vx, Edge, Graph, has_edge, nbrs, lemma_bounded_set_len, lemma_contains_len};

verus! {

broadcast use vstd::set_lib::range_set_properties;

/// The working data of the search: `pair[x]` is the partner of `x`,
/// `dist[x]` its layer, and `dist[n]` the layer of the free end ("NIL").
pub struct Temp {
    pub pair: Vec<Option<Vx>>,
    pub dist: Vec<Option<u32>>,
}

/// The index that `u` stands for: `u` itself, or `n` for the free end.
pub open spec fn slot(u: Option<Vx>, n: int) -> int {
    match u {
        Some(x) => x as int,
        None => n,
    }
}

/// Every edge of `g` has exactly one end point in `l`.
pub open spec fn bipartite(g: Map<Vx, Set<Vx>>, l: Set<Vx>) -> bool {
    forall|u: Vx, v: Vx| #[trigger] has_edge(g, u, v) ==> (l.contains(u) != l.contains(v))
}

/// The left side and the free end.
pub open spec fn layered(l: Set<Vx>, n: nat) -> Set<Vx> {
    l.insert(n as usize)
}

/// `x + y`, where both are finite.
pub open spec fn add_spec(x: Option<u32>, y: Option<u32>) -> Option<u32> {
    match (x, y) {
        (Some(a), Some(b)) => Some((a + b) as u32),
        _ => None,
    }
}

impl Temp {
    /// The layer of `u` (of the free end for `None`).
    pub fn dist(&self, u: Option<Vx>) -> (r: Option<u32>)
        requires
            self.dist@.len() >= 1,
            0 <= slot(u, self.dist@.len() - 1) < self.dist@.len(),
        ensures
            r == self.dist@[slot(u, self.dist@.len() - 1)],
    {
        let n = self.dist.len() - 1;
        let index = match u {
            Some(x) => x,
            None => n,
        };
        self.dist[index]
    }

    /// Sets the layer of `u` (of the free end for `None`).
    pub fn set_dist(&mut self, u: Option<Vx>, dist: Option<u32>)
        requires
            old(self).dist@.len() >= 1,
            0 <= slot(u, old(self).dist@.len() - 1) < old(self).dist@.len(),
        ensures
            final(self).pair == old(self).pair,
            final(self).dist@ == old(self).dist@.update(slot(u, old(self).dist@.len() - 1), dist),
    {
        let n = self.dist.len() - 1;
        let index = match u {
            Some(x) => x,
            None => n,
        };
        self.dist.set(index, dist);
    }

    /// The shape of the data for a graph on `n` ids with left side `l`:
    /// partners are neighbours, the right side has no layer, and every
    /// layer is below the number of layered places.
    pub open spec fn inv(&self, g: Map<Vx, Set<Vx>>, l: Set<Vx>, n: nat) -> bool {
        &&& self.pair@.len() == n
        &&& self.dist@.len() == n + 1
        &&& forall|x: int| 0 <= x < n && #[trigger] self.pair@[x] is Some ==> self.pair@[x]->0 < n
            && has_edge(g, x as usize, self.pair@[x]->0)
        &&& forall|x: Vx| x < n && !l.contains(x) ==> #[trigger] self.dist@[x as int] is None
        &&& forall|x: Vx| layered(l, n).contains(x) && #[trigger] self.dist@[x as int] is Some
            ==> self.dist@[x as int]->0 < layered(l, n).len()
    }
}

/// The left side holds ids below `n` and `g` is bipartite with it.
pub open spec fn side_ok(g: Map<Vx, Set<Vx>>, l: Set<Vx>, n: nat) -> bool {
    &&& forall|x: Vx| #[trigger] l.contains(x) ==> x < n
    &&& bipartite(g, l)
}

/// The layered places that have a layer.
pub open spec fn some_slots(dist: Seq<Option<u32>>, l: Set<Vx>, n: nat) -> Set<Vx> {
    layered(l, n).filter(|x: Vx| dist[x as int] is Some)
}

/// The ids below `pair.len()` without a partner.
pub open spec fn free_set(pair: Seq<Option<Vx>>) -> Set<Vx> {
    Set::new(|x: Vx| x < pair.len() && pair[x as int] is None)
}

/// The layer of `u` where it has one (zero otherwise).
pub open spec fn layer_of(dist: Seq<Option<u32>>, u: Option<Vx>) -> int {
    match u {
        Some(x) => match dist[x as int] {
            Some(d) => d as int,
            None => 0,
        },
        None => 0,
    }
}

/// How far `u` is below the top layer: the recursion of the depth-first
/// search climbs one layer per call.
pub open spec fn dfs_measure(dist: Seq<Option<u32>>, l: Set<Vx>, n: nat, u: Option<Vx>) -> int {
    match u {
        Some(x) => match dist[x as int] {
            Some(d) => layered(l, n).len() - d,
            None => 0,
        },
        None => 0,
    }
}

/// The layered places are finite and at most `n + 1`; at most `n` where
/// some id below `n` lies outside the left side.
proof fn lemma_layered(l: Set<Vx>, n: nat, v: Vx)
    requires
        n < usize::MAX,
        forall|x: Vx| #[trigger] l.contains(x) ==> x < n,
    ensures
        layered(l, n).finite(),
        layered(l, n).len() <= n + 1,
        v < n && !l.contains(v) ==> layered(l, n).len() <= n,
{
    let r = Set::<usize>::range(0, (n + 1) as usize);
    assert forall|x: usize| layered(l, n).contains(x) implies r.contains(x) by {
        if l.contains(x) {
        }
    }
    assert(layered(l, n).subset_of(r));
    lemma_set_subset_finite(r, layered(l, n));
    lemma_len_subset(layered(l, n), r);
    if v < n && !l.contains(v) {
        assert(layered(l, n).subset_of(r.remove(v)));
        lemma_len_subset(layered(l, n), r.remove(v));
    }
}

/// The ids without a partner are finite.
proof fn lemma_free_finite(pair: Seq<Option<Vx>>)
    requires
        pair.len() <= usize::MAX,
    ensures
        free_set(pair).finite(),
{
    assert forall|x: usize| free_set(pair).contains(x) implies x < pair.len() as usize by {}
    lemma_bounded_set_len(free_set(pair), pair.len() as usize);
}

/// The places with a layer are finite and lie among the layered places.
proof fn lemma_some_slots(dist: Seq<Option<u32>>, l: Set<Vx>, n: nat)
    requires
        layered(l, n).finite(),
    ensures
        some_slots(dist, l, n).finite(),
        some_slots(dist, l, n).subset_of(layered(l, n)),
        some_slots(dist, l, n).len() <= layered(l, n).len(),
{
    lemma_set_subset_finite(layered(l, n), some_slots(dist, l, n));
    lemma_len_subset(some_slots(dist, l, n), layered(l, n));
}

/// Giving a layer to a layered place without one adds it to the places
/// with a layer.
proof fn lemma_some_slots_set(dist: Seq<Option<u32>>, l: Set<Vx>, n: nat, t: Vx, d: u32)
    requires
        layered(l, n).finite(),
        layered(l, n).contains(t),
        forall|x: Vx| #[trigger] l.contains(x) ==> x < n,
        dist.len() == n + 1,
        dist[t as int] is None,
    ensures
        some_slots(dist.update(t as int, Some(d)), l, n) == some_slots(dist, l, n).insert(t),
        some_slots(dist.update(t as int, Some(d)), l, n).len() == some_slots(dist, l, n).len() + 1,
{
    let upd = dist.update(t as int, Some(d));
    assert forall|x: Vx| #[trigger] some_slots(upd, l, n).contains(x) <==> some_slots(dist, l, n).insert(t).contains(x) by {
        if layered(l, n).contains(x) {
            assert(x < dist.len());
            if x != t {
                assert(upd[x as int] == dist[x as int]);
            }
        }
    }
    assert(some_slots(upd, l, n) =~= some_slots(dist, l, n).insert(t));
    lemma_some_slots(dist, l, n);
}

/// The breadth-first phase: free left vertices get layer zero, and each
/// place reached along an alternating path the layer after its
/// predecessor's. Says whether the free end was reached.
fn bfs(g: &Graph, temp: &mut Temp, ls: &Vec<Vx>) -> (r: bool)
    requires
        g.wf(),
        ls@.no_duplicates(),
        side_ok(g@, ls@.to_set(), g.spec_n()),
        old(temp).inv(g@, ls@.to_set(), g.spec_n()),
    ensures
        final(temp).inv(g@, ls@.to_set(), g.spec_n()),
        final(temp).pair == old(temp).pair,
        r == (final(temp).dist@[g.spec_n() as int] is Some),
{
    let ghost l = ls@.to_set();
    let ghost nn = g.spec_n();
    let ghost pair0 = temp.pair;
    let n = temp.dist.len() - 1;
    proof {
        g.lemma_simple();
        lemma_layered(l, nn, 0);
    }
    let mut queue: VecDeque<Vx> = VecDeque::new();
    let mut i: usize = 0;
    while i < ls.len()
        invariant
            g.wf(),
            nn == g.spec_n(),
            n == nn,
            nn < usize::MAX,
            l == ls@.to_set(),
            ls@.no_duplicates(),
            side_ok(g@, l, nn),
            i <= ls@.len(),
            temp.pair == pair0,
            pair0 == old(temp).pair,
            old(temp).inv(g@, l, nn),
            temp.pair@.len() == nn,
            temp.dist@.len() == nn + 1,
            forall|x: Vx| x < nn && !l.contains(x) ==> #[trigger] temp.dist@[x as int] is None,
            forall|j: int| 0 <= j < i ==> #[trigger] temp.dist@[ls@[j] as int] == (if temp.pair@[ls@[j] as int] is None { Some(0u32) } else { None::<u32> }),
            forall|k: int| 0 <= k < queue@.len() ==> l.contains(#[trigger] queue@[k]) && temp.dist@[queue@[k] as int] is Some
                && temp.pair@[queue@[k] as int] is None,
        decreases ls@.len() - i,
    {
        let u = ls[i];
        proof {
            assert(l.contains(ls@[i as int]));
        }
        let ghost before = temp.dist@;
        if temp.pair[u].is_none() {
            temp.dist.set(u, Some(0));
            queue.push_back(u);
        } else {
            temp.dist.set(u, None);
        }
        proof {
            assert forall|j: int| 0 <= j < i + 1 implies #[trigger] temp.dist@[ls@[j] as int] == (if temp.pair@[ls@[j] as int] is None { Some(0u32) } else { None::<u32> }) by {
                if j < i {
                    assert(ls@[j] != ls@[i as int]);
                    assert(ls@.contains(ls@[j]));
                    assert(l.contains(ls@[j]));
                    assert(before[ls@[j] as int] == (if temp.pair@[ls@[j] as int] is None { Some(0u32) } else { None::<u32> }));
                    assert(temp.dist@[ls@[j] as int] == before[ls@[j] as int]);
                } else {
                    assert(ls@[j] == u);
                }
            }
        }
        i = i + 1;
    }
    temp.dist.set(n, None);
    proof {
        lemma_some_slots(temp.dist@, l, nn);
        assert forall|x: Vx| layered(l, nn).contains(x) && #[trigger] temp.dist@[x as int] is Some
            implies temp.dist@[x as int]->0 < some_slots(temp.dist@, l, nn).len() by {
            assert(x != nn);
            assert(l.contains(x));
            let j = choose|j: int| 0 <= j < ls@.len() && ls@[j] == x;
            assert(temp.dist@[ls@[j] as int] == (if temp.pair@[ls@[j] as int] is None { Some(0u32) } else { None::<u32> }));
            assert(some_slots(temp.dist@, l, nn).contains(x));
            lemma_contains_len(some_slots(temp.dist@, l, nn), x);
        }
        assert forall|x: Vx| x < nn && !l.contains(x) implies #[trigger] temp.dist@[x as int] is None by {
            assert(old(temp).dist@[x as int] is None);
        }
    }
    loop
        invariant
            g.wf(),
            nn == g.spec_n(),
            n == nn,
            nn < usize::MAX,
            l == ls@.to_set(),
            side_ok(g@, l, nn),
            temp.pair == pair0,
            pair0 == old(temp).pair,
            old(temp).inv(g@, l, nn),
            temp.pair@.len() == nn,
            temp.dist@.len() == nn + 1,
            layered(l, nn).finite(),
            layered(l, nn).len() <= nn + 1,
            some_slots(temp.dist@, l, nn).len() <= layered(l, nn).len(),
            forall|x: Vx| x < nn && !l.contains(x) ==> #[trigger] temp.dist@[x as int] is None,
            forall|x: Vx| layered(l, nn).contains(x) && #[trigger] temp.dist@[x as int] is Some
                ==> temp.dist@[x as int]->0 < some_slots(temp.dist@, l, nn).len(),
            forall|k: int| 0 <= k < queue@.len() ==> l.contains(#[trigger] queue@[k]) && temp.dist@[queue@[k] as int] is Some,
        decreases 2 * (layered(l, nn).len() - some_slots(temp.dist@, l, nn).len()) + queue@.len(),
    {
        let ghost m0 = 2 * (layered(l, nn).len() - some_slots(temp.dist@, l, nn).len()) + queue@.len();
        let o = queue.pop_front();
        let u = match o {
            None => {
                break;
            },
            Some(u) => u,
        };
        proof {
            assert(l.contains(u));
        }
        let nb = g.neighbours(u);
        let mut j: usize = 0;
        while j < nb.len()
            invariant
                g.wf(),
                nn == g.spec_n(),
                n == nn,
                nn < usize::MAX,
                l == ls@.to_set(),
                side_ok(g@, l, nn),
                temp.pair == pair0,
                pair0 == old(temp).pair,
                old(temp).inv(g@, l, nn),
                temp.pair@.len() == nn,
                temp.dist@.len() == nn + 1,
                layered(l, nn).finite(),
                layered(l, nn).len() <= nn + 1,
                some_slots(temp.dist@, l, nn).len() <= layered(l, nn).len(),
                forall|x: Vx| x < nn && !l.contains(x) ==> #[trigger] temp.dist@[x as int] is None,
                forall|x: Vx| layered(l, nn).contains(x) && #[trigger] temp.dist@[x as int] is Some
                    ==> temp.dist@[x as int]->0 < some_slots(temp.dist@, l, nn).len(),
                forall|k: int| 0 <= k < queue@.len() ==> l.contains(#[trigger] queue@[k]) && temp.dist@[queue@[k] as int] is Some,
                l.contains(u),
                temp.dist@[u as int] is Some,
                nb@.to_set() == nbrs(g@, u),
                j <= nb@.len(),
                2 * (layered(l, nn).len() - some_slots(temp.dist@, l, nn).len()) + queue@.len() < m0,
            decreases nb@.len() - j,
        {
            let v = nb[j];
            proof {
                assert(nb@.to_set().contains(nb@[j as int]));
                assert(has_edge(g@, u, v));
                assert(l.contains(u) != l.contains(v));
                g.lemma_simple();
            }
            let p = temp.pair[v];
            proof {
                if let Some(y) = p {
                    assert(temp.pair@[v as int] is Some);
                    assert(has_edge(g@, v, y));
                    assert(l.contains(v) != l.contains(y));
                }
            }
            if temp.dist(p).is_none() {
                let ghost t: Vx = slot(p, nn as int) as Vx;
                proof {
                    assert(layered(l, nn).contains(t));
                    lemma_some_slots(temp.dist@, l, nn);
                    assert(some_slots(temp.dist@, l, nn).contains(u));
                    lemma_contains_len(some_slots(temp.dist@, l, nn), u);
                    assert(!some_slots(temp.dist@, l, nn).contains(t));
                    assert(some_slots(temp.dist@, l, nn).insert(t).subset_of(layered(l, nn)));
                    lemma_len_subset(some_slots(temp.dist@, l, nn).insert(t), layered(l, nn));
                }
                let d = self::add(temp.dist(Some(u)), Some(1));
                let ghost before = temp.dist@;
                temp.set_dist(p, d);
                proof {
                    lemma_some_slots_set(before, l, nn, t, d->0);
                    assert(temp.dist@ == before.update(t as int, Some(d->0)));
                    lemma_some_slots(temp.dist@, l, nn);
                }
                if let Some(partner) = p {
                    queue.push_back(partner);
                }
            }
            j = j + 1;
        }
    }
    let r = temp.dist(None).is_some();
    proof {
        lemma_some_slots(temp.dist@, l, nn);
    }
    r
}

/// Whether two layers are equal.
pub(crate) fn same_layer(a: Option<u32>, b: Option<u32>) -> (r: bool)
    ensures
        r == (a == b),
{
    match (a, b) {
        (Some(x), Some(y)) => x == y,
        (None, None) => true,
        _ => false,
    }
}

/// The depth-first phase from `u`: follows edges to places one layer up,
/// and where such a path reaches the free end, flips the partners along
/// it. A vertex from which no path leads loses its layer. A vertex
/// without a layer leads nowhere (the free end has one in this phase).
fn dfs(g: &Graph, u_: Option<Vx>, temp: &mut Temp, Ghost(l): Ghost<Set<Vx>>) -> (r: bool)
    requires
        g.wf(),
        side_ok(g@, l, g.spec_n()),
        old(temp).inv(g@, l, g.spec_n()),
        old(temp).dist@[g.spec_n() as int] is Some,
        u_ matches Some(u) ==> l.contains(u),
    ensures
        final(temp).inv(g@, l, g.spec_n()),
        final(temp).dist@[g.spec_n() as int] == old(temp).dist@[g.spec_n() as int],
        forall|x: int|
            0 <= x <= g.spec_n() && #[trigger] old(temp).dist@[x] is Some && old(temp).dist@[x]->0 < layer_of(old(temp).dist@, u_)
                ==> final(temp).dist@[x] == old(temp).dist@[x],
        free_set(final(temp).pair@).subset_of(free_set(old(temp).pair@)),
        r && u_ is Some ==> !free_set(final(temp).pair@).contains(u_->0),
        u_ is None ==> *final(temp) == *old(temp),
        !r ==> final(temp).pair@ == old(temp).pair@,
        !r && u_ is Some ==> final(temp).dist@[u_->0 as int] is None,
    decreases dfs_measure(old(temp).dist@, l, g.spec_n(), u_),
{
    let u = match u_ {
        None => {
            return true;
        },
        Some(u) => u,
    };
    if temp.dist[u].is_none() {
        return false;
    }
    let ghost nn = g.spec_n();
    let ghost du = temp.dist@[u as int]->0;
    let ghost t0 = *temp;
    let n = temp.dist.len() - 1;
    proof {
        g.lemma_simple();
        lemma_layered(l, nn, 0);
    }
    let nb = g.neighbours(u);
    let mut j: usize = 0;
    while j < nb.len()
        invariant
            g.wf(),
            nn == g.spec_n(),
            n == nn,
            nn < usize::MAX,
            side_ok(g@, l, nn),
            temp.inv(g@, l, nn),
            t0 == *old(temp),
            l.contains(u),
            u_ == Some(u),
            nb@.to_set() == nbrs(g@, u),
            j <= nb@.len(),
            t0.dist@[u as int] == Some(du),
            temp.dist@[u as int] == Some(du),
            temp.dist@[nn as int] == t0.dist@[nn as int],
            t0.dist@[nn as int] is Some,
            forall|x: int|
                0 <= x <= nn && #[trigger] t0.dist@[x] is Some && t0.dist@[x]->0 < du
                    ==> temp.dist@[x] == t0.dist@[x],
            free_set(temp.pair@).subset_of(free_set(t0.pair@)),
            temp.pair@ == t0.pair@,
        decreases nb@.len() - j,
    {
        let v = nb[j];
        proof {
            g.lemma_simple();
            assert(nb@.to_set().contains(nb@[j as int]));
            assert(has_edge(g@, u, v));
            assert(l.contains(u) != l.contains(v));
            lemma_layered(l, nn, v);
            assert(layered(l, nn).contains(u));
        }
        let t = self::add(temp.dist(u_), Some(1));
        let p = temp.pair[v];
        proof {
            if let Some(y) = p {
                assert(temp.pair@[v as int] is Some);
                assert(has_edge(g@, v, y));
                assert(l.contains(v) != l.contains(y));
                assert(layered(l, nn).contains(y));
            }
        }
        if same_layer(temp.dist(p), t) {
            let ghost before = *temp;
            proof {
                if p is Some {
                    assert(layer_of(before.dist@, p) == du + 1);
                }
            }
            if dfs(g, p, temp, Ghost(l)) {
                let ghost mid = temp.pair@;
                temp.pair.set(v, Some(u));
                temp.pair.set(u, Some(v));
                proof {
                    assert(free_set(temp.pair@).subset_of(free_set(mid)));
                    assert(!free_set(temp.pair@).contains(u));
                    assert forall|x: int| 0 <= x < nn && #[trigger] temp.pair@[x] is Some implies temp.pair@[x]->0 < nn
                        && has_edge(g@, x as usize, temp.pair@[x]->0) by {
                        if x != u && x != v {
                            assert(temp.pair@[x] == mid[x]);
                        }
                    }
                    assert forall|x: int|
                        0 <= x <= nn && #[trigger] t0.dist@[x] is Some && t0.dist@[x]->0 < layer_of(t0.dist@, u_)
                            implies temp.dist@[x] == t0.dist@[x] by {
                        assert(before.dist@[x] == t0.dist@[x]);
                    }
                }
                return true;
            }
            proof {
                assert forall|x: int|
                    0 <= x <= nn && #[trigger] t0.dist@[x] is Some && t0.dist@[x]->0 < du
                        implies temp.dist@[x] == t0.dist@[x] by {
                    assert(before.dist@[x] == t0.dist@[x]);
                }
                assert(before.dist@[u as int] == Some(du));
            }
        }
        j = j + 1;
    }
    temp.dist.set(u, None);
    proof {
        assert forall|x: Vx| layered(l, nn).contains(x) && #[trigger] temp.dist@[x as int] is Some
            implies temp.dist@[x as int]->0 < layered(l, nn).len() by {
            assert(x != u);
        }
        assert forall|x: Vx| x < nn && !l.contains(x) implies #[trigger] temp.dist@[x as int] is None by {
            assert(x != u);
        }
    }
    false
}

/// Augments the partners phase by phase until no augmenting path is
/// left. A phase that augments nothing ends the search as well (it would
/// be repeated unchanged).
fn hopcroft_karp(g: &Graph, temp: &mut Temp, ls: &Vec<Vx>)
    requires
        g.wf(),
        ls@.no_duplicates(),
        side_ok(g@, ls@.to_set(), g.spec_n()),
        old(temp).inv(g@, ls@.to_set(), g.spec_n()),
    ensures
        final(temp).inv(g@, ls@.to_set(), g.spec_n()),
{
    let ghost l = ls@.to_set();
    let ghost nn = g.spec_n();
    proof {
        g.lemma_simple();
        lemma_free_finite(temp.pair@);
    }
    loop
        invariant
            g.wf(),
            nn == g.spec_n(),
            l == ls@.to_set(),
            ls@.no_duplicates(),
            side_ok(g@, l, nn),
            temp.inv(g@, l, nn),
        decreases free_set(temp.pair@).len(),
    {
        if !bfs(g, temp, ls) {
            break;
        }
        let ghost f0 = free_set(temp.pair@);
        proof {
            g.lemma_simple();
            lemma_free_finite(temp.pair@);
        }
        let mut progress = false;
        let mut i: usize = 0;
        while i < ls.len()
            invariant
                g.wf(),
                nn == g.spec_n(),
                l == ls@.to_set(),
                ls@.no_duplicates(),
                side_ok(g@, l, nn),
                temp.inv(g@, l, nn),
                temp.dist@[nn as int] is Some,
                i <= ls@.len(),
                f0.finite(),
                free_set(temp.pair@).subset_of(f0),
                progress ==> free_set(temp.pair@).len() < f0.len(),
            decreases ls@.len() - i,
        {
            let u = ls[i];
            proof {
                assert(ls@.contains(ls@[i as int]));
                assert(l.contains(u));
            }
            if temp.pair[u].is_none() {
                let ghost before = free_set(temp.pair@);
                if dfs(g, Some(u), temp, Ghost(l)) {
                    proof {
                        assert(before.contains(u));
                        lemma_set_subset_finite(f0, before);
                        free_set(temp.pair@).lemma_subset_not_in_lt(before, u);
                        lemma_len_subset(before, f0);
                    }
                    progress = true;
                }
                proof {
                    lemma_set_subset_finite(f0, before);
                    lemma_set_subset_finite(before, free_set(temp.pair@));
                    lemma_len_subset(free_set(temp.pair@), before);
                }
            }
            i = i + 1;
        }
        if !progress {
            break;
        }
    }
}

/// The end of `e` that lies on the left side `l`.
pub open spec fn left_end(e: Edge, l: Set<Vx>) -> Vx {
    if l.contains(e.0) { e.0 } else { e.1 }
}

/// The end of `e` on the right side.
pub open spec fn right_end(e: Edge, l: Set<Vx>) -> Vx {
    if l.contains(e.0) { e.1 } else { e.0 }
}

/// A maximum matching of the bipartite graph `g` with left side `l`, by
/// Hopcroft and Karp's method: each edge once, as (smaller, larger) end
/// point, and each vertex of either side in at most one edge. A left
/// vertex's edge is listed where its partner names it back, as the
/// method keeps it.
pub fn max_matching_bipartite(g: &Graph, l: &IdSet) -> (r: Vec<Edge>)
    requires
        g.wf(),
        side_ok(g@, l@, g.spec_n()),
    ensures
        r@.no_duplicates(),
        forall|k: int| 0 <= k < r@.len() ==> (#[trigger] r@[k]).0 < r@[k].1 && has_edge(g@, r@[k].0, r@[k].1)
            && l@.contains(r@[k].0) != l@.contains(r@[k].1),
        forall|a: int, b: int| 0 <= a < b < r@.len() ==> left_end(#[trigger] r@[a], l@) != left_end(#[trigger] r@[b], l@),
        forall|a: int, b: int| 0 <= a < b < r@.len() ==> right_end(#[trigger] r@[a], l@) != right_end(#[trigger] r@[b], l@),
{
    let n = g.n();
    let mut pair: Vec<Option<Vx>> = Vec::new();
    let mut i: usize = 0;
    while i < n
        invariant
            i <= n,
            pair@.len() == i,
            forall|x: int| 0 <= x < i ==> #[trigger] pair@[x] is None,
        decreases n - i,
    {
        pair.push(None);
        i = i + 1;
    }
    let mut dist: Vec<Option<u32>> = Vec::new();
    proof {
        g.lemma_simple();
    }
    let mut i: usize = 0;
    while i <= n
        invariant
            i <= n + 1,
            n < usize::MAX,
            dist@.len() == i,
            forall|x: int| 0 <= x < i ==> #[trigger] dist@[x] is None,
        decreases n + 1 - i,
    {
        dist.push(None);
        i = i + 1;
    }
    let mut temp = Temp { pair, dist };
    let ls = l.elements();
    proof {
        assert(temp.inv(g@, ls@.to_set(), g.spec_n()));
    }
    hopcroft_karp(g, &mut temp, &ls);
    let mut r: Vec<Edge> = Vec::new();
    let mut i: usize = 0;
    while i < ls.len()
        invariant
            g.wf(),
            ls@.to_set() == l@,
            ls@.no_duplicates(),
            side_ok(g@, l@, g.spec_n()),
            temp.inv(g@, l@, g.spec_n()),
            i <= ls@.len(),
            forall|k: int| 0 <= k < r@.len() ==> (#[trigger] r@[k]).0 < r@[k].1 && has_edge(g@, r@[k].0, r@[k].1)
                && l@.contains(r@[k].0) != l@.contains(r@[k].1),
            forall|k: int| 0 <= k < r@.len() ==> exists|j: int| 0 <= j < i && #[trigger] ls@[j] == left_end(#[trigger] r@[k], l@),
            forall|a: int, b: int| 0 <= a < b < r@.len() ==> left_end(#[trigger] r@[a], l@) != left_end(#[trigger] r@[b], l@),
            forall|k: int| 0 <= k < r@.len() ==> right_end(#[trigger] r@[k], l@) < g.spec_n()
                && temp.pair@[right_end(r@[k], l@) as int] == Some(left_end(r@[k], l@)),
        decreases ls@.len() - i,
    {
        let u = ls[i];
        proof {
            assert(ls@.contains(ls@[i as int]));
            assert(l@.contains(u));
        }
        let pu = temp.pair[u];
        let back = match pu {
            Some(partner) => temp.pair[partner] == Some(u),
            None => false,
        };
        if let (Some(partner), true) = (pu, back) {
            proof {
                assert(temp.pair@[u as int] is Some);
                g.lemma_simple();
                assert(has_edge(g@, u, partner));
                assert(l@.contains(u) != l@.contains(partner));
            }
            let e = if u < partner { (u, partner) } else { (partner, u) };
            proof {
                assert(left_end(e, l@) == u);
                assert forall|k: int| 0 <= k < r@.len() implies left_end(#[trigger] r@[k], l@) != u by {
                    let j = choose|j: int| 0 <= j < i && #[trigger] ls@[j] == left_end(r@[k], l@);
                    assert(ls@[j] != ls@[i as int]);
                }
            }
            r.push(e);
            proof {
                assert forall|k: int| 0 <= k < r@.len() implies exists|j: int| 0 <= j < i + 1 && #[trigger] ls@[j] == left_end(#[trigger] r@[k], l@) by {
                    if k < r@.len() - 1 {
                        let j = choose|j: int| 0 <= j < i && #[trigger] ls@[j] == left_end(r@[k], l@);
                        assert(0 <= j < i + 1 && ls@[j] == left_end(r@[k], l@));
                    } else {
                        assert(ls@[i as int] == left_end(r@[k], l@));
                    }
                }
                assert(right_end(e, l@) == partner);
            }
        }
        i = i + 1;
    }
    proof {
        assert forall|a: int, b: int| 0 <= a < b < r@.len() implies right_end(#[trigger] r@[a], l@) != right_end(#[trigger] r@[b], l@) by {
            assert(left_end(r@[a], l@) != left_end(r@[b], l@));
        }
        assert forall|a: int, b: int| 0 <= a < r@.len() && 0 <= b < r@.len() && a != b implies r@[a] != r@[b] by {
            if a < b {
                assert(left_end(r@[a], l@) != left_end(r@[b], l@));
            } else {
                assert(left_end(r@[b], l@) != left_end(r@[a], l@));
            }
        }
    }
    r
}

/// `x + y`, where both are finite.
pub fn add(x_: Option<u32>, y_: Option<u32>) -> (r: Option<u32>)
    requires
        x_ matches Some(a) ==> (y_ matches Some(b) ==> a + b <= u32::MAX),
    ensures
        r == add_spec(x_, y_),
{
    if let (Some(x), Some(y)) = (x_, y_) {
        return Some(x + y);
    }
    None
}

} // verus!
