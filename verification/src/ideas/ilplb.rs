//! The working data of the matching search on the bipartite double cover
//! of a graph: the left copy holds the ids `0..n`, the right copy the ids
//! `n..2n`.

use vstd::prelude::*;
use std::collections::VecDeque;
use vstd::set_lib::*;
use crate::idset::IdSet;
use crate::state::{State, lb_fits, lemma_reduced_refl};
use crate::idea::Idea;
use crate::graph::{Vx, Graph, has_edge, nbrs, without_set, simple_graph, lemma_bounded_set_len, lemma_contains_len,
    lemma_without_set_insert, lemma_with_edge_edges, lemma_to_set_push};
use crate::ideas::flow::hopcroftkarp::{slot, add_spec};

verus! {

broadcast use vstd::set_lib::range_set_properties;

/// A lower bound from a maximum matching of the bipartite double cover
/// of the graph: left copies `0..n`, right copies `n..2n`, and the edges
/// `{x, y + n}` and `{y, x + n}` for each edge `{x, y}`.
pub struct ILPLB {
    pub temp: ILPTemp,
    pub bipartite_g: Graph,
}

/// `pair_u[u]` is the partner of the left vertex `u`, `pair_v[v - n]` that
/// of the right vertex `v`, `dist[u]` the layer of `u` and `dist[n]` the
/// layer of the free end.
pub struct ILPTemp {
    pub pair_u: Vec<Option<Vx>>,
    pub pair_v: Vec<Option<Vx>>,
    pub dist: Vec<Option<u32>>,
    pub n: usize,
}

impl ILPTemp {
    /// The layer of `u` (of the free end for `None`).
    pub fn dist(&self, u: Option<Vx>) -> (r: Option<u32>)
        requires
            0 <= slot(u, self.n as int) < self.dist@.len(),
        ensures
            r == self.dist@[slot(u, self.n as int)],
    {
        let index = match u {
            Some(x) => x,
            None => self.n,
        };
        self.dist[index]
    }

    /// Sets the layer of `u` (of the free end for `None`).
    pub fn set_dist(&mut self, u: Option<Vx>, dist: Option<u32>)
        requires
            0 <= slot(u, old(self).n as int) < old(self).dist@.len(),
        ensures
            final(self).pair_u == old(self).pair_u,
            final(self).pair_v == old(self).pair_v,
            final(self).n == old(self).n,
            final(self).dist@ == old(self).dist@.update(slot(u, old(self).n as int), dist),
    {
        let index = match u {
            Some(x) => x,
            None => self.n,
        };
        self.dist.set(index, dist);
    }

    /// The partner of the right vertex `v`.
    pub fn pair_v(&self, v: Vx) -> (r: Option<Vx>)
        requires
            self.n <= v < self.n + self.pair_v@.len(),
        ensures
            r == self.pair_v@[v - self.n],
    {
        self.pair_v[v - self.n]
    }

    /// The partner of the left vertex `u`.
    pub fn pair_u(&self, u: Vx) -> (r: Option<Vx>)
        requires
            u < self.pair_u@.len(),
        ensures
            r == self.pair_u@[u as int],
    {
        self.pair_u[u]
    }
}

impl ILPTemp {
    /// The shape of the data for `n` ids on each side: partners of left
    /// vertices lie on the right (`n..2n`) and those of right vertices on
    /// the left, and every layer is at most `n`.
    pub open spec fn inv(&self, n: nat) -> bool {
        &&& self.n == n
        &&& self.pair_u@.len() == n
        &&& self.pair_v@.len() == n
        &&& self.dist@.len() == n + 1
        &&& forall|u: int| 0 <= u < n && #[trigger] self.pair_u@[u] is Some ==> n <= self.pair_u@[u]->0 < 2 * n
        &&& forall|j: int| 0 <= j < n && #[trigger] self.pair_v@[j] is Some ==> self.pair_v@[j]->0 < n
        &&& forall|x: int| 0 <= x <= n && #[trigger] self.dist@[x] is Some ==> self.dist@[x]->0 <= n
    }
}

/// Every edge of `g` joins a left id (below `n`) to a right id.
pub open spec fn two_sided(g: Map<Vx, Set<Vx>>, n: nat) -> bool {
    forall|a: Vx, b: Vx| #[trigger] has_edge(g, a, b) ==> (a < n) != (b < n)
}

/// The places (left vertices and the free end `n`) that have a layer.
pub open spec fn layered_slots(dist: Seq<Option<u32>>, n: nat) -> Set<Vx> {
    Set::new(|x: Vx| x <= n && dist[x as int] is Some)
}

/// The left vertices without a partner.
pub open spec fn free_left(pair_u: Seq<Option<Vx>>) -> Set<Vx> {
    Set::new(|x: Vx| x < pair_u.len() && pair_u[x as int] is None)
}

/// How far `u` is below the top layer `n`: the recursion of the
/// depth-first search climbs one layer per call.
pub open spec fn climb(dist: Seq<Option<u32>>, n: nat, u: Option<Vx>) -> int {
    match u {
        Some(x) => match dist[x as int] {
            Some(d) => n + 1 - d,
            None => 0,
        },
        None => 0,
    }
}

/// The layer of `u` where it has one (zero otherwise).
pub open spec fn layer(dist: Seq<Option<u32>>, u: Option<Vx>) -> int {
    match u {
        Some(x) => match dist[x as int] {
            Some(d) => d as int,
            None => 0,
        },
        None => 0,
    }
}

/// The places with a layer are finite and at most `n + 1`.
proof fn lemma_layered_slots(dist: Seq<Option<u32>>, n: nat)
    requires
        n < usize::MAX,
    ensures
        layered_slots(dist, n).finite(),
        layered_slots(dist, n).len() <= n + 1,
{
    lemma_bounded_set_len(layered_slots(dist, n), (n + 1) as usize);
}

/// Giving a layer to a place without one adds it to the places with one.
proof fn lemma_layered_slots_set(dist: Seq<Option<u32>>, n: nat, t: Vx, d: u32)
    requires
        t <= n,
        dist.len() == n + 1,
        dist[t as int] is None,
    ensures
        layered_slots(dist.update(t as int, Some(d)), n) == layered_slots(dist, n).insert(t),
{
    assert(layered_slots(dist.update(t as int, Some(d)), n) =~= layered_slots(dist, n).insert(t));
}

/// The left vertices without a partner are finite.
proof fn lemma_free_left(pair_u: Seq<Option<Vx>>)
    requires
        pair_u.len() <= usize::MAX,
    ensures
        free_left(pair_u).finite(),
{
    lemma_bounded_set_len(free_left(pair_u), pair_u.len() as usize);
}

/// The breadth-first phase on the bipartite graph `g` with sides `0..n`
/// and `n..2n`: free left vertices get layer zero, and the partner of
/// each right vertex reached from a vertex of layer `d` gets layer
/// `d + 1` (the free end where the right vertex has none). Says whether
/// the free end was reached.
fn bfs(g: &Graph, temp: &mut ILPTemp) -> (r: bool)
    requires
        g.wf(),
        g.spec_n() == 2 * old(temp).n,
        two_sided(g@, old(temp).n as nat),
        old(temp).inv(old(temp).n as nat),
    ensures
        final(temp).inv(old(temp).n as nat),
        final(temp).pair_u == old(temp).pair_u,
        final(temp).pair_v == old(temp).pair_v,
        r == (final(temp).dist@[old(temp).n as int] is Some),
{
    let n = temp.n;
    let ghost nn = n as nat;
    let ghost t0 = *temp;
    proof {
        g.lemma_simple();
    }
    let mut queue: VecDeque<Vx> = VecDeque::new();
    let mut u: usize = 0;
    while u < n
        invariant
            g.wf(),
            n == temp.n,
            nn == n,
            g.spec_n() == 2 * nn,
            two_sided(g@, nn),
            temp.inv(nn),
            temp.pair_u == t0.pair_u,
            temp.pair_v == t0.pair_v,
            u <= n,
            forall|x: int| 0 <= x < u ==> #[trigger] temp.dist@[x] == (if temp.pair_u@[x] is None { Some(0u32) } else { None::<u32> }),
            forall|k: int| 0 <= k < queue@.len() ==> #[trigger] queue@[k] < u && temp.dist@[queue@[k] as int] is Some,
        decreases n - u,
    {
        let ghost before = temp.dist@;
        if temp.pair_u(u).is_none() {
            temp.set_dist(Some(u), Some(0));
            queue.push_back(u);
        } else {
            temp.set_dist(Some(u), None);
        }
        proof {
            assert forall|x: int| 0 <= x < u + 1 implies #[trigger] temp.dist@[x] == (if temp.pair_u@[x] is None { Some(0u32) } else { None::<u32> }) by {
                if x < u {
                    assert(temp.dist@[x] == before[x]);
                }
            }
        }
        u = u + 1;
    }
    temp.set_dist(None, None);
    proof {
        lemma_layered_slots(temp.dist@, nn);
        assert forall|x: int| 0 <= x <= nn && #[trigger] temp.dist@[x] is Some
            implies temp.dist@[x]->0 < layered_slots(temp.dist@, nn).len() by {
            assert(x < nn);
            assert(layered_slots(temp.dist@, nn).contains(x as usize));
            lemma_contains_len(layered_slots(temp.dist@, nn), x as usize);
        }
    }
    loop
        invariant
            g.wf(),
            n == temp.n,
            nn == n,
            nn < usize::MAX,
            g.spec_n() == 2 * nn,
            two_sided(g@, nn),
            temp.inv(nn),
            temp.pair_u == t0.pair_u,
            temp.pair_v == t0.pair_v,
            layered_slots(temp.dist@, nn).finite(),
            layered_slots(temp.dist@, nn).len() <= nn + 1,
            forall|x: int| 0 <= x <= nn && #[trigger] temp.dist@[x] is Some
                ==> temp.dist@[x]->0 < layered_slots(temp.dist@, nn).len(),
            forall|k: int| 0 <= k < queue@.len() ==> #[trigger] queue@[k] < n && temp.dist@[queue@[k] as int] is Some,
        decreases 2 * (nn + 1 - layered_slots(temp.dist@, nn).len()) + queue@.len(),
    {
        let ghost m0 = 2 * (nn + 1 - layered_slots(temp.dist@, nn).len()) + queue@.len();
        let o = queue.pop_front();
        let u = match o {
            None => {
                break;
            },
            Some(u) => u,
        };
        let nb = g.neighbours(u);
        let mut j: usize = 0;
        while j < nb.len()
            invariant
                g.wf(),
                n == temp.n,
                nn == n,
                nn < usize::MAX,
                g.spec_n() == 2 * nn,
                two_sided(g@, nn),
                temp.inv(nn),
                temp.pair_u == t0.pair_u,
                temp.pair_v == t0.pair_v,
                layered_slots(temp.dist@, nn).finite(),
                layered_slots(temp.dist@, nn).len() <= nn + 1,
                forall|x: int| 0 <= x <= nn && #[trigger] temp.dist@[x] is Some
                    ==> temp.dist@[x]->0 < layered_slots(temp.dist@, nn).len(),
                forall|k: int| 0 <= k < queue@.len() ==> #[trigger] queue@[k] < n && temp.dist@[queue@[k] as int] is Some,
                u < n,
                temp.dist@[u as int] is Some,
                nb@.to_set() == nbrs(g@, u),
                j <= nb@.len(),
                2 * (nn + 1 - layered_slots(temp.dist@, nn).len()) + queue@.len() < m0,
            decreases nb@.len() - j,
        {
            let v = nb[j];
            proof {
                g.lemma_simple();
                assert(nb@.to_set().contains(nb@[j as int]));
                assert(has_edge(g@, u, v));
                assert((u < nn) != (v < nn));
            }
            let p = temp.pair_v(v);
            proof {
                assert(temp.pair_v@[v - n] == p);
            }
            if temp.dist(p).is_none() {
                let ghost t: Vx = slot(p, nn as int) as Vx;
                proof {
                    lemma_layered_slots(temp.dist@, nn);
                    assert(layered_slots(temp.dist@, nn).contains(u));
                    lemma_contains_len(layered_slots(temp.dist@, nn), u);
                    assert(!layered_slots(temp.dist@, nn).contains(t));
                    assert(layered_slots(temp.dist@, nn).insert(t).len() == layered_slots(temp.dist@, nn).len() + 1);
                }
                let d = crate::ideas::flow::hopcroftkarp::add(temp.dist(Some(u)), Some(1));
                let ghost before = temp.dist@;
                temp.set_dist(p, d);
                proof {
                    assert(temp.dist@ == before.update(t as int, Some(d->0)));
                    lemma_layered_slots_set(before, nn, t, d->0);
                    lemma_layered_slots(temp.dist@, nn);
                    assert forall|x: int| 0 <= x <= nn && #[trigger] temp.dist@[x] is Some
                        implies temp.dist@[x]->0 < layered_slots(temp.dist@, nn).len() by {
                        if x != t {
                            assert(temp.dist@[x] == before[x]);
                        }
                    }
                }
                if let Some(partner) = p {
                    queue.push_back(partner);
                }
            }
            j = j + 1;
        }
    }
    proof {
        assert forall|x: int| 0 <= x <= nn && #[trigger] temp.dist@[x] is Some implies temp.dist@[x]->0 <= nn by {}
    }
    temp.dist(None).is_some()
}

/// The depth-first phase from the left vertex `u`: follows edges to
/// right vertices whose partner (or the free end) lies one layer up, and
/// where such a path reaches the free end, makes each right vertex on it
/// the partner of the left vertex before it. A left vertex from which no
/// path leads loses its layer; one without a layer leads nowhere (the
/// free end has one in this phase).
fn dfs(g: &Graph, u_: Option<Vx>, temp: &mut ILPTemp) -> (r: bool)
    requires
        g.wf(),
        g.spec_n() == 2 * old(temp).n,
        two_sided(g@, old(temp).n as nat),
        old(temp).inv(old(temp).n as nat),
        old(temp).dist@[old(temp).n as int] is Some,
        u_ matches Some(u) ==> u < old(temp).n,
    ensures
        final(temp).inv(old(temp).n as nat),
        final(temp).dist@[old(temp).n as int] == old(temp).dist@[old(temp).n as int],
        forall|x: int|
            0 <= x <= old(temp).n && #[trigger] old(temp).dist@[x] is Some && old(temp).dist@[x]->0 < layer(old(temp).dist@, u_)
                ==> final(temp).dist@[x] == old(temp).dist@[x],
        free_left(final(temp).pair_u@).subset_of(free_left(old(temp).pair_u@)),
        r && u_ is Some ==> !free_left(final(temp).pair_u@).contains(u_->0),
        u_ is None ==> *final(temp) == *old(temp),
        !r ==> final(temp).pair_u@ == old(temp).pair_u@ && final(temp).pair_v@ == old(temp).pair_v@,
        !r && u_ is Some ==> final(temp).dist@[u_->0 as int] is None,
    decreases climb(old(temp).dist@, old(temp).n as nat, u_),
{
    let u = match u_ {
        None => {
            return true;
        },
        Some(u) => u,
    };
    if temp.dist[u].is_none() {
        return false;
    }
    let n = temp.n;
    let ghost nn = n as nat;
    let ghost du = temp.dist@[u as int]->0;
    let ghost t0 = *temp;
    proof {
        g.lemma_simple();
    }
    let nb = g.neighbours(u);
    let mut j: usize = 0;
    while j < nb.len()
        invariant
            g.wf(),
            n == temp.n,
            nn == n,
            nn < usize::MAX,
            g.spec_n() == 2 * nn,
            two_sided(g@, nn),
            temp.inv(nn),
            t0 == *old(temp),
            t0.n == nn,
            u < n,
            u_ == Some(u),
            nb@.to_set() == nbrs(g@, u),
            j <= nb@.len(),
            t0.dist@[u as int] == Some(du),
            temp.dist@[u as int] == Some(du),
            temp.dist@[nn as int] == t0.dist@[nn as int],
            t0.dist@[nn as int] is Some,
            forall|x: int|
                0 <= x <= nn && #[trigger] t0.dist@[x] is Some && t0.dist@[x]->0 < du
                    ==> temp.dist@[x] == t0.dist@[x],
            free_left(temp.pair_u@).subset_of(free_left(t0.pair_u@)),
            temp.pair_u@ == t0.pair_u@,
            temp.pair_v@ == t0.pair_v@,
        decreases nb@.len() - j,
    {
        let v = nb[j];
        proof {
            g.lemma_simple();
            assert(nb@.to_set().contains(nb@[j as int]));
            assert(has_edge(g@, u, v));
            assert((u < nn) != (v < nn));
        }
        let t = crate::ideas::flow::hopcroftkarp::add(temp.dist(u_), Some(1));
        let p = temp.pair_v(v);
        proof {
            assert(temp.pair_v@[v - n] == p);
        }
        if crate::ideas::flow::hopcroftkarp::same_layer(temp.dist(p), t) {
            let ghost before = *temp;
            proof {
                assert(climb(t0.dist@, nn, u_) == nn + 1 - du);
                if let Some(y) = p {
                    assert(layer(before.dist@, p) == du + 1);
                    assert(before.dist@[y as int] == Some((du + 1) as u32));
                    assert(climb(before.dist@, nn, p) == nn - du);
                }
                assert(before.n == nn);
                assert(t0.n == nn);
                assert(0 <= climb(before.dist@, before.n as nat, p));
                assert(climb(before.dist@, before.n as nat, p) < climb(t0.dist@, t0.n as nat, u_));
            }
            if dfs(g, p, temp) {
                let ghost mid = temp.pair_u@;
                let ghost midv = temp.pair_v@;
                temp.pair_v.set(v - n, Some(u));
                temp.pair_u.set(u, Some(v));
                proof {
                    assert(n <= v < 2 * n);
                    assert forall|x: int| 0 <= x < nn && #[trigger] temp.pair_u@[x] is Some implies nn <= temp.pair_u@[x]->0 < 2 * nn by {
                        if x != u {
                            assert(temp.pair_u@[x] == mid[x]);
                        }
                    }
                    assert forall|x: int| 0 <= x < nn && #[trigger] temp.pair_v@[x] is Some implies temp.pair_v@[x]->0 < nn by {
                        if x != v - n {
                            assert(temp.pair_v@[x] == midv[x]);
                        }
                    }
                    assert(free_left(temp.pair_u@).subset_of(free_left(mid)));
                    assert(!free_left(temp.pair_u@).contains(u));
                    assert forall|x: int|
                        0 <= x <= nn && #[trigger] t0.dist@[x] is Some && t0.dist@[x]->0 < layer(t0.dist@, u_)
                            implies temp.dist@[x] == t0.dist@[x] by {
                        assert(before.dist@[x] == t0.dist@[x]);
                    }
                }
                return true;
            }
            proof {
                assert forall|x: int|
                    0 <= x <= nn && #[trigger] t0.dist@[x] is Some && t0.dist@[x]->0 < du
                        implies temp.dist@[x] == t0.dist@[x] by {
                    assert(before.dist@[x] == t0.dist@[x]);
                }
                assert(before.dist@[u as int] == Some(du));
            }
        }
        j = j + 1;
    }
    temp.dist.set(u, None);
    false
}

/// Sets every layer to none.
fn clear_dist(temp: &mut ILPTemp)
    requires
        old(temp).inv(old(temp).n as nat),
    ensures
        final(temp).inv(old(temp).n as nat),
        final(temp).pair_u == old(temp).pair_u,
        final(temp).pair_v == old(temp).pair_v,
        forall|x: int| 0 <= x < final(temp).dist@.len() ==> #[trigger] final(temp).dist@[x] is None,
{
    let mut i: usize = 0;
    while i < temp.dist.len()
        invariant
            temp.inv(old(temp).n as nat),
            temp.pair_u == old(temp).pair_u,
            temp.pair_v == old(temp).pair_v,
            i <= temp.dist@.len(),
            forall|x: int| 0 <= x < i ==> #[trigger] temp.dist@[x] is None,
        decreases temp.dist@.len() - i,
    {
        temp.dist.set(i, None);
        i = i + 1;
    }
}

/// Grows the partners of the left vertices by Hopcroft and Karp's method
/// on the bipartite graph `g` with sides `0..n` and `n..2n`, starting
/// from the partners in `temp`, phase by phase until no augmenting path
/// is left. A phase that augments nothing ends the search as well (it
/// would be repeated unchanged). No left vertex loses its partner.
pub fn hopcroft_karp(g: &Graph, temp: &mut ILPTemp)
    requires
        g.wf(),
        g.spec_n() == 2 * old(temp).n,
        two_sided(g@, old(temp).n as nat),
        old(temp).inv(old(temp).n as nat),
    ensures
        final(temp).inv(old(temp).n as nat),
        free_left(final(temp).pair_u@).subset_of(free_left(old(temp).pair_u@)),
{
    let ghost nn = temp.n as nat;
    let ghost f_start = free_left(temp.pair_u@);
    let n = temp.n;
    clear_dist(temp);
    proof {
        g.lemma_simple();
        lemma_free_left(temp.pair_u@);
    }
    loop
        invariant
            g.wf(),
            n == nn,
            g.spec_n() == 2 * nn,
            two_sided(g@, nn),
            temp.inv(nn),
            free_left(temp.pair_u@).finite(),
            free_left(temp.pair_u@).subset_of(f_start),
            f_start == free_left(old(temp).pair_u@),
        decreases free_left(temp.pair_u@).len(),
    {
        if !bfs(g, temp) {
            break;
        }
        let ghost f0 = free_left(temp.pair_u@);
        let mut progress = false;
        let mut u: usize = 0;
        while u < n
            invariant
                g.wf(),
                n == nn,
                g.spec_n() == 2 * nn,
                two_sided(g@, nn),
                temp.inv(nn),
                temp.dist@[nn as int] is Some,
                u <= n,
                f0.finite(),
                f0.subset_of(f_start),
                free_left(temp.pair_u@).subset_of(f0),
                progress ==> free_left(temp.pair_u@).len() < f0.len(),
            decreases n - u,
        {
            if temp.pair_u(u).is_none() {
                let ghost before = free_left(temp.pair_u@);
                if dfs(g, Some(u), temp) {
                    proof {
                        assert(before.contains(u));
                        lemma_set_subset_finite(f0, before);
                        free_left(temp.pair_u@).lemma_subset_not_in_lt(before, u);
                        lemma_len_subset(before, f0);
                    }
                    progress = true;
                }
                proof {
                    lemma_set_subset_finite(f0, before);
                    lemma_set_subset_finite(before, free_left(temp.pair_u@));
                    lemma_len_subset(free_left(temp.pair_u@), before);
                }
            }
            u = u + 1;
        }
        proof {
            lemma_set_subset_finite(f0, free_left(temp.pair_u@));
        }
        if !progress {
            break;
        }
    }
}

/// The left and the right copy of each vertex of `d`.
pub open spec fn copies(n: nat, d: Set<Vx>) -> Set<Vx> {
    Set::new(|v: Vx| (v < n && d.contains(v)) || (n <= v && d.contains((v - n) as Vx)))
}

/// `{a, b}` is one of the two edges of the double cover that stand for
/// the edge `{x, y}`, with `x` on the left in the first.
pub open spec fn cover_pair(n: nat, x: Vx, y: Vx, a: Vx, b: Vx) -> bool {
    ||| (a == x && b == y + n)
    ||| (a == y + n && b == x)
    ||| (a == y && b == x + n)
    ||| (a == x + n && b == y)
}

/// `{a, b}` stands for an edge of `g` at a vertex of `d`.
pub open spec fn cover_edge(g: Map<Vx, Set<Vx>>, n: nat, d: Set<Vx>, a: Vx, b: Vx) -> bool {
    exists|x: Vx, y: Vx| d.contains(x) && has_edge(g, x, y) && #[trigger] cover_pair(n, x, y, a, b)
}

/// `{a, b}` stands for an edge from `x` to a vertex of `ys`.
pub open spec fn cover_from(n: nat, x: Vx, ys: Set<Vx>, a: Vx, b: Vx) -> bool {
    exists|y: Vx| ys.contains(y) && #[trigger] cover_pair(n, x, y, a, b)
}

/// The number of places of `s` that hold a value.
pub open spec fn count_some(s: Seq<Option<Vx>>) -> nat
    decreases s.len(),
{
    if s.len() == 0 {
        0
    } else {
        count_some(s.drop_last()) + if s.last() is Some { 1nat } else { 0nat }
    }
}

impl ILPLB {
    /// The double cover has `2 * temp.n` ids and its edges cross between
    /// the sides; `temp.n` is the size of the graph, or zero where the
    /// double cover of the graph would not fit (the bound is then off).
    pub open spec fn inv(&self, n: nat) -> bool {
        &&& self.temp.inv(self.temp.n as nat)
        &&& self.bipartite_g.wf()
        &&& self.bipartite_g.spec_n() == 2 * self.temp.n
        &&& two_sided(self.bipartite_g@, self.temp.n as nat)
        &&& (self.temp.n == n || (self.temp.n == 0 && 2 * n >= u32::MAX))
    }

    /// Brings the double cover up to date for the vertices of `dirty`:
    /// both copies of each lose their edges and partners, then get the
    /// edges that stand for their edges in `g`; the matching is then
    /// grown to a maximum one.
    pub fn update(&mut self, dirty: &IdSet, g: &Graph)
        requires
            old(self).inv(g.spec_n()),
            old(self).temp.n == g.spec_n(),
            g.wf(),
            forall|v: Vx| dirty@.contains(v) ==> v < g.spec_n(),
        ensures
            final(self).inv(g.spec_n()),
            final(self).temp.n == old(self).temp.n,
            forall|a: Vx, b: Vx| has_edge(final(self).bipartite_g@, a, b) <==> (
                has_edge(without_set(old(self).bipartite_g@, copies(g.spec_n(), dirty@)), a, b)
                    || cover_edge(g@, g.spec_n(), dirty@, a, b)),
    {
        let n = self.temp.n;
        let ghost nn = n as nat;
        let ghost bg0 = self.bipartite_g@;
        let ds = dirty.to_vec();
        proof {
            self.bipartite_g.lemma_simple();
            lemma_without_set_insert(bg0, 2 * nn, Set::empty(), 0);
            assert(copies(nn, ds@.take(0).to_set()) =~= Set::<Vx>::empty());
        }
        let mut i: usize = 0;
        while i < ds.len()
            invariant
                n == self.temp.n,
                nn == n,
                self.inv(nn),
                self.temp.n == old(self).temp.n,
                g.spec_n() == nn,
                bg0 == old(self).bipartite_g@,
                simple_graph(bg0, 2 * nn),
                two_sided(bg0, nn),
                2 * nn < u32::MAX,
                ds@.to_set() == dirty@,
                forall|v: Vx| dirty@.contains(v) ==> v < nn,
                i <= ds@.len(),
                self.bipartite_g@ == without_set(bg0, copies(nn, ds@.take(i as int).to_set())),
            decreases ds@.len() - i,
        {
            let u = ds[i];
            proof {
                assert(ds@.to_set().contains(ds@[i as int]));
            }
            let ghost t = copies(nn, ds@.take(i as int).to_set());
            self.bipartite_g.rm_vertex(u + n);
            self.bipartite_g.rm_vertex(u);
            proof {
                lemma_without_set_insert(bg0, 2 * nn, t, (u + n) as Vx);
                lemma_without_set_insert(bg0, 2 * nn, t.insert((u + n) as Vx), u);
                assert(ds@.take(i + 1) == ds@.take(i as int).push(u));
                lemma_to_set_push(ds@.take(i as int), u);
                assert(copies(nn, ds@.take(i + 1).to_set()) =~= t.insert((u + n) as Vx).insert(u));
                assert forall|a: Vx, b: Vx| #[trigger] has_edge(self.bipartite_g@, a, b) implies (a < nn) != (b < nn) by {
                    assert(has_edge(bg0, a, b));
                }
            }
            if let Some(partner) = self.temp.pair_u(u) {
                self.temp.pair_v.set(partner - n, None);
                self.temp.pair_u.set(u, None);
            }
            if let Some(partner) = self.temp.pair_v[u] {
                self.temp.pair_u.set(partner, None);
                self.temp.pair_v.set(u, None);
            }
            i = i + 1;
        }
        proof {
            assert(ds@.take(ds@.len() as int) == ds@);
            assert(ds@.take(0).to_set() =~= Set::<Vx>::empty());
            assert forall|a: Vx, b: Vx| !cover_edge(g@, nn, ds@.take(0).to_set(), a, b) by {}
        }
        let ghost bg1 = self.bipartite_g@;
        let mut i: usize = 0;
        while i < ds.len()
            invariant
                n == self.temp.n,
                nn == n,
                self.inv(nn),
                self.temp.n == old(self).temp.n,
                g.wf(),
                g.spec_n() == nn,
                2 * nn < u32::MAX,
                ds@.to_set() == dirty@,
                forall|v: Vx| dirty@.contains(v) ==> v < nn,
                i <= ds@.len(),
                forall|a: Vx, b: Vx| #[trigger] has_edge(self.bipartite_g@, a, b) <==> (has_edge(bg1, a, b)
                    || cover_edge(g@, nn, ds@.take(i as int).to_set(), a, b)),
            decreases ds@.len() - i,
        {
            let x = ds[i];
            proof {
                assert(ds@.to_set().contains(ds@[i as int]));
                g.lemma_simple();
            }
            let nb = g.neighbours(x);
            let ghost d = ds@.take(i as int).to_set();
            proof {
                assert(nb@.take(0).to_set() =~= Set::<Vx>::empty());
            }
            let mut j: usize = 0;
            while j < nb.len()
                invariant
                    n == self.temp.n,
                    nn == n,
                    self.inv(nn),
                    self.temp.n == old(self).temp.n,
                    g.wf(),
                    g.spec_n() == nn,
                    2 * nn < u32::MAX,
                    x < nn,
                    nb@.to_set() == nbrs(g@, x),
                    j <= nb@.len(),
                    forall|a: Vx, b: Vx| #[trigger] has_edge(self.bipartite_g@, a, b) <==> (has_edge(bg1, a, b)
                        || cover_edge(g@, nn, d, a, b) || cover_from(nn, x, nb@.take(j as int).to_set(), a, b)),
                decreases nb@.len() - j,
            {
                let y = nb[j];
                proof {
                    g.lemma_simple();
                    assert(nb@.to_set().contains(nb@[j as int]));
                    assert(has_edge(g@, x, y));
                }
                let ghost ys = nb@.take(j as int).to_set();
                let ghost b0 = self.bipartite_g@;
                self.bipartite_g.add_edge(x, y + n);
                let ghost b1 = self.bipartite_g@;
                self.bipartite_g.add_edge(y, x + n);
                proof {
                    let h = self.bipartite_g@;
                    lemma_with_edge_edges(b0, x, (y + n) as Vx);
                    lemma_with_edge_edges(b1, y, (x + n) as Vx);
                    assert(nb@.take(j + 1) == nb@.take(j as int).push(y));
                    lemma_to_set_push(nb@.take(j as int), y);
                    assert forall|a: Vx, b: Vx| #[trigger] has_edge(h, a, b) <==> (has_edge(bg1, a, b)
                        || cover_edge(g@, nn, d, a, b) || cover_from(nn, x, ys.insert(y), a, b)) by {
                        assert(has_edge(b0, a, b) <==> (has_edge(bg1, a, b) || cover_edge(g@, nn, d, a, b)
                            || cover_from(nn, x, ys, a, b)));
                        assert(has_edge(b1, a, b) <==> (has_edge(b0, a, b) || (a == x && b == y + n) || (a == y + n && b == x)));
                        assert(has_edge(h, a, b) <==> (has_edge(b1, a, b) || (a == y && b == x + n) || (a == x + n && b == y)));
                        if cover_from(nn, x, ys.insert(y), a, b) && !cover_pair(nn, x, y, a, b) {
                            let z = choose|z: Vx| ys.insert(y).contains(z) && #[trigger] cover_pair(nn, x, z, a, b);
                            assert(ys.contains(z));
                        }
                        if cover_pair(nn, x, y, a, b) {
                            assert(ys.insert(y).contains(y));
                        }
                        if cover_from(nn, x, ys, a, b) {
                            let z = choose|z: Vx| ys.contains(z) && #[trigger] cover_pair(nn, x, z, a, b);
                            assert(ys.insert(y).contains(z));
                        }
                    }
                    assert forall|a: Vx, b: Vx| #[trigger] has_edge(h, a, b) implies (a < nn) != (b < nn) by {
                        if has_edge(b0, a, b) {
                        }
                    }
                }
                j = j + 1;
            }
            proof {
                let h = self.bipartite_g@;
                assert(nb@.take(nb@.len() as int) == nb@);
                assert(ds@.take(i + 1) == ds@.take(i as int).push(x));
                lemma_to_set_push(ds@.take(i as int), x);
                assert forall|a: Vx, b: Vx| #[trigger] has_edge(h, a, b) <==> (has_edge(bg1, a, b)
                    || cover_edge(g@, nn, d.insert(x), a, b)) by {
                    assert(has_edge(h, a, b) <==> (has_edge(bg1, a, b) || cover_edge(g@, nn, d, a, b)
                        || cover_from(nn, x, nb@.to_set(), a, b)));
                    if cover_edge(g@, nn, d.insert(x), a, b) {
                        let (p, q) = choose|p: Vx, q: Vx| d.insert(x).contains(p) && has_edge(g@, p, q) && #[trigger] cover_pair(nn, p, q, a, b);
                        if p == x {
                            assert(nb@.to_set().contains(q));
                        } else {
                            assert(d.contains(p));
                        }
                    }
                    if cover_edge(g@, nn, d, a, b) {
                        let (p, q) = choose|p: Vx, q: Vx| d.contains(p) && has_edge(g@, p, q) && #[trigger] cover_pair(nn, p, q, a, b);
                        assert(d.insert(x).contains(p));
                    }
                    if cover_from(nn, x, nb@.to_set(), a, b) {
                        let q = choose|q: Vx| nb@.to_set().contains(q) && #[trigger] cover_pair(nn, x, q, a, b);
                        assert(has_edge(g@, x, q));
                        assert(d.insert(x).contains(x));
                    }
                }
            }
            i = i + 1;
        }
        proof {
            assert(ds@.take(ds@.len() as int) == ds@);
        }
        hopcroft_karp(&self.bipartite_g, &mut self.temp);
    }
}

/// The number of places of `v` that hold a value.
fn matched(v: &Vec<Option<Vx>>) -> (r: usize)
    ensures
        r == count_some(v@),
{
    let mut r: usize = 0;
    let mut i: usize = 0;
    while i < v.len()
        invariant
            i <= v@.len(),
            r <= i,
            r == count_some(v@.take(i as int)),
        decreases v@.len() - i,
    {
        proof {
            assert(v@.take(i + 1).drop_last() == v@.take(i as int));
        }
        if v[i].is_some() {
            r = r + 1;
        }
        i = i + 1;
    }
    proof {
        assert(v@.take(i as int) == v@);
    }
    r
}

impl Idea for ILPLB {
    open spec fn inv(&self, n: nat) -> bool {
        ILPLB::inv(self, n)
    }

    open spec fn pending(&self, dirty: Set<Vx>) -> bool {
        dirty.len() > 0
    }

    /// Both sides of the double cover get one copy of each id below
    /// `g.n()`, with no edges and no partners yet; the copies of the
    /// dirty vertices get their edges in `apply`. (Where `2 * g.n()` ids
    /// do not fit in a graph, the cover is left empty.)
    fn new(g: &Graph) -> (r: Self)
        ensures
            r.temp.n == (if 2 * g.spec_n() < u32::MAX { g.spec_n() } else { 0 }),
            r.bipartite_g@.dom() == Set::<Vx>::empty(),
            forall|x: int| 0 <= x < r.temp.n ==> #[trigger] r.temp.pair_u@[x] is None && r.temp.pair_v@[x] is None,
    {
        let gn = g.n();
        let n: usize = if gn < 2147483648 { gn } else { 0 };
        let temp = ILPTemp {
            pair_u: vec![None; n],
            pair_v: vec![None; n],
            dist: vec![None; n + 1],
            n: n,
        };
        let bipartite_g = Graph::new(2 * n, Vec::new());
        proof {
            assert forall|a: Vx, b: Vx| !has_edge(bipartite_g@, a, b) by {}
            assert(bipartite_g@.dom() =~= Set::<Vx>::empty()) by {
                bipartite_g.lemma_simple();
                assert forall|v: Vx| !bipartite_g@.dom().contains(v) by {
                    if bipartite_g@.dom().contains(v) {
                        crate::graph::lemma_nonempty_choose(bipartite_g@[v]);
                        assert(has_edge(bipartite_g@, v, bipartite_g@[v].choose()));
                    }
                }
            }
        }
        ILPLB { temp, bipartite_g }
    }

    fn priority(&self, state: &State, dirty: &IdSet) -> (r: usize)
        ensures
            r == (if dirty@.len() > 0 { 2usize } else { 0 }),
    {
        if dirty.len() == 0 {
            return 0;
        }
        2
    }

    /// Updates the double cover for the dirty vertices and takes half the
    /// size of its maximum matching (rounded down) as a lower bound; the
    /// state itself does not change.
    fn apply(&mut self, state: &mut State, dirty: &IdSet) -> (r: Option<()>)
        ensures
            *final(state) == *old(state),
            old(self).temp.n == old(state).graph.spec_n() ==> (r is Some <==> lb_fits(old(state),
                count_some(final(self).temp.pair_v@) / 2)),
            old(self).temp.n != old(state).graph.spec_n() ==> r is Some,
    {
        proof {
            lemma_reduced_refl(state);
        }
        if self.temp.n != state.graph.n() {
            return Some(());
        }
        self.update(dirty, &state.graph);
        let lb = matched(&self.temp.pair_v) / 2;
        state.lb(lb)
    }
}

} // verus!
