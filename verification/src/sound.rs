//! Soundness of the reductions: a vertex cover of the reduced graph,
//! appended to the solution and run through the undo steps, is a vertex
//! cover of the graph that the search started from.

use vstd::prelude::*;
use vstd::multiset::Multiset;
use crate::graph::{Vx, has_edge, nbrs, without_set, simple_graph, lemma_contains_len};
use crate::connected::{is_component_split, covered};
use crate::ideas::deg2::{deg2_fold, deg2_steps, joined_to};
use crate::ideas::deg3::{deg3_fold, deg3_steps, deg3_pair};
use crate::ideas::twoclique::{two_clique_fold, two_clique_steps, split_ok, non_nbrs, with_pairs, tc_edge, tc_pair, lemma_c1_clique};
use crate::cleanup::{Cleanup, undo, undo_all, first_pos, without_all, swap_removed, first_missing, cleanup_eq};
use crate::state::{State, is_vertex_cover, reduced, cover_safe, added, from_graph};

verus! {

/// An element of `p + q` is one of `p` or of `q`.
pub proof fn lemma_concat_contains(p: Seq<Vx>, q: Seq<Vx>, v: Vx)
    ensures
        (p + q).contains(v) <==> (p.contains(v) || q.contains(v)),
{
    if (p + q).contains(v) {
        let i = choose|i: int| 0 <= i < (p + q).len() && (p + q)[i] == v;
        if i < p.len() {
            assert(p[i] == v);
        } else {
            assert(q[i - p.len()] == v);
        }
    }
    if p.contains(v) {
        let i = choose|i: int| 0 <= i < p.len() && p[i] == v;
        assert((p + q)[i] == v);
    }
    if q.contains(v) {
        let i = choose|i: int| 0 <= i < q.len() && q[i] == v;
        assert((p + q)[p.len() + i] == v);
    }
}

/// The first position of `x` in `s`, where `s` holds `x`, is the index
/// of an `x` with no `x` before it.
pub proof fn lemma_first_pos(s: Seq<Vx>, x: Vx)
    requires
        s.contains(x),
    ensures
        0 <= first_pos(s, x) < s.len(),
        s[first_pos(s, x)] == x,
        forall|j: int| 0 <= j < first_pos(s, x) ==> s[j] != x,
{
    let i0 = choose|i: int| 0 <= i < s.len() && s[i] == x;
    let w = first_index(s, x, i0);
}

/// Some index at or below `i` holds the first `x` of `s`.
proof fn first_index(s: Seq<Vx>, x: Vx, i: int) -> (k: int)
    requires
        0 <= i < s.len(),
        s[i] == x,
    ensures
        0 <= k <= i,
        s[k] == x,
        forall|j: int| 0 <= j < k ==> s[j] != x,
    decreases i,
{
    if exists|j: int| 0 <= j < i && s[j] == x {
        let j = choose|j: int| 0 <= j < i && s[j] == x;
        first_index(s, x, j)
    } else {
        i
    }
}

/// Where `p` does not hold `x` but `q` does, the first `x` of `p + q` is
/// the first `x` of `q`, shifted by the length of `p`.
pub proof fn lemma_first_pos_concat(p: Seq<Vx>, q: Seq<Vx>, x: Vx)
    requires
        !p.contains(x),
        q.contains(x),
    ensures
        first_pos(p + q, x) == p.len() + first_pos(q, x),
{
    lemma_concat_contains(p, q, x);
    lemma_first_pos(p + q, x);
    lemma_first_pos(q, x);
    let a = first_pos(p + q, x);
    let b = p.len() + first_pos(q, x);
    if a < p.len() {
        assert(p[a] == x);
    }
    assert((p + q)[b] == x);
    if a < b {
        assert(q[a - p.len()] == x);
    }
    if b < a {
        assert((p + q)[b] != x);
    }
}

/// A swap-remove inside the second part of `p + q` leaves `p` in place.
pub proof fn lemma_swap_removed_concat(p: Seq<Vx>, q: Seq<Vx>, i: int)
    requires
        0 <= i < q.len(),
    ensures
        swap_removed(p + q, p.len() + i) == p + swap_removed(q, i),
{
    assert(swap_removed(p + q, p.len() + i) =~= p + swap_removed(q, i));
}

/// A swap-remove at `i` keeps every element but the one at `i`.
pub proof fn lemma_swap_removed_keeps(q: Seq<Vx>, i: int, v: Vx)
    requires
        0 <= i < q.len(),
        q.contains(v),
        v != q[i],
    ensures
        swap_removed(q, i).contains(v),
{
    let j = choose|j: int| 0 <= j < q.len() && q[j] == v;
    if j == q.len() - 1 {
        assert(swap_removed(q, i)[i] == v);
    } else {
        assert(swap_removed(q, i)[j] == v);
    }
}

/// Taking every `a` out of `s` keeps the other elements, and only them.
pub proof fn lemma_without_all_contains(s: Seq<Vx>, a: Vx, v: Vx)
    ensures
        without_all(s, a).contains(v) <==> (s.contains(v) && v != a),
{
    broadcast use vstd::seq_lib::group_filter_ensures;
    if s.contains(v) && v != a {
        let i = choose|i: int| 0 <= i < s.len() && s[i] == v;
        assert(without_all(s, a).contains(s[i]));
    }
    if without_all(s, a).contains(v) {
        let i = choose|i: int| 0 <= i < without_all(s, a).len() && without_all(s, a)[i] == v;
        s.filter_lemma(|w: Vx| w != a);
        assert(v != a);
        assert(s.to_set().contains(v) || s.contains(v)) by {
            reveal(Seq::filter);
            lemma_filter_sub(s, a, v);
        }
    }
}

/// An element of `without_all(s, a)` is an element of `s`.
proof fn lemma_filter_sub(s: Seq<Vx>, a: Vx, v: Vx)
    requires
        without_all(s, a).contains(v),
    ensures
        s.contains(v),
    decreases s.len(),
{
    reveal(Seq::filter);
    if s.len() > 0 {
        let d = s.drop_last();
        if s.last() != a && v == s.last() {
            assert(s[s.len() - 1] == v);
        } else {
            assert(without_all(d, a).contains(v)) by {
                if s.last() != a {
                    let t = without_all(d, a);
                    assert(without_all(s, a) == t.push(s.last()));
                    let i = choose|i: int| 0 <= i < t.len() + 1 && t.push(s.last())[i] == v;
                    assert(i < t.len());
                    assert(t[i] == v);
                } else {
                    assert(without_all(s, a) == without_all(d, a));
                }
            }
            lemma_filter_sub(d, a, v);
            let j = choose|j: int| 0 <= j < d.len() && d[j] == v;
            assert(s[j] == v);
        }
    }
}

/// Taking every `a` out of `p + q`, where `p` holds no `a`, leaves `p` in
/// place.
pub proof fn lemma_without_all_concat(p: Seq<Vx>, q: Seq<Vx>, a: Vx)
    requires
        !p.contains(a),
    ensures
        without_all(p + q, a) == p + without_all(q, a),
    decreases q.len(),
{
    reveal(Seq::filter);
    if q.len() == 0 {
        assert(p + q =~= p);
        lemma_without_all_id(p, a);
        assert(p + without_all(q, a) =~= p);
    } else {
        let d = q.drop_last();
        lemma_without_all_concat(p, d, a);
        assert((p + q).drop_last() =~= p + d);
        assert((p + q).last() == q.last());
        if q.last() != a {
            assert(p + without_all(q, a) =~= (p + without_all(d, a)).push(q.last()));
        } else {
            assert(p + without_all(q, a) =~= p + without_all(d, a));
        }
    }
}

/// Taking every `a` out of a sequence without `a` changes nothing.
proof fn lemma_without_all_id(p: Seq<Vx>, a: Vx)
    requires
        !p.contains(a),
    ensures
        without_all(p, a) == p,
    decreases p.len(),
{
    reveal(Seq::filter);
    if p.len() > 0 {
        let d = p.drop_last();
        assert(!d.contains(a)) by {
            if d.contains(a) {
                let j = choose|j: int| 0 <= j < d.len() && d[j] == a;
                assert(p[j] == a);
            }
        }
        lemma_without_all_id(d, a);
        assert(p.last() != a) by {
            assert(p[p.len() - 1] == p.last());
        }
        assert(d.push(p.last()) =~= p);
    }
}

/// The undo steps `cl` turn `sol` into a vertex cover of `g0`.
pub open spec fn undo_covers(g0: Map<Vx, Set<Vx>>, cl: Seq<Cleanup>, sol: Seq<Vx>) -> bool {
    undo_all(cl, sol) matches Some(r) && is_vertex_cover(g0, r.to_set())
}

/// The state `s` is on the way to a vertex cover of `g0`: no vertex of
/// its solution is in its graph, and every vertex cover of its graph,
/// appended to its solution, is turned by its undo steps into a vertex
/// cover of `g0`.
pub open spec fn sound(g0: Map<Vx, Set<Vx>>, s: &State) -> bool {
    &&& forall|v: Vx| #[trigger] s.solution@.contains(v) ==> !s.graph@.dom().contains(v)
    &&& forall|c: Seq<Vx>| #[trigger] is_vertex_cover(s.graph@, c.to_set()) ==> undo_covers(g0, s.cleanup_funcs@, s.solution@ + c)
}

/// The start of the search on `g0`, with no solution and no undo steps,
/// is sound.
pub proof fn law_sound_start(g0: Map<Vx, Set<Vx>>, s: &State)
    requires
        s.graph@ == g0,
        s.solution@.len() == 0,
        s.cleanup_funcs@.len() == 0,
    ensures
        sound(g0, s),
{
    assert forall|c: Seq<Vx>| #[trigger] is_vertex_cover(s.graph@, c.to_set()) implies undo_covers(g0, s.cleanup_funcs@, s.solution@ + c) by {
        assert(s.solution@ + c =~= c);
    }
}

/// A sound state with an empty graph has its solution: the undo steps
/// turn the solution itself into a vertex cover of `g0`.
pub proof fn law_sound_done(g0: Map<Vx, Set<Vx>>, s: &State)
    requires
        sound(g0, s),
        s.graph@.dom() == Set::<Vx>::empty(),
    ensures
        undo_covers(g0, s.cleanup_funcs@, s.solution@),
{
    let c = Seq::<Vx>::empty();
    assert(is_vertex_cover(s.graph@, c.to_set()));
    assert(s.solution@ + c =~= s.solution@);
}

/// A step that moves vertices into the solution and takes out only
/// vertices whose edges those cover keeps the state sound.
pub proof fn law_sound_safe(g0: Map<Vx, Set<Vx>>, a: &State, b: &State)
    requires
        sound(g0, a),
        a.solution@.len() <= b.solution@.len(),
        b.solution@.subrange(0, a.solution@.len() as int) == a.solution@,
        b.graph@.dom().subset_of(a.graph@.dom()),
        cover_safe(a, b),
        b.cleanup_funcs@ == a.cleanup_funcs@,
    ensures
        sound(g0, b),
{
    let la = a.solution@.len() as int;
    let add = b.solution@.subrange(la, b.solution@.len() as int);
    assert(b.solution@ =~= a.solution@ + add);
    assert forall|v: Vx| #[trigger] b.solution@.contains(v) implies !b.graph@.dom().contains(v) by {
        lemma_concat_contains(a.solution@, add, v);
        if a.solution@.contains(v) {
            assert(!a.graph@.dom().contains(v));
        } else {
            assert(added(a, b).contains(v));
        }
    }
    assert forall|c: Seq<Vx>| #[trigger] is_vertex_cover(b.graph@, c.to_set()) implies undo_covers(g0, b.cleanup_funcs@, b.solution@ + c) by {
        let c2 = add + c;
        assert(c2.to_set() =~= c.to_set().union(added(a, b))) by {
            assert forall|v: Vx| c2.to_set().contains(v) <==> c.to_set().union(added(a, b)).contains(v) by {
                lemma_concat_contains(add, c, v);
            }
        }
        assert(is_vertex_cover(a.graph@, c2.to_set()));
        assert(a.solution@ + c2 =~= b.solution@ + c);
    }
}

/// In a simple graph, a vertex is listed exactly when it has an edge.
proof fn lemma_dom_edge(g: Map<Vx, Set<Vx>>, n: nat, v: Vx)
    requires
        simple_graph(g, n),
        g.dom().contains(v),
    ensures
        has_edge(g, v, g[v].choose()),
{
    crate::graph::lemma_nonempty_choose(g[v]);
}

/// The graph `bg` that a degree-two fold at `x` makes of `g`.
pub open spec fn deg2_folded(g: Map<Vx, Set<Vx>>, bg: Map<Vx, Set<Vx>>, x: Vx, n0: Vx, n1: Vx) -> bool {
    &&& nbrs(g, x) == set![n0, n1]
    &&& n0 != n1
    &&& !has_edge(g, n0, n1)
    &&& forall|u: Vx, w: Vx| #[trigger] has_edge(bg, u, w) <==> joined_to(without_set(g, set![n0, n1]), x,
        nbrs(g, n0).union(nbrs(g, n1)).remove(x), u, w)
}

/// An edge of `g` away from `n0` and `n1` stays in the folded graph.
proof fn lemma_deg2_kept(g: Map<Vx, Set<Vx>>, n: nat, bg: Map<Vx, Set<Vx>>, x: Vx, n0: Vx, n1: Vx, u: Vx, w: Vx)
    requires
        simple_graph(g, n),
        deg2_folded(g, bg, x, n0, n1),
        has_edge(g, u, w),
        u != n0 && u != n1 && w != n0 && w != n1,
    ensures
        has_edge(bg, u, w),
{
    assert(g[u].difference(set![n0, n1]).contains(w));
    lemma_contains_len(g[u].difference(set![n0, n1]), w);
    assert(has_edge(without_set(g, set![n0, n1]), u, w));
}

/// Where `x` is in the cover `c` of the folded graph, `n0`, then `c`
/// without its first `x`, then `n1` cover `g`.
proof fn lemma_deg2_cover_x(g: Map<Vx, Set<Vx>>, n: nat, bg: Map<Vx, Set<Vx>>, x: Vx, n0: Vx, n1: Vx, c: Seq<Vx>, i: int)
    requires
        simple_graph(g, n),
        deg2_folded(g, bg, x, n0, n1),
        is_vertex_cover(bg, c.to_set()),
        0 <= i < c.len(),
        c[i] == x,
    ensures
        is_vertex_cover(g, (seq![n0] + swap_removed(c, i).push(n1)).to_set()),
{
    let rest = swap_removed(c, i).push(n1);
    let c2 = seq![n0] + rest;
    assert(c2[0] == n0);
    assert(c2[c2.len() - 1] == n1);
    assert forall|v: Vx| #[trigger] c.contains(v) && v != x implies c2.to_set().contains(v) by {
        lemma_swap_removed_keeps(c, i, v);
        let j = choose|j: int| 0 <= j < swap_removed(c, i).len() && swap_removed(c, i)[j] == v;
        assert(rest[j] == v);
        assert(c2[j + 1] == v);
    }
    assert forall|u: Vx, w: Vx| #[trigger] has_edge(g, u, w) implies c2.to_set().contains(u) || c2.to_set().contains(w) by {
        if u != n0 && u != n1 && w != n0 && w != n1 {
            assert(u != x && w != x) by {
                if u == x {
                    assert(nbrs(g, x).contains(w));
                }
                if w == x {
                    assert(has_edge(g, x, u));
                    assert(nbrs(g, x).contains(u));
                }
            }
            lemma_deg2_kept(g, n, bg, x, n0, n1, u, w);
            assert(c.to_set().contains(u) || c.to_set().contains(w));
        }
    }
}

/// Where `x` is not in the cover `c` of the folded graph, `x` followed by
/// `c` covers `g`.
proof fn lemma_deg2_cover_nox(g: Map<Vx, Set<Vx>>, n: nat, bg: Map<Vx, Set<Vx>>, x: Vx, n0: Vx, n1: Vx, c: Seq<Vx>)
    requires
        simple_graph(g, n),
        deg2_folded(g, bg, x, n0, n1),
        is_vertex_cover(bg, c.to_set()),
        !c.contains(x),
    ensures
        is_vertex_cover(g, (seq![x] + c).to_set()),
{
    let c2 = seq![x] + c;
    let f = nbrs(g, n0).union(nbrs(g, n1)).remove(x);
    assert(c2[0] == x);
    assert forall|v: Vx| #[trigger] c.contains(v) implies c2.to_set().contains(v) by {
        let j = choose|j: int| 0 <= j < c.len() && c[j] == v;
        assert(c2[j + 1] == v);
    }
    assert forall|u: Vx, w: Vx| #[trigger] has_edge(g, u, w) implies c2.to_set().contains(u) || c2.to_set().contains(w) by {
        if u != x && w != x {
            if u == n0 || u == n1 || w == n0 || w == n1 {
                let o = if u == n0 || u == n1 { w } else { u };
                assert(o != n0 && o != n1) by {
                    assert(!has_edge(g, n1, n0));
                }
                assert(has_edge(g, u, w) && has_edge(g, w, u));
                assert(f.contains(o));
                assert(joined_to(without_set(g, set![n0, n1]), x, f, x, o));
                assert(has_edge(bg, x, o));
                assert(c.to_set().contains(o));
            } else {
                lemma_deg2_kept(g, n, bg, x, n0, n1, u, w);
                assert(c.to_set().contains(u) || c.to_set().contains(w));
            }
        }
    }
}

/// `seq![v]` holds `v` and nothing else.
proof fn lemma_single_seq(v: Vx, w: Vx)
    ensures
        seq![v].contains(w) <==> w == v,
{
    if seq![v].contains(w) {
        let i = choose|i: int| 0 <= i < 1 && seq![v][i] == w;
    }
    if w == v {
        assert(seq![v][0] == w);
    }
}

/// The adjacent case of the degree-two step: both neighbours join the
/// solution, which is a safe step.
proof fn lemma_sound_deg2_adjacent(g0: Map<Vx, Set<Vx>>, a: &State, b: &State, x: Vx, n0: Vx, n1: Vx)
    requires
        sound(g0, a),
        a.wf(),
        deg2_fold(a, b, x, n0, n1),
        has_edge(a.graph@, n0, n1),
    ensures
        sound(g0, b),
{
    let g = a.graph@;
    a.graph.lemma_simple();
    let la = a.solution@.len() as int;
    let sq = seq![n0, n1];
    assert(b.solution@.subrange(la, b.solution@.len() as int) =~= sq);
    assert(added(a, b) =~= set![n0, n1]) by {
        assert(sq[0] == n0 && sq[1] == n1);
        assert forall|v: Vx| sq.to_set().contains(v) <==> set![n0, n1].contains(v) by {
            if sq.to_set().contains(v) {
                let i = choose|i: int| 0 <= i < sq.len() && sq[i] == v;
            }
        }
    }
    assert forall|c: Set<Vx>| #[trigger] is_vertex_cover(b.graph@, c) implies is_vertex_cover(a.graph@, c.union(added(a, b))) by {
        assert forall|u: Vx, w: Vx| #[trigger] has_edge(g, u, w) implies c.union(added(a, b)).contains(u) || c.union(added(a, b)).contains(w) by {
            if !set![n0, n1].contains(u) && !set![n0, n1].contains(w) {
                assert(g[u].difference(set![n0, n1]).contains(w));
                lemma_contains_len(g[u].difference(set![n0, n1]), w);
                assert(has_edge(b.graph@, u, w));
            }
        }
    }
    assert(b.solution@.subrange(0, la) =~= a.solution@);
    law_sound_safe(g0, a, b);
}

/// One cover `c` of the folded graph, run back through the degree-two
/// undo step, gives a cover of the graph before the fold.
proof fn lemma_deg2_undo(g: Map<Vx, Set<Vx>>, n: nat, bg: Map<Vx, Set<Vx>>, x: Vx, n0: Vx, n1: Vx,
    sa: Seq<Vx>, c: Seq<Vx>) -> (c2: Seq<Vx>)
    requires
        simple_graph(g, n),
        deg2_folded(g, bg, x, n0, n1),
        is_vertex_cover(bg, c.to_set()),
        !sa.contains(x),
        !sa.contains(n0),
    ensures
        undo(Cleanup::Deg2 { x, n0, n1 }, sa.push(n0) + c) == Some(sa + c2),
        is_vertex_cover(g, c2.to_set()),
{
    let sb = sa.push(n0);
    let s = sb + c;
    let la = sa.len() as int;
    assert(sb =~= sa + seq![n0]);
    lemma_concat_contains(sb, c, x);
    lemma_concat_contains(sa, seq![n0], x);
    lemma_single_seq(n0, x);
    assert(x != n0) by {
        assert(nbrs(g, x).contains(n0));
    }
    if s.contains(x) {
        lemma_first_pos_concat(sb, c, x);
        lemma_first_pos(c, x);
        let i = first_pos(c, x);
        lemma_swap_removed_concat(sb, c, i);
        let c2 = seq![n0] + swap_removed(c, i).push(n1);
        assert(swap_removed(s, first_pos(s, x)).push(n1) =~= sa + c2);
        lemma_deg2_cover_x(g, n, bg, x, n0, n1, c, i);
        c2
    } else {
        assert(s =~= sa + (seq![n0] + c));
        assert(s[la] == n0);
        lemma_concat_contains(sa, seq![n0] + c, n0);
        lemma_first_pos_concat(sa, seq![n0] + c, n0);
        lemma_first_pos(seq![n0] + c, n0);
        assert((seq![n0] + c)[0] == n0);
        assert(s.update(la, x) =~= sa + (seq![x] + c));
        lemma_deg2_cover_nox(g, n, bg, x, n0, n1, c);
        seq![x] + c
    }
}

/// A degree-two step keeps the state sound: where `x` ends up in the
/// cover of the folded graph, `n0` and `n1` cover its edges instead; where
/// it does not, `x` takes the place of `n0` and its new neighbours cover
/// the edges of `n0` and `n1`.
pub proof fn law_sound_deg2(g0: Map<Vx, Set<Vx>>, a: &State, b: &State, x: Vx, n0: Vx, n1: Vx)
    requires
        sound(g0, a),
        a.wf(),
        b.wf(),
        deg2_fold(a, b, x, n0, n1),
    ensures
        sound(g0, b),
{
    let g = a.graph@;
    a.graph.lemma_simple();
    b.graph.lemma_simple();
    let n = a.graph.spec_n();
    assert(nbrs(g, x).contains(n0) && nbrs(g, x).contains(n1));
    assert(g.dom().contains(x) && g.dom().contains(n0) && g.dom().contains(n1));
    if has_edge(g, n0, n1) {
        lemma_sound_deg2_adjacent(g0, a, b, x, n0, n1);
        return;
    }
    let g1 = without_set(g, set![n0, n1]);
    let f = nbrs(g, n0).union(nbrs(g, n1)).remove(x);
    assert(deg2_folded(g, b.graph@, x, n0, n1));
    assert(!f.contains(n0)) by {
        assert(!has_edge(g, n1, n0));
    }
    assert forall|v: Vx| #[trigger] b.graph@.dom().contains(v) implies g.dom().contains(v) && v != n0 by {
        lemma_dom_edge(b.graph@, b.graph.spec_n(), v);
        let w = b.graph@[v].choose();
        assert(joined_to(g1, x, f, v, w));
    }
    let sa = a.solution@;
    let sb = b.solution@;
    assert(sb =~= sa + seq![n0]);
    assert forall|v: Vx| #[trigger] sb.contains(v) implies !b.graph@.dom().contains(v) by {
        lemma_concat_contains(sa, seq![n0], v);
        lemma_single_seq(n0, v);
    }
    assert(!sa.contains(x) && !sa.contains(n0));
    assert(b.cleanup_funcs@.drop_last() =~= a.cleanup_funcs@);
    assert forall|c: Seq<Vx>| #[trigger] is_vertex_cover(b.graph@, c.to_set()) implies undo_covers(g0, b.cleanup_funcs@, sb + c) by {
        let c2 = lemma_deg2_undo(g, n, b.graph@, x, n0, n1, sa, c);
        assert(is_vertex_cover(a.graph@, c2.to_set()));
    }
}

/// The graph `tg` that a degree-three fold at `v` with neighbours `a`,
/// `b`, `c` makes of `g`.
pub open spec fn deg3_folded(g: Map<Vx, Set<Vx>>, tg: Map<Vx, Set<Vx>>, v: Vx, a: Vx, b: Vx, c: Vx) -> bool {
    &&& nbrs(g, v) == set![a, b, c]
    &&& a != b && b != c && a != c
    &&& !has_edge(g, a, b) && !has_edge(g, b, c) && !has_edge(g, a, c)
    &&& forall|x: Vx, y: Vx| #[trigger] has_edge(tg, x, y) <==> (x != v && y != v && (has_edge(g, x, y) || deg3_pair(g, a, b, c, x, y)))
}

/// Taking `r` out of a set `cs` that covers every edge away from `v` and
/// `r`, and holds every neighbour of `r` but `v`, and adding `v`, covers
/// `g`.
proof fn lemma_swap_in(g: Map<Vx, Set<Vx>>, n: nat, v: Vx, r: Vx, cs: Seq<Vx>)
    requires
        simple_graph(g, n),
        forall|w: Vx| #[trigger] has_edge(g, r, w) && w != v ==> cs.contains(w),
        forall|x: Vx, y: Vx| #[trigger] has_edge(g, x, y) && x != v && y != v && x != r && y != r ==> cs.contains(x) || cs.contains(y),
    ensures
        is_vertex_cover(g, without_all(cs, r).push(v).to_set()),
{
    let c2 = without_all(cs, r).push(v);
    assert(c2[c2.len() - 1] == v);
    assert forall|w: Vx| #[trigger] cs.contains(w) && w != r implies c2.to_set().contains(w) by {
        lemma_without_all_contains(cs, r, w);
        let j = choose|j: int| 0 <= j < without_all(cs, r).len() && without_all(cs, r)[j] == w;
        assert(c2[j] == w);
    }
    assert forall|x: Vx, y: Vx| #[trigger] has_edge(g, x, y) implies c2.to_set().contains(x) || c2.to_set().contains(y) by {
        if x != v && y != v {
            if x == r {
                assert(cs.contains(y) && y != r);
            } else if y == r {
                assert(has_edge(g, y, x));
                assert(cs.contains(x) && x != r);
            } else {
                assert(cs.contains(x) || cs.contains(y));
            }
        }
    }
}

/// One cover `cs` of the folded graph, run back through the degree-three
/// undo step, gives a cover of the graph before the fold.
proof fn lemma_deg3_undo(g: Map<Vx, Set<Vx>>, n: nat, tg: Map<Vx, Set<Vx>>, v: Vx, a: Vx, b: Vx, c: Vx,
    sa: Seq<Vx>, cs: Seq<Vx>) -> (c2: Seq<Vx>)
    requires
        simple_graph(g, n),
        deg3_folded(g, tg, v, a, b, c),
        is_vertex_cover(tg, cs.to_set()),
        !sa.contains(a),
        !sa.contains(b),
        !sa.contains(c),
    ensures
        undo(Cleanup::Deg3 { v, a, b, c }, sa + cs) == Some(sa + c2),
        is_vertex_cover(g, c2.to_set()),
{
    let s = sa + cs;
    lemma_concat_contains(sa, cs, a);
    lemma_concat_contains(sa, cs, b);
    lemma_concat_contains(sa, cs, c);
    assert(nbrs(g, v).contains(a) && nbrs(g, v).contains(b) && nbrs(g, v).contains(c));
    assert(v != a && v != b && v != c);
    assert(has_edge(tg, a, b) && has_edge(tg, b, c));
    assert forall|x: Vx, y: Vx| #[trigger] has_edge(g, x, y) && x != v && y != v implies cs.contains(x) || cs.contains(y) by {
        assert(has_edge(tg, x, y));
    }
    let (ha, hb, hc) = (cs.contains(a), cs.contains(b), cs.contains(c));
    if ha && hb && hc {
        assert forall|x: Vx, y: Vx| #[trigger] has_edge(g, x, y) implies cs.to_set().contains(x) || cs.to_set().contains(y) by {
            if x == v {
                assert(nbrs(g, v).contains(y));
            } else if y == v {
                assert(has_edge(g, v, x));
                assert(nbrs(g, v).contains(x));
            }
        }
        cs
    } else if ha && hb && !hc {
        assert forall|w: Vx| #[trigger] has_edge(g, a, w) && w != v implies cs.contains(w) by {
            assert(deg3_pair(g, a, b, c, c, w));
            assert(has_edge(tg, c, w));
        }
        lemma_swap_in(g, n, v, a, cs);
        lemma_without_all_concat(sa, cs, a);
        assert(without_all(s, a).push(v) =~= sa + without_all(cs, a).push(v));
        without_all(cs, a).push(v)
    } else if !ha && hb && hc {
        assert forall|w: Vx| #[trigger] has_edge(g, b, w) && w != v implies cs.contains(w) by {
            assert(deg3_pair(g, a, b, c, a, w));
            assert(has_edge(tg, a, w));
        }
        lemma_swap_in(g, n, v, b, cs);
        lemma_without_all_concat(sa, cs, b);
        assert(without_all(s, b).push(v) =~= sa + without_all(cs, b).push(v));
        without_all(cs, b).push(v)
    } else if ha && !hb && hc {
        assert forall|w: Vx| #[trigger] has_edge(g, c, w) && w != v implies cs.contains(w) by {
            assert(deg3_pair(g, a, b, c, b, w));
            assert(has_edge(tg, b, w));
        }
        lemma_swap_in(g, n, v, c, cs);
        lemma_without_all_concat(sa, cs, c);
        assert(without_all(s, c).push(v) =~= sa + without_all(cs, c).push(v));
        without_all(cs, c).push(v)
    } else {
        assert(!ha && hb && !hc);
        assert forall|w: Vx| #[trigger] has_edge(g, b, w) && w != v implies cs.contains(w) by {
            assert(deg3_pair(g, a, b, c, a, w));
            assert(has_edge(tg, a, w));
        }
        lemma_swap_in(g, n, v, b, cs);
        lemma_without_all_concat(sa, cs, b);
        assert(without_all(s, b).push(v) =~= sa + without_all(cs, b).push(v));
        without_all(cs, b).push(v)
    }
}

/// A degree-three fold keeps the state sound: whichever of `a`, `b`, `c`
/// the cover of the folded graph holds, the undo step swaps one of them
/// for `v` and still covers every edge.
pub proof fn law_sound_deg3(g0: Map<Vx, Set<Vx>>, s: &State, t: &State, v: Vx, a: Vx, b: Vx, c: Vx)
    requires
        sound(g0, s),
        s.wf(),
        t.wf(),
        deg3_fold(s, t, v, a, b, c),
    ensures
        sound(g0, t),
{
    let g = s.graph@;
    s.graph.lemma_simple();
    t.graph.lemma_simple();
    let n = s.graph.spec_n();
    assert(nbrs(g, v).contains(a) && nbrs(g, v).contains(b) && nbrs(g, v).contains(c));
    assert(has_edge(g, v, a) && has_edge(g, v, b) && has_edge(g, v, c));
    assert(g.dom().contains(a) && g.dom().contains(b) && g.dom().contains(c));
    assert(deg3_folded(g, t.graph@, v, a, b, c));
    assert forall|x: Vx| #[trigger] t.graph@.dom().contains(x) implies g.dom().contains(x) by {
        lemma_dom_edge(t.graph@, t.graph.spec_n(), x);
        let y = t.graph@[x].choose();
        assert(has_edge(t.graph@, x, y));
        if !has_edge(g, x, y) {
            assert(deg3_pair(g, a, b, c, x, y));
            if x != a && x != b && x != c {
                assert(nbrs(g, b).contains(x) || nbrs(g, c).contains(x) || nbrs(g, a).contains(x));
                if nbrs(g, b).contains(x) {
                    assert(has_edge(g, b, x));
                } else if nbrs(g, c).contains(x) {
                    assert(has_edge(g, c, x));
                } else {
                    assert(has_edge(g, a, x));
                }
            }
        }
    }
    let sa = s.solution@;
    assert(!sa.contains(a) && !sa.contains(b) && !sa.contains(c));
    assert(t.cleanup_funcs@.drop_last() =~= s.cleanup_funcs@);
    assert forall|cs: Seq<Vx>| #[trigger] is_vertex_cover(t.graph@, cs.to_set()) implies undo_covers(g0, t.cleanup_funcs@, t.solution@ + cs) by {
        let c2 = lemma_deg3_undo(g, n, t.graph@, v, a, b, c, sa, cs);
        assert(is_vertex_cover(s.graph@, c2.to_set()));
    }
}

/// The graph `tg` that a two-clique fold at `x` with the split
/// `(c1, c2, pairs)` makes of `g`.
#[verifier::opaque]
pub open spec fn two_clique_folded(g: Map<Vx, Set<Vx>>, tg: Map<Vx, Set<Vx>>, x: Vx, c1: Set<Vx>, c2: Set<Vx>,
    pairs: Seq<(Vx, Vx)>) -> bool {
    &&& split_ok(g, x, c1, c2, pairs)
    &&& forall|u: Vx, w: Vx| #[trigger] has_edge(tg, u, w) <==> (u != x && w != x && !c2.contains(u) && !c2.contains(w)
        && with_pairs(g, pairs, u, w))
}

/// An edge of `g` away from `x` and `c2` stays in the folded graph.
proof fn lemma_tc_kept(g: Map<Vx, Set<Vx>>, tg: Map<Vx, Set<Vx>>, x: Vx, c1: Set<Vx>, c2: Set<Vx>, pairs: Seq<(Vx, Vx)>,
    u: Vx, w: Vx)
    requires
        two_clique_folded(g, tg, x, c1, c2, pairs),
        has_edge(g, u, w),
        u != x && w != x && !c2.contains(u) && !c2.contains(w),
    ensures
        has_edge(tg, u, w),
{
    reveal(two_clique_folded);
    assert(with_pairs(g, pairs, u, w));
}

/// Where the cover holds every vertex of `c1`, `c2` and the cover cover `g`.
proof fn lemma_tc_all(g: Map<Vx, Set<Vx>>, n: nat, tg: Map<Vx, Set<Vx>>, x: Vx, c1: Set<Vx>, c2: Set<Vx>,
    pairs: Seq<(Vx, Vx)>, rest: Seq<Vx>, cs: Seq<Vx>)
    requires
        simple_graph(g, n),
        two_clique_folded(g, tg, x, c1, c2, pairs),
        is_vertex_cover(tg, cs.to_set()),
        forall|w: Vx| #[trigger] c2.contains(w) ==> rest.contains(w),
        forall|w: Vx| #[trigger] cs.contains(w) ==> rest.contains(w),
        forall|w: Vx| #[trigger] c1.contains(w) ==> rest.contains(w),
    ensures
        is_vertex_cover(g, rest.to_set()),
{
    reveal(two_clique_folded);
    assert forall|u: Vx, w: Vx| #[trigger] has_edge(g, u, w) implies rest.to_set().contains(u) || rest.to_set().contains(w) by {
        if u == x || w == x {
            let o = if u == x { w } else { u };
            assert(has_edge(g, x, o));
            assert(nbrs(g, x).contains(o));
        } else if !c2.contains(u) && !c2.contains(w) {
            lemma_tc_kept(g, tg, x, c1, c2, pairs, u, w);
            assert(cs.to_set().contains(u) || cs.to_set().contains(w));
        }
    }
}

/// Where the cover misses the vertex `ci` of the pair `(ci, si)`, every
/// neighbour of `si` but `x` is in `rest`.
proof fn lemma_tc_missing(g: Map<Vx, Set<Vx>>, n: nat, tg: Map<Vx, Set<Vx>>, x: Vx, c1: Set<Vx>, c2: Set<Vx>,
    pairs: Seq<(Vx, Vx)>, rest: Seq<Vx>, cs: Seq<Vx>, i: int)
    requires
        simple_graph(g, n),
        two_clique_folded(g, tg, x, c1, c2, pairs),
        is_vertex_cover(tg, cs.to_set()),
        forall|w: Vx| #[trigger] c2.contains(w) ==> rest.contains(w),
        forall|w: Vx| #[trigger] cs.contains(w) ==> rest.contains(w),
        0 <= i < pairs.len(),
        !cs.contains(pairs[i].0),
    ensures
        forall|w: Vx| #[trigger] has_edge(g, pairs[i].1, w) && w != x ==> rest.contains(w),
        forall|u: Vx, w: Vx| #[trigger] has_edge(g, u, w) && u != x && w != x && u != pairs[i].1 && w != pairs[i].1
            ==> rest.contains(u) || rest.contains(w),
{
    reveal(two_clique_folded);
    let ci = pairs[i].0;
    let si = pairs[i].1;
    assert(c1.contains(ci) && c2.contains(si));
    assert(non_nbrs(g, x, ci) == set![si]);
    assert(nbrs(g, x).contains(ci));
    assert(ci != x && !c2.contains(ci)) by {
        assert(c1.disjoint(c2));
    }
    assert forall|w: Vx| #[trigger] has_edge(g, si, w) && w != x implies rest.contains(w) by {
        if c2.contains(w) {
        } else if nbrs(g, x).contains(w) {
            assert(c1.contains(w));
            let j = choose|j: int| 0 <= j < pairs.len() && (#[trigger] pairs[j]).0 == w;
            assert(w != ci) by {
                assert(non_nbrs(g, x, ci).contains(si));
                assert(!has_edge(g, ci, si));
            }
            assert(j != i);
            lemma_c1_clique(g, x, c1, c2, pairs, i, j);
            lemma_tc_kept(g, tg, x, c1, c2, pairs, ci, w);
            assert(cs.to_set().contains(ci) || cs.to_set().contains(w));
        } else {
            assert(w != ci) by {
                assert(non_nbrs(g, x, ci).contains(si));
                assert(!has_edge(g, ci, si));
            }
            assert(tc_edge(g, pairs[i], ci, w)) by {
                assert(nbrs(g, si).contains(w));
            }
            assert(tc_pair(g, pairs, ci, w));
            assert(has_edge(tg, ci, w));
            assert(cs.to_set().contains(ci) || cs.to_set().contains(w));
        }
    }
    assert forall|u: Vx, w: Vx| #[trigger] has_edge(g, u, w) && u != x && w != x && u != si && w != si
        implies rest.contains(u) || rest.contains(w) by {
        if !c2.contains(u) && !c2.contains(w) {
            lemma_tc_kept(g, tg, x, c1, c2, pairs, u, w);
            assert(cs.to_set().contains(u) || cs.to_set().contains(w));
        }
    }
}

/// Where no pair is missing, `add` and the cover cover `g`.
proof fn lemma_tc_undo_none(g: Map<Vx, Set<Vx>>, n: nat, tg: Map<Vx, Set<Vx>>, x: Vx, c1: Set<Vx>, c2: Set<Vx>,
    pairs: Seq<(Vx, Vx)>, sa: Seq<Vx>, add: Seq<Vx>, cs: Seq<Vx>)
    requires
        simple_graph(g, n),
        two_clique_folded(g, tg, x, c1, c2, pairs),
        add.to_set() == c2,
        is_vertex_cover(tg, cs.to_set()),
        forall|v: Vx| #[trigger] sa.contains(v) ==> !g.dom().contains(v),
        forall|k: int| 0 <= k < pairs.len() ==> (sa + add + cs).contains(#[trigger] pairs[k].0),
    ensures
        is_vertex_cover(g, (add + cs).to_set()),
{
    reveal(two_clique_folded);
    let rest = add + cs;
    assert(sa + add + cs =~= sa + rest);
    assert forall|w: Vx| #[trigger] c2.contains(w) implies rest.contains(w) by {
        assert(add.to_set().contains(w));
        lemma_concat_contains(add, cs, w);
    }
    assert forall|w: Vx| #[trigger] cs.contains(w) implies rest.contains(w) by {
        lemma_concat_contains(add, cs, w);
    }
    assert forall|w: Vx| #[trigger] c1.contains(w) implies rest.contains(w) by {
        let k = choose|k: int| 0 <= k < pairs.len() && (#[trigger] pairs[k]).0 == w;
        assert((sa + rest).contains(pairs[k].0));
        assert(nbrs(g, x).contains(w));
        assert(has_edge(g, x, w));
        lemma_concat_contains(sa, rest, w);
    }
    lemma_tc_all(g, n, tg, x, c1, c2, pairs, rest, cs);
}

/// Where the pair `i` is missing, `x` in place of its partner covers `g`.
proof fn lemma_tc_undo_some(g: Map<Vx, Set<Vx>>, n: nat, tg: Map<Vx, Set<Vx>>, x: Vx, c1: Set<Vx>, c2: Set<Vx>,
    pairs: Seq<(Vx, Vx)>, sa: Seq<Vx>, add: Seq<Vx>, cs: Seq<Vx>, i: int)
    requires
        simple_graph(g, n),
        two_clique_folded(g, tg, x, c1, c2, pairs),
        add.to_set() == c2,
        is_vertex_cover(tg, cs.to_set()),
        forall|v: Vx| #[trigger] sa.contains(v) ==> !g.dom().contains(v),
        0 <= i < pairs.len(),
        !(sa + add + cs).contains(pairs[i].0),
    ensures
        without_all(sa + add + cs, pairs[i].1).push(x) == sa + without_all(add + cs, pairs[i].1).push(x),
        is_vertex_cover(g, without_all(add + cs, pairs[i].1).push(x).to_set()),
{
    reveal(two_clique_folded);
    let rest = add + cs;
    let si = pairs[i].1;
    assert(sa + add + cs =~= sa + rest);
    assert forall|w: Vx| #[trigger] c2.contains(w) implies rest.contains(w) by {
        assert(add.to_set().contains(w));
        lemma_concat_contains(add, cs, w);
    }
    assert forall|w: Vx| #[trigger] cs.contains(w) implies rest.contains(w) by {
        lemma_concat_contains(add, cs, w);
    }
    lemma_concat_contains(sa, rest, pairs[i].0);
    lemma_concat_contains(add, cs, pairs[i].0);
    lemma_tc_missing(g, n, tg, x, c1, c2, pairs, rest, cs, i);
    assert(c2.contains(si));
    assert(nbrs(g, x).contains(si));
    assert(has_edge(g, x, si));
    assert(!sa.contains(si));
    lemma_swap_in(g, n, x, si, rest);
    lemma_without_all_concat(sa, rest, si);
}

/// One cover `cs` of the folded graph, run back through the two-clique
/// undo step, gives a cover of the graph before the fold.
proof fn lemma_two_clique_undo(g: Map<Vx, Set<Vx>>, n: nat, tg: Map<Vx, Set<Vx>>, x: Vx, c1: Set<Vx>, c2: Set<Vx>,
    pairs: Seq<(Vx, Vx)>, pv: Vec<(Vx, Vx)>, sa: Seq<Vx>, add: Seq<Vx>, cs: Seq<Vx>) -> (c3: Seq<Vx>)
    requires
        simple_graph(g, n),
        two_clique_folded(g, tg, x, c1, c2, pairs),
        pv@ == pairs,
        add.to_set() == c2,
        is_vertex_cover(tg, cs.to_set()),
        forall|v: Vx| #[trigger] sa.contains(v) ==> !g.dom().contains(v),
    ensures
        undo(Cleanup::TwoClique { x, pairs: pv }, sa + add + cs) == Some(sa + c3),
        is_vertex_cover(g, c3.to_set()),
{
    let s = sa + add + cs;
    if exists|k: int| 0 <= k < pairs.len() && !s.contains(pairs[k].0) {
        let k0 = choose|k: int| 0 <= k < pairs.len() && !s.contains(pairs[k].0);
        let m = first_missing_index(pairs, s, k0);
        assert(0 <= m < pairs.len() && !s.contains(pairs[m].0) && forall|j: int| 0 <= j < m ==> s.contains(pairs[j].0));
        let i = choose|k: int| 0 <= k < pairs.len() && !s.contains(pairs[k].0) && forall|j: int| 0 <= j < k ==> s.contains(pairs[j].0);
        assert(crate::cleanup::first_missing(pairs, s) == Some(i));
        lemma_tc_undo_some(g, n, tg, x, c1, c2, pairs, sa, add, cs, i);
        without_all(add + cs, pairs[i].1).push(x)
    } else {
        assert(crate::cleanup::first_missing(pairs, s) is None);
        assert forall|k: int| 0 <= k < pairs.len() implies s.contains(#[trigger] pairs[k].0) by {}
        lemma_tc_undo_none(g, n, tg, x, c1, c2, pairs, sa, add, cs);
        assert(s =~= sa + (add + cs));
        add + cs
    }
}

/// Some pair at or before `k` is the first whose vertex `s` lacks.
proof fn first_missing_index(pairs: Seq<(Vx, Vx)>, s: Seq<Vx>, k: int) -> (m: int)
    requires
        0 <= k < pairs.len(),
        !s.contains(pairs[k].0),
    ensures
        0 <= m <= k,
        !s.contains(pairs[m].0),
        forall|j: int| 0 <= j < m ==> s.contains(pairs[j].0),
    decreases k,
{
    if exists|j: int| 0 <= j < k && !s.contains(pairs[j].0) {
        let j = choose|j: int| 0 <= j < k && !s.contains(pairs[j].0);
        first_missing_index(pairs, s, j)
    } else {
        k
    }
}

/// A two-clique fold keeps the state sound: where every vertex of `c1` is
/// in the cover, `x` is covered by them and `c2`; where one `c` of `c1`
/// is not, its partner `s` makes way for `x`, and the neighbours of `s`
/// are covered through the edges that `c` took over.
pub proof fn law_sound_two_clique(g0: Map<Vx, Set<Vx>>, s: &State, t: &State, x: Vx, c1: Set<Vx>, c2: Set<Vx>,
    pairs: Seq<(Vx, Vx)>)
    requires
        sound(g0, s),
        s.wf(),
        t.wf(),
        two_clique_fold(s, t, x, c1, c2, pairs),
    ensures
        sound(g0, t),
{
    let g = s.graph@;
    s.graph.lemma_simple();
    t.graph.lemma_simple();
    let n = s.graph.spec_n();
    let la = s.solution@.len() as int;
    let add = t.solution@.subrange(la, t.solution@.len() as int);
    assert(t.solution@ =~= s.solution@ + add);
    assert(two_clique_folded(g, t.graph@, x, c1, c2, pairs)) by {
        reveal(two_clique_folded);
    }
    assert forall|v: Vx| #[trigger] t.graph@.dom().contains(v) implies g.dom().contains(v) && !c2.contains(v) by {
        lemma_dom_edge(t.graph@, t.graph.spec_n(), v);
        let w = t.graph@[v].choose();
        assert(has_edge(t.graph@, v, w));
        assert(with_pairs(g, pairs, v, w));
        if !has_edge(g, v, w) {
            let k = choose|k: int| 0 <= k < pairs.len() && #[trigger] tc_edge(g, pairs[k], v, w);
            assert(c1.contains(pairs[k].0));
            assert(nbrs(g, x).contains(pairs[k].0));
            assert(has_edge(g, x, pairs[k].0));
            if v != pairs[k].0 {
                assert(nbrs(g, pairs[k].1).contains(v));
                assert(has_edge(g, pairs[k].1, v));
            }
        }
    }
    assert forall|v: Vx| #[trigger] t.solution@.contains(v) implies !t.graph@.dom().contains(v) by {
        lemma_concat_contains(s.solution@, add, v);
        if add.contains(v) {
            assert(add.to_set().contains(v));
        }
    }
    let last = t.cleanup_funcs@.last();
    assert(t.cleanup_funcs@.drop_last() =~= s.cleanup_funcs@);
    let pv = match last {
        Cleanup::TwoClique { x: _, pairs: q } => q,
        _ => arbitrary(),
    };
    assert(last == Cleanup::TwoClique { x, pairs: pv });
    assert forall|cs: Seq<Vx>| #[trigger] is_vertex_cover(t.graph@, cs.to_set()) implies undo_covers(g0, t.cleanup_funcs@, t.solution@ + cs) by {
        let c3 = lemma_two_clique_undo(g, n, t.graph@, x, c1, c2, pairs, pv, s.solution@, add, cs);
        assert(t.solution@ + cs =~= s.solution@ + add + cs);
        assert(is_vertex_cover(s.graph@, c3.to_set()));
    }
}

/// Soundness depends on the graph, the solution and the undo steps alone.
pub proof fn lemma_sound_congr(g0: Map<Vx, Set<Vx>>, a: &State, b: &State)
    requires
        sound(g0, a),
        b.graph@ == a.graph@,
        b.solution@ == a.solution@,
        b.cleanup_funcs@ == a.cleanup_funcs@,
    ensures
        sound(g0, b),
{
    assert forall|c: Seq<Vx>| #[trigger] is_vertex_cover(b.graph@, c.to_set()) implies undo_covers(g0, b.cleanup_funcs@, b.solution@ + c) by {
        assert(is_vertex_cover(a.graph@, c.to_set()));
    }
}

/// A run of degree-two steps keeps the state sound.
pub proof fn law_sound_deg2_steps(g0: Map<Vx, Set<Vx>>, a: State, b: State, k: nat)
    requires
        sound(g0, &a),
        a.wf(),
        b.wf(),
        deg2_steps(a, b, k),
    ensures
        sound(g0, &b),
    decreases k,
{
    if k == 0 {
        lemma_sound_congr(g0, &a, &b);
    } else {
        let (m, x, n0, n1) = choose|m: State, x: Vx, n0: Vx, n1: Vx| deg2_steps(a, m, (k - 1) as nat) && m.wf()
            && #[trigger] deg2_fold(&m, &b, x, n0, n1);
        law_sound_deg2_steps(g0, a, m, (k - 1) as nat);
        law_sound_deg2(g0, &m, &b, x, n0, n1);
    }
}

/// A run of degree-three folds keeps the state sound.
pub proof fn law_sound_deg3_steps(g0: Map<Vx, Set<Vx>>, a: State, b: State, k: nat)
    requires
        sound(g0, &a),
        a.wf(),
        b.wf(),
        deg3_steps(a, b, k),
    ensures
        sound(g0, &b),
    decreases k,
{
    if k == 0 {
        lemma_sound_congr(g0, &a, &b);
    } else {
        let (m, v, x, y, z) = choose|m: State, v: Vx, x: Vx, y: Vx, z: Vx| deg3_steps(a, m, (k - 1) as nat) && m.wf()
            && #[trigger] deg3_fold(&m, &b, v, x, y, z);
        law_sound_deg3_steps(g0, a, m, (k - 1) as nat);
        law_sound_deg3(g0, &m, &b, v, x, y, z);
    }
}

/// A run of two-clique folds keeps the state sound.
pub proof fn law_sound_two_clique_steps(g0: Map<Vx, Set<Vx>>, a: State, b: State, k: nat)
    requires
        sound(g0, &a),
        a.wf(),
        b.wf(),
        two_clique_steps(a, b, k),
    ensures
        sound(g0, &b),
    decreases k,
{
    if k == 0 {
        lemma_sound_congr(g0, &a, &b);
    } else {
        let (m, x, c1, c2, pairs) = choose|m: State, x: Vx, c1: Set<Vx>, c2: Set<Vx>, pairs: Seq<(Vx, Vx)>|
            two_clique_steps(a, m, (k - 1) as nat) && m.wf() && #[trigger] two_clique_fold(&m, &b, x, c1, c2, pairs);
        law_sound_two_clique_steps(g0, a, m, (k - 1) as nat);
        law_sound_two_clique(g0, &m, &b, x, c1, c2, pairs);
    }
}

/// The vertices that the undo step `c` names.
pub open spec fn cleanup_vertices(c: Cleanup) -> Set<Vx> {
    match c {
        Cleanup::Deg2 { x, n0, n1 } => set![x, n0, n1],
        Cleanup::Deg3 { v, a, b, c } => set![v, a, b, c],
        Cleanup::TwoClique { x, pairs } => Set::new(|w: Vx| w == x || exists|k: int| 0 <= k < pairs@.len()
            && (#[trigger] pairs@[k].0 == w || pairs@[k].1 == w)),
    }
}

/// No element of `y` is named by an undo step of `cl`.
pub open spec fn avoids(y: Seq<Vx>, cl: Seq<Cleanup>) -> bool {
    forall|j: int, v: Vx| 0 <= j < cl.len() && #[trigger] cleanup_vertices(cl[j]).contains(v) ==> !y.contains(v)
}

/// Copies of an undo step undo alike.
pub proof fn lemma_undo_eq(c1: Cleanup, c2: Cleanup, s: Seq<Vx>)
    requires
        cleanup_eq(c1, c2),
    ensures
        undo(c1, s) == undo(c2, s),
        cleanup_vertices(c1) == cleanup_vertices(c2),
{
    match (c1, c2) {
        (Cleanup::TwoClique { x, pairs }, Cleanup::TwoClique { x: x2, pairs: p2 }) => {
            assert(cleanup_vertices(c1) =~= cleanup_vertices(c2));
        },
        _ => {},
    }
}

/// Two runs of undo steps that are copies of each other, place by place.
pub open spec fn cleanups_eq(a: Seq<Cleanup>, b: Seq<Cleanup>) -> bool {
    &&& a.len() == b.len()
    &&& forall|i: int| 0 <= i < a.len() ==> cleanup_eq(#[trigger] a[i], b[i])
}

/// Copies of a run of undo steps undo alike.
pub proof fn lemma_undo_all_eq(a: Seq<Cleanup>, b: Seq<Cleanup>, s: Seq<Vx>)
    requires
        cleanups_eq(a, b),
    ensures
        undo_all(a, s) == undo_all(b, s),
    decreases a.len(),
{
    if a.len() > 0 {
        lemma_undo_eq(a.last(), b.last(), s);
        assert(cleanup_eq(a[a.len() - 1], b[b.len() - 1]));
        match undo(a.last(), s) {
            Some(s2) => {
                assert(cleanups_eq(a.drop_last(), b.drop_last())) by {
                    assert forall|i: int| 0 <= i < a.drop_last().len() implies cleanup_eq(#[trigger] a.drop_last()[i], b.drop_last()[i]) by {
                        assert(cleanup_eq(a[i], b[i]));
                    }
                }
                lemma_undo_all_eq(a.drop_last(), b.drop_last(), s2);
            },
            None => {},
        }
    }
}

/// The multiset of `s` with one `s[i]` gone, where `s` was swap-removed at `i`.
pub proof fn lemma_swap_removed_ms(s: Seq<Vx>, i: int)
    requires
        0 <= i < s.len(),
    ensures
        swap_removed(s, i).to_multiset() == s.to_multiset().remove(s[i]),
{
    broadcast use vstd::seq_lib::group_to_multiset_ensures;
    let t = s.update(i, s.last());
    if i == s.len() - 1 {
        assert(swap_removed(s, i) =~= s.remove(i));
    } else {
        let l = s.len() - 1;
        assert(t.drop_last() =~= t.remove(l));
        assert(t.remove(l).to_multiset() == t.to_multiset().remove(t[l]));
        lemma_update_ms(s, i, s.last());
        assert(t.to_multiset() == s.to_multiset().remove(s[i]).insert(s.last()));
        assert(t[l] == s.last());
        assert(t.to_multiset().remove(s.last()) =~= s.to_multiset().remove(s[i]));
    }
}

/// The multiset of `s.update(i, x)`: one `s[i]` gone, one `x` more.
pub proof fn lemma_update_ms(s: Seq<Vx>, i: int, x: Vx)
    requires
        0 <= i < s.len(),
    ensures
        s.update(i, x).to_multiset() == s.to_multiset().remove(s[i]).insert(x),
{
    broadcast use vstd::seq_lib::group_to_multiset_ensures;
    let a = s.subrange(0, i);
    let b = s.subrange(i + 1, s.len() as int);
    assert(s =~= a + seq![s[i]] + b);
    assert(s.update(i, x) =~= a + seq![x] + b);
    vstd::seq_lib::lemma_multiset_commutative(a + seq![s[i]], b);
    vstd::seq_lib::lemma_multiset_commutative(a, seq![s[i]]);
    vstd::seq_lib::lemma_multiset_commutative(a + seq![x], b);
    vstd::seq_lib::lemma_multiset_commutative(a, seq![x]);
    assert(seq![s[i]] =~= Seq::<Vx>::empty().push(s[i]));
    assert(seq![x] =~= Seq::<Vx>::empty().push(x));
    assert(s.update(i, x).to_multiset() =~= s.to_multiset().remove(s[i]).insert(x));
}

/// The multiset of `without_all(s, a)`: every `a` gone.
pub proof fn lemma_without_all_ms(s: Seq<Vx>, a: Vx)
    ensures
        forall|v: Vx| #[trigger] without_all(s, a).to_multiset().count(v) == if v == a { 0 } else { s.to_multiset().count(v) },
    decreases s.len(),
{
    broadcast use vstd::seq_lib::group_to_multiset_ensures;
    reveal(Seq::filter);
    if s.len() == 0 {
        assert(without_all(s, a) =~= Seq::<Vx>::empty());
    } else {
        let d = s.drop_last();
        lemma_without_all_ms(d, a);
        assert(s =~= d.push(s.last()));
        if s.last() != a {
            assert(without_all(s, a) == without_all(d, a).push(s.last()));
        } else {
            assert(without_all(s, a) == without_all(d, a));
        }
    }
}

/// `first_missing` gives the first pair whose vertex `s` lacks, or
/// `None` where `s` holds them all.
pub proof fn lemma_first_missing(pairs: Seq<(Vx, Vx)>, s: Seq<Vx>)
    ensures
        first_missing(pairs, s) matches Some(i) ==> 0 <= i < pairs.len() && !s.contains(pairs[i].0)
            && forall|j: int| 0 <= j < i ==> s.contains(#[trigger] pairs[j].0),
        first_missing(pairs, s) is None ==> forall|k: int| 0 <= k < pairs.len() ==> s.contains(#[trigger] pairs[k].0),
{
    if exists|k: int| 0 <= k < pairs.len() && !s.contains(pairs[k].0) {
        let k0 = choose|k: int| 0 <= k < pairs.len() && !s.contains(pairs[k].0);
        let m = first_missing_index(pairs, s, k0);
        assert(0 <= m < pairs.len() && !s.contains(pairs[m].0) && forall|j: int| 0 <= j < m ==> s.contains(pairs[j].0));
    }
}

/// Where `s` is `l` and `y` together and `y` holds no vertex named by `c`:
/// `s` and `l` hold the same named vertices.
proof fn lemma_frame_contains(s: Seq<Vx>, l: Seq<Vx>, y: Seq<Vx>, v: Vx)
    requires
        s.to_multiset() == l.to_multiset().add(y.to_multiset()),
        !y.contains(v),
    ensures
        s.contains(v) <==> l.contains(v),
{
    broadcast use vstd::seq_lib::group_to_multiset_ensures;
    broadcast use vstd::multiset::group_multiset_axioms;
    assert(y.to_multiset().count(v) == 0);
    assert(s.to_multiset().count(v) == l.to_multiset().count(v) + y.to_multiset().count(v));
}

/// The undo step `c` acts on the part of a solution that it names and
/// leaves the rest alone: where `s` holds the elements of `l` and of `y`,
/// and `y` holds no vertex named by `c`, undoing `c` on `s` succeeds just
/// where it succeeds on `l`, and gives the elements of that result and
/// of `y`.
pub proof fn lemma_undo_frame(c: Cleanup, s: Seq<Vx>, l: Seq<Vx>, y: Seq<Vx>)
    requires
        s.to_multiset() == l.to_multiset().add(y.to_multiset()),
        forall|v: Vx| #[trigger] cleanup_vertices(c).contains(v) ==> !y.contains(v),
    ensures
        undo(c, s) is Some <==> undo(c, l) is Some,
        undo(c, s) is Some ==> undo(c, s)->0.to_multiset() == undo(c, l)->0.to_multiset().add(y.to_multiset()),
{
    broadcast use vstd::seq_lib::group_to_multiset_ensures;
    broadcast use vstd::multiset::group_multiset_axioms;
    let ms = s.to_multiset();
    let ml = l.to_multiset();
    let my = y.to_multiset();
    match c {
        Cleanup::Deg2 { x, n0, n1 } => {
            assert(cleanup_vertices(c).contains(x) && cleanup_vertices(c).contains(n0) && cleanup_vertices(c).contains(n1));
            lemma_frame_contains(s, l, y, x);
            lemma_frame_contains(s, l, y, n0);
            if s.contains(x) {
                lemma_first_pos(s, x);
                lemma_first_pos(l, x);
                lemma_swap_removed_ms(s, first_pos(s, x));
                lemma_swap_removed_ms(l, first_pos(l, x));
                assert(ml.count(x) > 0);
                assert(ms.remove(x).insert(n1) =~= ml.remove(x).insert(n1).add(my));
            } else if s.contains(n0) {
                lemma_first_pos(s, n0);
                lemma_first_pos(l, n0);
                lemma_update_ms(s, first_pos(s, n0), x);
                lemma_update_ms(l, first_pos(l, n0), x);
                assert(ml.count(n0) > 0);
                assert(ms.remove(n0).insert(x) =~= ml.remove(n0).insert(x).add(my));
            }
        },
        Cleanup::Deg3 { v, a, b, c: cc } => {
            assert(cleanup_vertices(c).contains(v) && cleanup_vertices(c).contains(a) && cleanup_vertices(c).contains(b)
                && cleanup_vertices(c).contains(cc));
            lemma_frame_contains(s, l, y, a);
            lemma_frame_contains(s, l, y, b);
            lemma_frame_contains(s, l, y, cc);
            let (ha, hb, hc) = (s.contains(a), s.contains(b), s.contains(cc));
            let r = if ha && hb && !hc { a } else if !ha && hb && hc { b } else if ha && !hb && hc { cc } else { b };
            if !(ha && hb && hc) && ((ha && hb && !hc) || (!ha && hb && hc) || (ha && !hb && hc) || (!ha && hb && !hc)) {
                lemma_without_all_ms(s, r);
                lemma_without_all_ms(l, r);
                assert(my.count(r) == 0);
                assert(without_all(s, r).push(v).to_multiset() =~= without_all(l, r).push(v).to_multiset().add(my));
            }
        },
        Cleanup::TwoClique { x, pairs } => {
            let ps = pairs@;
            assert forall|k: int| 0 <= k < ps.len() implies (s.contains(#[trigger] ps[k].0) <==> l.contains(ps[k].0))
                && (s.contains(ps[k].1) <==> l.contains(ps[k].1)) by {
                assert(cleanup_vertices(c).contains(ps[k].0));
                assert(cleanup_vertices(c).contains(ps[k].1));
                lemma_frame_contains(s, l, y, ps[k].0);
                lemma_frame_contains(s, l, y, ps[k].1);
            }
            lemma_first_missing(ps, s);
            lemma_first_missing(ps, l);
            match (first_missing(ps, s), first_missing(ps, l)) {
                (Some(i), Some(j)) => {
                    if i < j {
                        assert(l.contains(ps[i].0));
                    }
                    if j < i {
                        assert(s.contains(ps[j].0));
                    }
                    assert(i == j);
                    let si = ps[i].1;
                    assert(cleanup_vertices(c).contains(si));
                    lemma_without_all_ms(s, si);
                    lemma_without_all_ms(l, si);
                    assert(my.count(si) == 0);
                    assert(without_all(s, si).push(x).to_multiset() =~= without_all(l, si).push(x).to_multiset().add(my));
                },
                (Some(i), None) => {
                    assert(l.contains(ps[i].0));
                },
                (None, Some(j)) => {
                    assert(s.contains(ps[j].0));
                },
                (None, None) => {},
            }
        },
    }
}

/// A run of undo steps acts on the part of a solution that it names and
/// leaves the rest alone (see `lemma_undo_frame`).
pub proof fn lemma_undo_all_frame(cl: Seq<Cleanup>, s: Seq<Vx>, l: Seq<Vx>, y: Seq<Vx>)
    requires
        s.to_multiset() == l.to_multiset().add(y.to_multiset()),
        avoids(y, cl),
    ensures
        undo_all(cl, s) is Some <==> undo_all(cl, l) is Some,
        undo_all(cl, s) is Some ==> undo_all(cl, s)->0.to_multiset() == undo_all(cl, l)->0.to_multiset().add(y.to_multiset()),
    decreases cl.len(),
{
    if cl.len() > 0 {
        let c = cl.last();
        assert forall|v: Vx| #[trigger] cleanup_vertices(c).contains(v) implies !y.contains(v) by {
            assert(cleanup_vertices(cl[cl.len() - 1]).contains(v));
        }
        lemma_undo_frame(c, s, l, y);
        if undo(c, s) is Some {
            let s2 = undo(c, s)->0;
            let l2 = undo(c, l)->0;
            assert(avoids(y, cl.drop_last())) by {
                assert forall|j: int, v: Vx| 0 <= j < cl.drop_last().len() && #[trigger] cleanup_vertices(cl.drop_last()[j]).contains(v)
                    implies !y.contains(v) by {
                    assert(cleanup_vertices(cl[j]).contains(v));
                }
            }
            lemma_undo_all_frame(cl.drop_last(), s2, l2, y);
        }
    }
}

/// The elements of `s` all lie in `u`.
pub open spec fn all_in(s: Seq<Vx>, u: Set<Vx>) -> bool {
    forall|v: Vx| #[trigger] s.contains(v) ==> u.contains(v)
}

/// Every undo step of `cl` names vertices of `u` only.
pub open spec fn names_in(cl: Seq<Cleanup>, u: Set<Vx>) -> bool {
    forall|j: int, v: Vx| 0 <= j < cl.len() && #[trigger] cleanup_vertices(cl[j]).contains(v) ==> u.contains(v)
}

/// Undo steps that name vertices of `u`, run on a solution within `u`,
/// give a solution within `u`.
pub proof fn lemma_undo_all_within(cl: Seq<Cleanup>, s: Seq<Vx>, u: Set<Vx>)
    requires
        all_in(s, u),
        names_in(cl, u),
    ensures
        undo_all(cl, s) matches Some(r) ==> all_in(r, u),
    decreases cl.len(),
{
    if cl.len() > 0 {
        let c = cl.last();
        assert forall|v: Vx| #[trigger] cleanup_vertices(c).contains(v) implies u.contains(v) by {
            assert(cleanup_vertices(cl[cl.len() - 1]).contains(v));
        }
        if let Some(s2) = undo(c, s) {
            lemma_undo_within(c, s, u);
            assert(names_in(cl.drop_last(), u)) by {
                assert forall|j: int, v: Vx| 0 <= j < cl.drop_last().len() && #[trigger] cleanup_vertices(cl.drop_last()[j]).contains(v)
                    implies u.contains(v) by {
                    assert(cleanup_vertices(cl[j]).contains(v));
                }
            }
            lemma_undo_all_within(cl.drop_last(), s2, u);
        }
    }
}

/// An undo step that names vertices of `u`, run on a solution within
/// `u`, gives a solution within `u`.
proof fn lemma_undo_within(c: Cleanup, s: Seq<Vx>, u: Set<Vx>)
    requires
        all_in(s, u),
        forall|v: Vx| #[trigger] cleanup_vertices(c).contains(v) ==> u.contains(v),
    ensures
        undo(c, s) matches Some(r) ==> all_in(r, u),
{
    match c {
        Cleanup::Deg2 { x, n0, n1 } => {
            assert(cleanup_vertices(c).contains(x) && cleanup_vertices(c).contains(n1));
            if s.contains(x) {
                lemma_first_pos(s, x);
                let i = first_pos(s, x);
                let t = swap_removed(s, i);
                assert forall|v: Vx| #[trigger] t.push(n1).contains(v) implies u.contains(v) by {
                    let k = choose|k: int| 0 <= k < t.push(n1).len() && t.push(n1)[k] == v;
                    if k < t.len() {
                        if k == i {
                            assert(s[s.len() - 1] == v);
                            assert(s.contains(v));
                        } else {
                            assert(s[k] == v);
                            assert(s.contains(v));
                        }
                    }
                }
            } else if s.contains(n0) {
                lemma_first_pos(s, n0);
                let i = first_pos(s, n0);
                assert forall|v: Vx| #[trigger] s.update(i, x).contains(v) implies u.contains(v) by {
                    let k = choose|k: int| 0 <= k < s.len() && s.update(i, x)[k] == v;
                    if k != i {
                        assert(s[k] == v);
                        assert(s.contains(v));
                    }
                }
            }
        },
        Cleanup::Deg3 { v: w, a, b, c: cc } => {
            assert(cleanup_vertices(c).contains(w));
            let (ha, hb, hc) = (s.contains(a), s.contains(b), s.contains(cc));
            if !(ha && hb && hc) && ((ha && hb && !hc) || (!ha && hb && hc) || (ha && !hb && hc) || (!ha && hb && !hc)) {
                let r = if ha && hb && !hc { a } else if !ha && hb && hc { b } else if ha && !hb && hc { cc } else { b };
                let t = without_all(s, r);
                assert forall|v: Vx| #[trigger] t.push(w).contains(v) implies u.contains(v) by {
                    let k = choose|k: int| 0 <= k < t.push(w).len() && t.push(w)[k] == v;
                    if k < t.len() {
                        assert(t[k] == v);
                        assert(t.contains(v));
                        lemma_without_all_contains(s, r, v);
                    }
                }
            }
        },
        Cleanup::TwoClique { x, pairs } => {
            assert(cleanup_vertices(c).contains(x));
            lemma_first_missing(pairs@, s);
            match first_missing(pairs@, s) {
                Some(i) => {
                    let t = without_all(s, pairs@[i].1);
                    assert forall|v: Vx| #[trigger] t.push(x).contains(v) implies u.contains(v) by {
                        let k = choose|k: int| 0 <= k < t.push(x).len() && t.push(x)[k] == v;
                        if k < t.len() {
                            assert(t[k] == v);
                            assert(t.contains(v));
                            lemma_without_all_contains(s, pairs@[i].1, v);
                        }
                    }
                },
                None => {},
            }
        },
    }
}

/// Every `g0` for which `a` is sound, `b` is sound for too.
pub open spec fn keeps_sound(a: &State, b: &State) -> bool {
    forall|g0: Map<Vx, Set<Vx>>| #[trigger] sound(g0, a) ==> sound(g0, b)
}

/// `b` came from `a` by steps that name only vertices of the graph of
/// `a`: the solution and the undo steps of `a` stay in front, what was
/// added names vertices of the graph of `a`, and the graph only shrank.
pub open spec fn within(a: &State, b: &State) -> bool {
    let la = a.solution@.len() as int;
    let lc = a.cleanup_funcs@.len() as int;
    &&& la <= b.solution@.len()
    &&& b.solution@.subrange(0, la) == a.solution@
    &&& all_in(b.solution@.subrange(la, b.solution@.len() as int), a.graph@.dom())
    &&& lc <= b.cleanup_funcs@.len()
    &&& cleanups_eq(b.cleanup_funcs@.subrange(0, lc), a.cleanup_funcs@)
    &&& names_in(b.cleanup_funcs@.subrange(lc, b.cleanup_funcs@.len() as int), a.graph@.dom())
    &&& b.graph@.dom().subset_of(a.graph@.dom())
}

/// The search from `a` ended in `out`: whatever `g0` the state `a` is
/// sound for, the undo steps of `out` turn its solution into a vertex
/// cover of `g0`; and `out` came from `a` within the graph of `a`.
pub open spec fn finished(a: &State, out: &State) -> bool {
    &&& forall|g0: Map<Vx, Set<Vx>>| #[trigger] sound(g0, a) ==> undo_covers(g0, out.cleanup_funcs@, out.solution@)
    &&& within(a, out)
}

/// Every state is within itself.
pub proof fn lemma_within_refl(a: &State)
    ensures
        within(a, a),
        keeps_sound(a, a),
{
    let la = a.solution@.len() as int;
    let lc = a.cleanup_funcs@.len() as int;
    assert(a.solution@.subrange(0, la) =~= a.solution@);
    assert(a.solution@.subrange(la, la) =~= Seq::<Vx>::empty());
    assert(a.cleanup_funcs@.subrange(0, lc) =~= a.cleanup_funcs@);
    assert(a.cleanup_funcs@.subrange(lc, lc) =~= Seq::<Cleanup>::empty());
    assert forall|i: int| 0 <= i < lc implies cleanup_eq(#[trigger] a.cleanup_funcs@[i], a.cleanup_funcs@[i]) by {
        match a.cleanup_funcs@[i] {
            Cleanup::Deg2 { .. } => {},
            Cleanup::Deg3 { .. } => {},
            Cleanup::TwoClique { .. } => {},
        }
    }
}

/// Steps within the graph compose.
pub proof fn lemma_within_trans(a: &State, b: &State, c: &State)
    requires
        within(a, b),
        within(b, c),
    ensures
        within(a, c),
{
    let la = a.solution@.len() as int;
    let lb = b.solution@.len() as int;
    let lc = c.solution@.len() as int;
    let sc = c.solution@;
    assert(sc.subrange(0, la) =~= sc.subrange(0, lb).subrange(0, la));
    assert forall|v: Vx| #[trigger] sc.subrange(la, lc).contains(v) implies a.graph@.dom().contains(v) by {
        let k = choose|k: int| 0 <= k < lc - la && sc.subrange(la, lc)[k] == v;
        if la + k < lb {
            assert(b.solution@.subrange(la, lb)[k] == v);
            assert(b.solution@.subrange(la, lb).contains(v));
        } else {
            assert(sc.subrange(lb, lc)[la + k - lb] == v);
            assert(sc.subrange(lb, lc).contains(v));
        }
    }
    let ka = a.cleanup_funcs@.len() as int;
    let kb = b.cleanup_funcs@.len() as int;
    let kc = c.cleanup_funcs@.len() as int;
    let cc = c.cleanup_funcs@;
    assert forall|i: int| 0 <= i < ka implies cleanup_eq(#[trigger] cc.subrange(0, ka)[i], a.cleanup_funcs@[i]) by {
        assert(cleanup_eq(cc.subrange(0, kb)[i], b.cleanup_funcs@[i]));
        assert(cleanup_eq(b.cleanup_funcs@.subrange(0, ka)[i], a.cleanup_funcs@[i]));
        lemma_cleanup_eq_trans(cc[i], b.cleanup_funcs@[i], a.cleanup_funcs@[i]);
    }
    assert forall|j: int, v: Vx| 0 <= j < kc - ka && #[trigger] cleanup_vertices(cc.subrange(ka, kc)[j]).contains(v)
        implies a.graph@.dom().contains(v) by {
        if ka + j < kb {
            assert(cleanup_eq(cc.subrange(0, kb)[ka + j], b.cleanup_funcs@[ka + j]));
            lemma_undo_eq(cc[ka + j], b.cleanup_funcs@[ka + j], Seq::empty());
            assert(cleanup_vertices(b.cleanup_funcs@.subrange(ka, kb)[j]).contains(v));
        } else {
            assert(cleanup_vertices(cc.subrange(kb, kc)[ka + j - kb]).contains(v));
        }
    }
}

/// Copies of copies are copies.
proof fn lemma_cleanup_eq_trans(a: Cleanup, b: Cleanup, c: Cleanup)
    requires
        cleanup_eq(a, b),
        cleanup_eq(b, c),
    ensures
        cleanup_eq(a, c),
{
}

/// Undoing `a + b` undoes `b` first, then `a`.
pub proof fn lemma_undo_all_concat(a: Seq<Cleanup>, b: Seq<Cleanup>, s: Seq<Vx>)
    ensures
        undo_all(a + b, s) == (match undo_all(b, s) {
            Some(t) => undo_all(a, t),
            None => None,
        }),
    decreases b.len(),
{
    if b.len() == 0 {
        assert(a + b =~= a);
    } else {
        assert((a + b).last() == b.last());
        assert((a + b).drop_last() =~= a + b.drop_last());
        match undo(b.last(), s) {
            Some(s2) => {
                lemma_undo_all_concat(a, b.drop_last(), s2);
            },
            None => {},
        }
    }
}

/// Each edge of `g` between vertices of `w` has an end point in `cs`.
pub open spec fn covers_within(g: Map<Vx, Set<Vx>>, w: Set<Vx>, cs: Set<Vx>) -> bool {
    forall|u: Vx, v: Vx| #[trigger] has_edge(g, u, v) && w.contains(u) && w.contains(v) ==> cs.contains(u) || cs.contains(v)
}

/// What is left to do when the parts `w` of the graph `g` are still to be
/// solved: every solution `c` within `w` that covers the edges there,
/// appended to `sol`, is turned by `cl` into a vertex cover of `g0`.
pub open spec fn parts_left(g0: Map<Vx, Set<Vx>>, g: Map<Vx, Set<Vx>>, cl: Seq<Cleanup>, sol: Seq<Vx>, w: Set<Vx>) -> bool {
    forall|c: Seq<Vx>| all_in(c, w) && #[trigger] covers_within(g, w, c.to_set()) ==> undo_covers(g0, cl, sol + c)
}

/// Undoing runs alike on two solutions with the same elements, counted
/// with repeats.
pub proof fn lemma_undo_all_same_ms(cl: Seq<Cleanup>, s: Seq<Vx>, t: Seq<Vx>)
    requires
        s.to_multiset() == t.to_multiset(),
    ensures
        undo_all(cl, s) is Some <==> undo_all(cl, t) is Some,
        undo_all(cl, s) is Some ==> undo_all(cl, s)->0.to_set() == undo_all(cl, t)->0.to_set(),
{
    broadcast use vstd::seq_lib::group_to_multiset_ensures;
    broadcast use vstd::multiset::group_multiset_axioms;
    let e = Seq::<Vx>::empty();
    assert(e.to_multiset() =~= Multiset::<Vx>::empty());
    assert(t.to_multiset().add(e.to_multiset()) =~= t.to_multiset());
    lemma_undo_all_frame(cl, s, t, e);
    if undo_all(cl, s) is Some {
        let a = undo_all(cl, s)->0;
        let b = undo_all(cl, t)->0;
        assert(a.to_multiset() =~= b.to_multiset());
        assert forall|v: Vx| a.to_set().contains(v) <==> b.to_set().contains(v) by {
            assert(a.contains(v) <==> a.to_multiset().count(v) > 0);
            assert(b.contains(v) <==> b.to_multiset().count(v) > 0);
        }
        assert(a.to_set() =~= b.to_set());
    }
}

/// One part `p` of the rest `w` solved: where the search on the part
/// gave `sol2` and `cl2`, naming vertices of `p` only, and these undo to
/// a cover `r2` of the edges within `p`, the parts `w` without `p` are
/// left, with `sol2` and `cl2` appended.
pub proof fn lemma_part_done(g0: Map<Vx, Set<Vx>>, g: Map<Vx, Set<Vx>>, cl: Seq<Cleanup>, sol: Seq<Vx>, w: Set<Vx>,
    p: Set<Vx>, cl2: Seq<Cleanup>, sol2: Seq<Vx>)
    requires
        parts_left(g0, g, cl, sol, w),
        p.subset_of(w),
        forall|u: Vx, v: Vx| #[trigger] has_edge(g, u, v) && p.contains(u) ==> p.contains(v),
        forall|u: Vx, v: Vx| #[trigger] has_edge(g, u, v) && p.contains(v) ==> p.contains(u),
        all_in(sol2, p),
        names_in(cl2, p),
        forall|v: Vx| #[trigger] p.contains(v) ==> !sol.contains(v),
        undo_all(cl2, sol2) matches Some(r2) && covers_within(g, p, r2.to_set()),
    ensures
        parts_left(g0, g, cl + cl2, sol + sol2, w.difference(p)),
{
    broadcast use vstd::seq_lib::group_to_multiset_ensures;
    broadcast use vstd::multiset::group_multiset_axioms;
    let r2 = undo_all(cl2, sol2)->0;
    lemma_undo_all_within(cl2, sol2, p);
    let w2 = w.difference(p);
    assert forall|c: Seq<Vx>| all_in(c, w2) && #[trigger] covers_within(g, w2, c.to_set())
        implies undo_covers(g0, cl + cl2, sol + sol2 + c) by {
        let big = sol + sol2 + c;
        let y = sol + c;
        vstd::seq_lib::lemma_multiset_commutative(sol + sol2, c);
        vstd::seq_lib::lemma_multiset_commutative(sol, sol2);
        vstd::seq_lib::lemma_multiset_commutative(sol, c);
        assert(big.to_multiset() =~= sol2.to_multiset().add(y.to_multiset()));
        assert(avoids(y, cl2)) by {
            assert forall|j: int, v: Vx| 0 <= j < cl2.len() && #[trigger] cleanup_vertices(cl2[j]).contains(v) implies !y.contains(v) by {
                assert(p.contains(v));
                lemma_concat_contains(sol, c, v);
                if c.contains(v) {
                    assert(w2.contains(v));
                }
            }
        }
        lemma_undo_all_frame(cl2, big, sol2, y);
        let t = undo_all(cl2, big)->0;
        let c2 = r2 + c;
        vstd::seq_lib::lemma_multiset_commutative(r2, c);
        vstd::seq_lib::lemma_multiset_commutative(sol, c2);
        assert(t.to_multiset() =~= (sol + c2).to_multiset());
        assert(all_in(c2, w)) by {
            assert forall|v: Vx| #[trigger] c2.contains(v) implies w.contains(v) by {
                lemma_concat_contains(r2, c, v);
            }
        }
        assert(covers_within(g, w, c2.to_set())) by {
            assert forall|u: Vx, v: Vx| #[trigger] has_edge(g, u, v) && w.contains(u) && w.contains(v)
                implies c2.to_set().contains(u) || c2.to_set().contains(v) by {
                lemma_concat_contains(r2, c, u);
                lemma_concat_contains(r2, c, v);
                if p.contains(u) {
                    assert(p.contains(v));
                    assert(r2.to_set().contains(u) || r2.to_set().contains(v));
                } else if p.contains(v) {
                    assert(p.contains(u));
                } else {
                    assert(c.to_set().contains(u) || c.to_set().contains(v));
                }
            }
        }
        assert(undo_covers(g0, cl, sol + c2));
        lemma_undo_all_same_ms(cl, t, sol + c2);
        lemma_undo_all_concat(cl, cl2, big);
    }
}

/// A run of undo steps is a copy of itself.
pub proof fn lemma_cleanups_eq_refl(cl: Seq<Cleanup>)
    ensures
        cleanups_eq(cl, cl),
{
    assert forall|i: int| 0 <= i < cl.len() implies cleanup_eq(#[trigger] cl[i], cl[i]) by {
        match cl[i] {
            Cleanup::Deg2 { .. } => {},
            Cleanup::Deg3 { .. } => {},
            Cleanup::TwoClique { .. } => {},
        }
    }
}

/// The vertices that joined the solution on the way from `a` to `b`, in
/// order.
pub open spec fn added_seq(a: &State, b: &State) -> Seq<Vx> {
    b.solution@.subrange(a.solution@.len() as int, b.solution@.len() as int)
}

/// A step that only moves vertices of the graph into the solution and
/// takes out vertices whose edges those cover keeps every state sound
/// and stays within the graph.
pub proof fn lemma_safe_step(a: &State, b: &State)
    requires
        reduced(a, b),
        cover_safe(a, b),
        b.cleanup_funcs@ == a.cleanup_funcs@,
        from_graph(a, b),
    ensures
        keeps_sound(a, b),
        within(a, b),
{
    let ad = b.solution@.subrange(a.solution@.len() as int, b.solution@.len() as int);
    assert forall|v: Vx| #[trigger] ad.contains(v) implies a.graph@.dom().contains(v) by {
        assert(added(a, b).contains(v));
    }
    assert forall|g0: Map<Vx, Set<Vx>>| #[trigger] sound(g0, a) implies sound(g0, b) by {
        law_sound_safe(g0, a, b);
    }
    let lc = a.cleanup_funcs@.len() as int;
    assert(b.cleanup_funcs@.subrange(0, lc) =~= a.cleanup_funcs@);
    lemma_cleanups_eq_refl(a.cleanup_funcs@);
    assert(b.cleanup_funcs@.subrange(lc, lc) =~= Seq::<Cleanup>::empty());
}

/// A step that leaves the graph, the solution and the undo steps as they
/// are keeps every state sound and stays within the graph.
pub proof fn lemma_same_step(a: &State, b: &State)
    requires
        b.graph@ == a.graph@,
        b.solution@ == a.solution@,
        b.cleanup_funcs@ == a.cleanup_funcs@,
    ensures
        keeps_sound(a, b),
        within(a, b),
{
    assert forall|g0: Map<Vx, Set<Vx>>| #[trigger] sound(g0, a) implies sound(g0, b) by {
        lemma_sound_congr(g0, a, b);
    }
    lemma_within_refl(a);
}

/// A degree-two step stays within the graph.
pub proof fn lemma_deg2_within(a: &State, b: &State, x: Vx, n0: Vx, n1: Vx)
    requires
        a.wf(),
        b.wf(),
        deg2_fold(a, b, x, n0, n1),
    ensures
        within(a, b),
{
    let g = a.graph@;
    a.graph.lemma_simple();
    b.graph.lemma_simple();
    assert(nbrs(g, x).contains(n0) && nbrs(g, x).contains(n1));
    assert(has_edge(g, x, n0) && has_edge(g, x, n1));
    assert(g.dom().contains(x) && g.dom().contains(n0) && g.dom().contains(n1));
    let g1 = without_set(g, set![n0, n1]);
    let f = nbrs(g, n0).union(nbrs(g, n1)).remove(x);
    assert forall|v: Vx| #[trigger] b.graph@.dom().contains(v) implies g.dom().contains(v) by {
        lemma_dom_edge(b.graph@, b.graph.spec_n(), v);
        let w = b.graph@[v].choose();
        if !has_edge(g, n0, n1) {
            assert(joined_to(g1, x, f, v, w));
            if v != x && !has_edge(g1, v, w) {
                assert(f.contains(v));
                if nbrs(g, n0).contains(v) {
                    assert(has_edge(g, n0, v));
                } else {
                    assert(has_edge(g, n1, v));
                }
            }
        } else {
            assert(has_edge(g1, v, w));
        }
    }
    let la = a.solution@.len() as int;
    let lc = a.cleanup_funcs@.len() as int;
    lemma_cleanups_eq_refl(a.cleanup_funcs@);
    assert(b.solution@.subrange(0, la) =~= a.solution@);
    assert(b.cleanup_funcs@.subrange(0, lc) =~= a.cleanup_funcs@);
    if has_edge(g, n0, n1) {
        let sq = seq![n0, n1];
        assert(added_seq(a, b) =~= sq);
        assert(b.cleanup_funcs@.subrange(lc, lc) =~= Seq::<Cleanup>::empty());
        assert forall|v: Vx| #[trigger] sq.contains(v) implies g.dom().contains(v) by {
            let k = choose|k: int| 0 <= k < 2 && sq[k] == v;
        }
    } else {
        let sq = seq![n0];
        assert(added_seq(a, b) =~= sq);
        assert forall|v: Vx| #[trigger] sq.contains(v) implies g.dom().contains(v) by {
            lemma_single_seq(n0, v);
        }
        let nc = b.cleanup_funcs@.subrange(lc, lc + 1);
        assert(nc =~= seq![Cleanup::Deg2 { x, n0, n1 }]);
        assert forall|j: int, v: Vx| 0 <= j < nc.len() && #[trigger] cleanup_vertices(nc[j]).contains(v)
            implies g.dom().contains(v) by {
            assert(nc[j] == Cleanup::Deg2 { x, n0, n1 });
        }
    }
}

/// A degree-three fold stays within the graph.
pub proof fn lemma_deg3_within(s: &State, t: &State, v: Vx, a: Vx, b: Vx, c: Vx)
    requires
        s.wf(),
        t.wf(),
        deg3_fold(s, t, v, a, b, c),
    ensures
        within(s, t),
{
    let g = s.graph@;
    s.graph.lemma_simple();
    t.graph.lemma_simple();
    assert(nbrs(g, v).contains(a) && nbrs(g, v).contains(b) && nbrs(g, v).contains(c));
    assert(has_edge(g, v, a) && has_edge(g, v, b) && has_edge(g, v, c));
    assert(g.dom().contains(v) && g.dom().contains(a) && g.dom().contains(b) && g.dom().contains(c));
    assert forall|x: Vx| #[trigger] t.graph@.dom().contains(x) implies g.dom().contains(x) by {
        lemma_dom_edge(t.graph@, t.graph.spec_n(), x);
        let y = t.graph@[x].choose();
        assert(has_edge(t.graph@, x, y));
        if !has_edge(g, x, y) {
            assert(deg3_pair(g, a, b, c, x, y));
            if x != a && x != b && x != c {
                assert(nbrs(g, b).contains(x) || nbrs(g, c).contains(x) || nbrs(g, a).contains(x));
                if nbrs(g, b).contains(x) {
                    assert(has_edge(g, b, x));
                } else if nbrs(g, c).contains(x) {
                    assert(has_edge(g, c, x));
                } else {
                    assert(has_edge(g, a, x));
                }
            }
        }
    }
    let la = s.solution@.len() as int;
    let lc = s.cleanup_funcs@.len() as int;
    lemma_cleanups_eq_refl(s.cleanup_funcs@);
    assert(t.solution@.subrange(0, la) =~= s.solution@);
    assert(added_seq(s, t) =~= Seq::<Vx>::empty());
    assert(t.cleanup_funcs@.subrange(0, lc) =~= s.cleanup_funcs@);
    let nc = t.cleanup_funcs@.subrange(lc, lc + 1);
    assert(nc =~= seq![Cleanup::Deg3 { v, a, b, c }]);
    assert forall|j: int, x: Vx| 0 <= j < nc.len() && #[trigger] cleanup_vertices(nc[j]).contains(x)
        implies g.dom().contains(x) by {
        assert(nc[j] == Cleanup::Deg3 { v, a, b, c });
    }
}

/// A two-clique fold stays within the graph.
pub proof fn lemma_two_clique_within(s: &State, t: &State, x: Vx, c1: Set<Vx>, c2: Set<Vx>, pairs: Seq<(Vx, Vx)>)
    requires
        s.wf(),
        t.wf(),
        two_clique_fold(s, t, x, c1, c2, pairs),
    ensures
        within(s, t),
{
    let g = s.graph@;
    s.graph.lemma_simple();
    t.graph.lemma_simple();
    assert forall|w: Vx| #[trigger] nbrs(g, x).contains(w) implies g.dom().contains(w) by {
        assert(has_edge(g, x, w));
    }
    assert forall|v: Vx| #[trigger] t.graph@.dom().contains(v) implies g.dom().contains(v) by {
        lemma_dom_edge(t.graph@, t.graph.spec_n(), v);
        let w = t.graph@[v].choose();
        assert(has_edge(t.graph@, v, w));
        assert(with_pairs(g, pairs, v, w));
        if !has_edge(g, v, w) {
            let k = choose|k: int| 0 <= k < pairs.len() && #[trigger] tc_edge(g, pairs[k], v, w);
            assert(c1.contains(pairs[k].0));
            assert(nbrs(g, x).contains(pairs[k].0));
            if v != pairs[k].0 {
                assert(nbrs(g, pairs[k].1).contains(v));
                assert(has_edge(g, pairs[k].1, v));
            }
        }
    }
    let la = s.solution@.len() as int;
    let lc = s.cleanup_funcs@.len() as int;
    lemma_cleanups_eq_refl(s.cleanup_funcs@);
    assert(t.cleanup_funcs@.subrange(0, lc) =~= s.cleanup_funcs@);
    let ad = t.solution@.subrange(la, t.solution@.len() as int);
    assert forall|v: Vx| #[trigger] ad.contains(v) implies g.dom().contains(v) by {
        assert(ad.to_set().contains(v));
        assert(c2.contains(v));
    }
    let nc = t.cleanup_funcs@.subrange(lc, lc + 1);
    assert(nc[0] == t.cleanup_funcs@.last());
    assert forall|j: int, v: Vx| 0 <= j < nc.len() && #[trigger] cleanup_vertices(nc[j]).contains(v)
        implies g.dom().contains(v) by {
        assert(j == 0);
        match nc[0] {
            Cleanup::TwoClique { x: y, pairs: q } => {
                assert(y == x && q@ == pairs);
                if v != x {
                    let k = choose|k: int| 0 <= k < q@.len() && (#[trigger] q@[k].0 == v || q@[k].1 == v);
                    assert(c1.contains(pairs[k].0) && c2.contains(pairs[k].1));
                    assert(nbrs(g, x).contains(pairs[k].0));
                    assert(g.dom().contains(pairs[k].0));
                    assert(g.dom().contains(pairs[k].1)) by {
                        assert(nbrs(g, x).contains(pairs[k].1));
                    }
                }
            },
            _ => {},
        }
    }
}


/// Views that agree give states that are within each other and keep
/// each other sound.
pub proof fn lemma_same_views(a: &State, b: &State)
    requires
        b.graph@ == a.graph@,
        b.solution@ == a.solution@,
        b.cleanup_funcs@ == a.cleanup_funcs@,
    ensures
        keeps_sound(a, b),
        within(a, b),
{
    lemma_same_step(a, b);
}

/// A run of degree-two steps keeps every state sound and stays within
/// the graph.
pub proof fn lemma_deg2_steps_within(a: State, b: State, k: nat)
    requires
        a.wf(),
        b.wf(),
        deg2_steps(a, b, k),
    ensures
        keeps_sound(&a, &b),
        within(&a, &b),
    decreases k,
{
    if k == 0 {
        lemma_same_views(&a, &b);
    } else {
        let (m, x, n0, n1) = choose|m: State, x: Vx, n0: Vx, n1: Vx| deg2_steps(a, m, (k - 1) as nat) && m.wf()
            && #[trigger] deg2_fold(&m, &b, x, n0, n1);
        lemma_deg2_steps_within(a, m, (k - 1) as nat);
        lemma_deg2_within(&m, &b, x, n0, n1);
        lemma_within_trans(&a, &m, &b);
        assert forall|g0: Map<Vx, Set<Vx>>| #[trigger] sound(g0, &a) implies sound(g0, &b) by {
            law_sound_deg2(g0, &m, &b, x, n0, n1);
        }
    }
}

/// A run of degree-three folds keeps every state sound and stays within
/// the graph.
pub proof fn lemma_deg3_steps_within(a: State, b: State, k: nat)
    requires
        a.wf(),
        b.wf(),
        deg3_steps(a, b, k),
    ensures
        keeps_sound(&a, &b),
        within(&a, &b),
    decreases k,
{
    if k == 0 {
        lemma_same_views(&a, &b);
    } else {
        let (m, v, x, y, z) = choose|m: State, v: Vx, x: Vx, y: Vx, z: Vx| deg3_steps(a, m, (k - 1) as nat) && m.wf()
            && #[trigger] deg3_fold(&m, &b, v, x, y, z);
        lemma_deg3_steps_within(a, m, (k - 1) as nat);
        lemma_deg3_within(&m, &b, v, x, y, z);
        lemma_within_trans(&a, &m, &b);
        assert forall|g0: Map<Vx, Set<Vx>>| #[trigger] sound(g0, &a) implies sound(g0, &b) by {
            law_sound_deg3(g0, &m, &b, v, x, y, z);
        }
    }
}

/// A run of two-clique folds keeps every state sound and stays within
/// the graph.
pub proof fn lemma_two_clique_steps_within(a: State, b: State, k: nat)
    requires
        a.wf(),
        b.wf(),
        two_clique_steps(a, b, k),
    ensures
        keeps_sound(&a, &b),
        within(&a, &b),
    decreases k,
{
    if k == 0 {
        lemma_same_views(&a, &b);
    } else {
        let (m, x, c1, c2, pairs) = choose|m: State, x: Vx, c1: Set<Vx>, c2: Set<Vx>, pairs: Seq<(Vx, Vx)>|
            two_clique_steps(a, m, (k - 1) as nat) && m.wf() && #[trigger] two_clique_fold(&m, &b, x, c1, c2, pairs);
        lemma_two_clique_steps_within(a, m, (k - 1) as nat);
        lemma_two_clique_within(&m, &b, x, c1, c2, pairs);
        lemma_within_trans(&a, &m, &b);
        assert forall|g0: Map<Vx, Set<Vx>>| #[trigger] sound(g0, &a) implies sound(g0, &b) by {
            law_sound_two_clique(g0, &m, &b, x, c1, c2, pairs);
        }
    }
}

/// What joined the solution within the graph of `a` came from it.
pub proof fn lemma_within_from_graph(a: &State, b: &State)
    requires
        within(a, b),
    ensures
        from_graph(a, b),
{
    let ad = b.solution@.subrange(a.solution@.len() as int, b.solution@.len() as int);
    assert forall|v: Vx| #[trigger] added(a, b).contains(v) implies a.graph@.dom().contains(v) by {
        assert(ad.contains(v));
    }
}

/// Steps that keep every state sound compose.
pub proof fn lemma_keeps_sound_trans(a: &State, b: &State, c: &State)
    requires
        keeps_sound(a, b),
        keeps_sound(b, c),
    ensures
        keeps_sound(a, c),
{
    assert forall|g0: Map<Vx, Set<Vx>>| #[trigger] sound(g0, a) implies sound(g0, c) by {
        assert(sound(g0, b));
    }
}

/// A copy of a state, with copies of its undo steps, keeps it sound and
/// is within it.
pub proof fn lemma_copy_views(a: &State, b: &State)
    requires
        b.graph@ == a.graph@,
        b.solution@ == a.solution@,
        cleanups_eq(b.cleanup_funcs@, a.cleanup_funcs@),
    ensures
        keeps_sound(a, b),
        within(a, b),
{
    lemma_within_refl(a);
    let lc = a.cleanup_funcs@.len() as int;
    assert(b.cleanup_funcs@.subrange(0, lc) =~= b.cleanup_funcs@);
    assert(b.cleanup_funcs@.subrange(lc, lc) =~= Seq::<Cleanup>::empty());
    assert(b.solution@.subrange(0, a.solution@.len() as int) =~= a.solution@);
    assert forall|g0: Map<Vx, Set<Vx>>| #[trigger] sound(g0, a) implies sound(g0, b) by {
        assert forall|c: Seq<Vx>| #[trigger] is_vertex_cover(b.graph@, c.to_set()) implies undo_covers(g0, b.cleanup_funcs@, b.solution@ + c) by {
            assert(is_vertex_cover(a.graph@, c.to_set()));
            lemma_undo_all_eq(b.cleanup_funcs@, a.cleanup_funcs@, b.solution@ + c);
        }
    }
}

/// A search that finished from `b`, where `b` came from `a` keeping
/// every state sound and within the graph, finished from `a`.
pub proof fn lemma_finished_trans(a: &State, b: &State, out: &State)
    requires
        keeps_sound(a, b),
        within(a, b),
        finished(b, out),
    ensures
        finished(a, out),
{
    lemma_within_trans(a, b, out);
    assert forall|g0: Map<Vx, Set<Vx>>| #[trigger] sound(g0, a) implies undo_covers(g0, out.cleanup_funcs@, out.solution@) by {
        assert(sound(g0, b));
    }
}

/// A state with an empty graph has finished.
pub proof fn lemma_finished_done(s: &State)
    requires
        s.graph@.dom() == Set::<Vx>::empty(),
    ensures
        finished(s, s),
{
    lemma_within_refl(s);
    assert forall|g0: Map<Vx, Set<Vx>>| #[trigger] sound(g0, s) implies undo_covers(g0, s.cleanup_funcs@, s.solution@) by {
        law_sound_done(g0, s);
    }
}

/// A sound state leaves its whole graph to be solved.
pub proof fn lemma_parts_start(g0: Map<Vx, Set<Vx>>, s: &State, n: nat)
    requires
        sound(g0, s),
        simple_graph(s.graph@, n),
    ensures
        parts_left(g0, s.graph@, s.cleanup_funcs@, s.solution@, s.graph@.dom()),
{
    let g = s.graph@;
    assert forall|c: Seq<Vx>| all_in(c, g.dom()) && #[trigger] covers_within(g, g.dom(), c.to_set())
        implies undo_covers(g0, s.cleanup_funcs@, s.solution@ + c) by {
        assert forall|u: Vx, v: Vx| #[trigger] has_edge(g, u, v) implies c.to_set().contains(u) || c.to_set().contains(v) by {
            assert(g.dom().contains(u) && g.dom().contains(v));
        }
        assert(is_vertex_cover(g, c.to_set()));
    }
}

/// Where no part is left to solve, the solution is done.
pub proof fn lemma_parts_end(g0: Map<Vx, Set<Vx>>, g: Map<Vx, Set<Vx>>, cl: Seq<Cleanup>, sol: Seq<Vx>)
    requires
        parts_left(g0, g, cl, sol, Set::empty()),
    ensures
        undo_covers(g0, cl, sol),
{
    let e = Seq::<Vx>::empty();
    assert(covers_within(g, Set::empty(), e.to_set()));
    assert(sol + e =~= sol);
}

/// Appending vertices and undo steps that name vertices of the graph of
/// `a` stays within it.
pub proof fn lemma_within_append(a: &State, b: &State, c: &State, xs: Seq<Vx>, ys: Seq<Cleanup>)
    requires
        within(a, b),
        c.graph@.dom().subset_of(b.graph@.dom()),
        c.solution@ == b.solution@ + xs,
        c.cleanup_funcs@ == b.cleanup_funcs@ + ys,
        all_in(xs, a.graph@.dom()),
        names_in(ys, a.graph@.dom()),
    ensures
        within(a, c),
{
    let la = a.solution@.len() as int;
    let lb = b.solution@.len() as int;
    let ka = a.cleanup_funcs@.len() as int;
    let kb = b.cleanup_funcs@.len() as int;
    let sc = c.solution@;
    let cc = c.cleanup_funcs@;
    assert(sc.subrange(0, la) =~= b.solution@.subrange(0, la));
    assert(sc.subrange(la, sc.len() as int) =~= b.solution@.subrange(la, lb) + xs);
    assert forall|v: Vx| #[trigger] sc.subrange(la, sc.len() as int).contains(v) implies a.graph@.dom().contains(v) by {
        lemma_concat_contains(b.solution@.subrange(la, lb), xs, v);
    }
    assert(cc.subrange(0, ka) =~= b.cleanup_funcs@.subrange(0, ka));
    let tail = cc.subrange(ka, cc.len() as int);
    assert(tail =~= b.cleanup_funcs@.subrange(ka, kb) + ys);
    assert forall|j: int, v: Vx| 0 <= j < tail.len() && #[trigger] cleanup_vertices(tail[j]).contains(v)
        implies a.graph@.dom().contains(v) by {
        if j < kb - ka {
            assert(tail[j] == b.cleanup_funcs@.subrange(ka, kb)[j]);
        } else {
            assert(tail[j] == ys[j - (kb - ka)]);
        }
    }
}

/// One part `cs[ci]` of a split of `g` solved on its own graph `sg`,
/// which holds the edges of `g` within the part: the parts after it are
/// left, with the part's solution and undo steps appended.
pub proof fn lemma_comp_step(g0: Map<Vx, Set<Vx>>, g: Map<Vx, Set<Vx>>, cl: Seq<Cleanup>, sol: Seq<Vx>,
    cs: Seq<Set<Vx>>, ci: int, sg: Map<Vx, Set<Vx>>, cl2: Seq<Cleanup>, sol2: Seq<Vx>)
    requires
        parts_left(g0, g, cl, sol, g.dom().difference(covered(cs, ci))),
        is_component_split(g, cs),
        forall|u: Vx, v: Vx| #[trigger] has_edge(g, u, v) ==> has_edge(g, v, u),
        0 <= ci < cs.len(),
        sg.dom().subset_of(cs[ci]),
        forall|u: Vx, v: Vx| #[trigger] has_edge(g, u, v) && cs[ci].contains(u) && cs[ci].contains(v) ==> has_edge(sg, u, v),
        all_in(sol2, sg.dom()),
        names_in(cl2, sg.dom()),
        forall|v: Vx| #[trigger] cs[ci].contains(v) ==> !sol.contains(v),
        undo_covers(sg, cl2, sol2),
    ensures
        parts_left(g0, g, cl + cl2, sol + sol2, g.dom().difference(covered(cs, ci + 1))),
{
    let p = cs[ci];
    let w = g.dom().difference(covered(cs, ci));
    let r2 = undo_all(cl2, sol2)->0;
    assert(p.subset_of(w)) by {
        assert forall|v: Vx| #[trigger] p.contains(v) implies w.contains(v) by {
            assert(g.dom().contains(v));
            if covered(cs, ci).contains(v) {
                let i = choose|i: int| 0 <= i < ci && #[trigger] cs[i].contains(v);
                assert(!cs[ci].contains(v));
            }
        }
    }
    assert forall|u: Vx, v: Vx| #[trigger] has_edge(g, u, v) && p.contains(v) implies p.contains(u) by {
        assert(has_edge(g, v, u));
    }
    assert(all_in(sol2, p));
    assert(names_in(cl2, p));
    assert(covers_within(g, p, r2.to_set())) by {
        assert forall|u: Vx, v: Vx| #[trigger] has_edge(g, u, v) && p.contains(u) && p.contains(v)
            implies r2.to_set().contains(u) || r2.to_set().contains(v) by {
            assert(has_edge(sg, u, v));
        }
    }
    lemma_part_done(g0, g, cl, sol, w, p, cl2, sol2);
    assert(w.difference(p) =~= g.dom().difference(covered(cs, ci + 1))) by {
        assert forall|v: Vx| covered(cs, ci + 1).contains(v) <==> covered(cs, ci).contains(v) || p.contains(v) by {
            if covered(cs, ci + 1).contains(v) {
                let i = choose|i: int| 0 <= i < ci + 1 && #[trigger] cs[i].contains(v);
                if i < ci {
                    assert(covered(cs, ci).contains(v));
                }
            }
            if covered(cs, ci).contains(v) {
                let i = choose|i: int| 0 <= i < ci && #[trigger] cs[i].contains(v);
                assert(covered(cs, ci + 1).contains(v));
            }
            if p.contains(v) {
                assert(cs[ci].contains(v));
                assert(covered(cs, ci + 1).contains(v));
            }
        }
    }
}

} // verus!
