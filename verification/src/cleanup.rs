//! Undo steps for folding reductions. A folding rule leaves one of these
//! behind; at the end they turn a solution of the reduced graph into a
//! solution of the graph before the reduction.

use vstd::prelude::*;
use crate::graph::Vx;
use crate::state::ExState;

verus! {

/// A step that turns a solution of a reduced graph back into a solution
/// of the graph before the reduction.
pub enum Cleanup {
    /// Folding of a degree-two vertex `x` with neighbours `n0` and `n1`.
    Deg2 { x: Vx, n0: Vx, n1: Vx },
    /// Removal of a degree-three vertex `v` with independent neighbours
    /// `a`, `b` and `c`.
    Deg3 { v: Vx, a: Vx, b: Vx, c: Vx },
    /// The two-clique reduction at `x`: each pair `(c, s)` is a vertex `c` of
    /// the first clique with its single non-neighbour `s` in the second.
    TwoClique { x: Vx, pairs: Vec<(Vx, Vx)> },
}

/// The index of the first `x` in `s`.
pub open spec fn first_pos(s: Seq<Vx>, x: Vx) -> int {
    choose|i: int| 0 <= i < s.len() && s[i] == x && forall|j: int| 0 <= j < i ==> s[j] != x
}

/// `s` with every `a` taken out.
pub open spec fn without_all(s: Seq<Vx>, a: Vx) -> Seq<Vx> {
    s.filter(|w: Vx| w != a)
}

/// `Vec::swap_remove` at `i`: the last entry takes the place of entry `i`.
pub open spec fn swap_removed(s: Seq<Vx>, i: int) -> Seq<Vx> {
    s.update(i, s.last()).drop_last()
}

/// The first pair whose first vertex `sol` does not hold, if any.
pub open spec fn first_missing(pairs: Seq<(Vx, Vx)>, sol: Seq<Vx>) -> Option<int> {
    if exists|i: int| 0 <= i < pairs.len() && !sol.contains(pairs[i].0) {
        Some(choose|i: int| 0 <= i < pairs.len() && !sol.contains(pairs[i].0) && forall|j: int| 0 <= j < i ==> sol.contains(pairs[j].0))
    } else {
        None
    }
}

/// What undoing `c` makes of the solution `sol`; `None` where the
/// solution does not have the shape that the undo step expects.
pub open spec fn undo(c: Cleanup, sol: Seq<Vx>) -> Option<Seq<Vx>> {
    match c {
        Cleanup::Deg2 { x, n0, n1 } => {
            if sol.contains(x) {
                Some(swap_removed(sol, first_pos(sol, x)).push(n1))
            } else if sol.contains(n0) {
                Some(sol.update(first_pos(sol, n0), x))
            } else {
                None
            }
        },
        Cleanup::Deg3 { v, a, b, c } => {
            let (ha, hb, hc) = (sol.contains(a), sol.contains(b), sol.contains(c));
            if ha && hb && hc {
                Some(sol)
            } else if ha && hb && !hc {
                Some(without_all(sol, a).push(v))
            } else if !ha && hb && hc {
                Some(without_all(sol, b).push(v))
            } else if ha && !hb && hc {
                Some(without_all(sol, c).push(v))
            } else if !ha && hb && !hc {
                Some(without_all(sol, b).push(v))
            } else {
                None
            }
        },
        Cleanup::TwoClique { x, pairs } => {
            match first_missing(pairs@, sol) {
                Some(i) => Some(without_all(sol, pairs@[i].1).push(x)),
                None => Some(sol),
            }
        },
    }
}

/// What undoing the steps of `cs`, the last first, makes of `sol`.
pub open spec fn undo_all(cs: Seq<Cleanup>, sol: Seq<Vx>) -> Option<Seq<Vx>>
    decreases cs.len(),
{
    if cs.len() == 0 {
        Some(sol)
    } else {
        match undo(cs.last(), sol) {
            Some(s2) => undo_all(cs.drop_last(), s2),
            None => None,
        }
    }
}

/// The index of the first `x` in `v`, where `v` holds `x`.
pub(crate) fn position(v: &Vec<Vx>, x: Vx) -> (r: Option<usize>)
    ensures
        r is None <==> !v@.contains(x),
        r matches Some(i) ==> i == first_pos(v@, x) && i < v@.len() && v@[i as int] == x,
{
    let mut i: usize = 0;
    while i < v.len()
        invariant
            i <= v@.len(),
            forall|j: int| 0 <= j < i ==> v@[j] != x,
        decreases v@.len() - i,
    {
        if v[i] == x {
            proof {
                let f = first_pos(v@, x);
                assert(0 <= f < v@.len() && v@[f] == x && forall|j: int| 0 <= j < f ==> v@[j] != x);
                if f < i {
                } else if f > i {
                }
            }
            return Some(i);
        }
        i = i + 1;
    }
    None
}

/// `Vec::retain` with the test "is not `a`".
fn retain_not(v: &mut Vec<Vx>, a: Vx)
    ensures
        final(v)@ == without_all(old(v)@, a),
{
    let mut out: Vec<Vx> = Vec::new();
    let mut i: usize = 0;
    while i < v.len()
        invariant
            i <= v@.len(),
            v@ == old(v)@,
            out@ == without_all(v@.subrange(0, i as int), a),
        decreases v@.len() - i,
    {
        proof {
            assert(v@.subrange(0, i + 1).drop_last() == v@.subrange(0, i as int));
            reveal_with_fuel(Seq::filter, 1);
        }
        if v[i] != a {
            out.push(v[i]);
        }
        i = i + 1;
    }
    proof {
        assert(v@.subrange(0, i as int) == v@);
    }
    *v = out;
}

fn undo_deg2(x: Vx, n0: Vx, n1: Vx, solution: &mut Vec<Vx>) -> (r: bool)
    ensures
        r == undo(Cleanup::Deg2 { x, n0, n1 }, old(solution)@) is Some,
        r ==> undo(Cleanup::Deg2 { x, n0, n1 }, old(solution)@) == Some(final(solution)@),
{
    match position(solution, x) {
        Some(i) => {
            let l = solution.len() - 1;
            let last = solution[l];
            solution.set(i, last);
            solution.pop();
            solution.push(n1);
            proof {
                assert(solution@ =~= swap_removed(old(solution)@, i as int).push(n1));
            }
            true
        },
        None => {
            match position(solution, n0) {
                Some(j) => {
                    solution.set(j, x);
                    true
                },
                None => false,
            }
        },
    }
}

fn undo_deg3(v: Vx, a: Vx, b: Vx, c: Vx, solution: &mut Vec<Vx>) -> (r: bool)
    ensures
        r == undo(Cleanup::Deg3 { v, a, b, c }, old(solution)@) is Some,
        r ==> undo(Cleanup::Deg3 { v, a, b, c }, old(solution)@) == Some(final(solution)@),
{
    let ha = position(solution, a).is_some();
    let hb = position(solution, b).is_some();
    let hc = position(solution, c).is_some();
    if ha && hb && hc {
        return true;
    } else if ha && hb && !hc {
        retain_not(solution, a);
    } else if !ha && hb && hc {
        retain_not(solution, b);
    } else if ha && !hb && hc {
        retain_not(solution, c);
    } else if !ha && hb && !hc {
        retain_not(solution, b);
    } else {
        return false;
    }
    solution.push(v);
    true
}

fn undo_two_clique(x: Vx, pairs: &Vec<(Vx, Vx)>, solution: &mut Vec<Vx>) -> (r: bool)
    ensures
        r,
        undo(Cleanup::TwoClique { x, pairs: *pairs }, old(solution)@) == Some(final(solution)@),
{
    let mut i: usize = 0;
    while i < pairs.len()
        invariant
            i <= pairs@.len(),
            solution@ == old(solution)@,
            forall|j: int| 0 <= j < i ==> solution@.contains(pairs@[j].0),
        decreases pairs@.len() - i,
    {
        if position(solution, pairs[i].0).is_none() {
            let s = pairs[i].1;
            proof {
                let f = first_missing(pairs@, old(solution)@);
                assert(f is Some);
                let k = f->0;
                if k < i {
                    assert(solution@.contains(pairs@[k].0));
                } else if k > i {
                    assert(solution@.contains(pairs@[i as int].0));
                }
                assert(k == i);
            }
            retain_not(solution, s);
            solution.push(x);
            return true;
        }
        i = i + 1;
    }
    true
}

/// `a` and `b` are the same undo step.
pub open spec fn cleanup_eq(a: Cleanup, b: Cleanup) -> bool {
    match (a, b) {
        (Cleanup::Deg2 { x, n0, n1 }, Cleanup::Deg2 { x: x2, n0: m0, n1: m1 }) => x == x2 && n0 == m0 && n1 == m1,
        (Cleanup::Deg3 { v, a, b, c }, Cleanup::Deg3 { v: v2, a: a2, b: b2, c: c2 }) => v == v2 && a == a2 && b == b2 && c == c2,
        (Cleanup::TwoClique { x, pairs }, Cleanup::TwoClique { x: x2, pairs: p2 }) => x == x2 && pairs@ == p2@,
        _ => false,
    }
}

impl Cleanup {
    /// A copy of the step.
    pub fn duplicate(&self) -> (r: Cleanup)
        ensures
            cleanup_eq(*self, r),
            forall|s: Seq<Vx>| undo(r, s) == undo(*self, s),
    {
        match self {
            Cleanup::Deg2 { x, n0, n1 } => Cleanup::Deg2 { x: *x, n0: *n0, n1: *n1 },
            Cleanup::Deg3 { v, a, b, c } => Cleanup::Deg3 { v: *v, a: *a, b: *b, c: *c },
            Cleanup::TwoClique { x, pairs } => {
                let mut p: Vec<(Vx, Vx)> = Vec::new();
                let mut i: usize = 0;
                while i < pairs.len()
                    invariant
                        i <= pairs@.len(),
                        p@ == pairs@.subrange(0, i as int),
                    decreases pairs@.len() - i,
                {
                    p.push(pairs[i]);
                    i = i + 1;
                }
                proof {
                    assert(p@ == pairs@.subrange(0, pairs@.len() as int));
                    assert(p@ =~= pairs@);
                }
                Cleanup::TwoClique { x: *x, pairs: p }
            },
        }
    }

    /// Undoes the step on `solution`; `false` where the solution does not
    /// have the shape the step expects.
    pub fn undo(&self, solution: &mut Vec<Vx>) -> (r: bool)
        ensures
            r == undo(*self, old(solution)@) is Some,
            r ==> undo(*self, old(solution)@) == Some(final(solution)@),
    {
        match self {
            Cleanup::Deg2 { x, n0, n1 } => undo_deg2(*x, *n0, *n1, solution),
            Cleanup::Deg3 { v, a, b, c } => undo_deg3(*v, *a, *b, *c, solution),
            Cleanup::TwoClique { x, pairs } => undo_two_clique(*x, pairs, solution),
        }
    }
}

/// An undo step of a folding reduction: it turns a solution of the
/// reduced graph back into one of the graph before the reduction.
pub trait CleanupFn: Sized {
    /// What the step makes of the solution `sol`; `None` where `sol` does
    /// not have the shape that the step expects.
    spec fn undone(&self, sol: Seq<Vx>) -> Option<Seq<Vx>>;

    /// A copy of the step.
    fn box_clone(&self) -> (r: Self)
        ensures
            forall|s: Seq<Vx>| r.undone(s) == self.undone(s),
    ;

    /// Applies the step to `solution`; `false` where the solution does
    /// not have the shape that the step expects.
    fn call(&self, solution: &mut Vec<Vx>) -> (r: bool)
        ensures
            r == self.undone(old(solution)@) is Some,
            r ==> self.undone(old(solution)@) == Some(final(solution)@),
    ;
}

impl CleanupFn for Cleanup {
    open spec fn undone(&self, sol: Seq<Vx>) -> Option<Seq<Vx>> {
        undo(*self, sol)
    }

    fn box_clone(&self) -> (r: Self) {
        self.duplicate()
    }

    fn call(&self, solution: &mut Vec<Vx>) -> (r: bool) {
        self.undo(solution)
    }
}

impl ExState {
    /// The solution with every undo step applied, the last first; `None`
    /// where a step finds the solution in a shape it cannot undo.
    pub fn final_solution(self) -> (r: Option<Vec<Vx>>)
        ensures
            match undo_all(self.state.cleanup_funcs@, self.state.solution@) {
                Some(s) => r matches Some(v) && v@ == s,
                None => r is None,
            },
    {
        let mut ex = self;
        let ghost goal = undo_all(ex.state.cleanup_funcs@, ex.state.solution@);
        while ex.state.cleanup_funcs.len() > 0
            invariant
                undo_all(ex.state.cleanup_funcs@, ex.state.solution@) == goal,
                goal == undo_all(self.state.cleanup_funcs@, self.state.solution@),
            decreases ex.state.cleanup_funcs@.len(),
        {
            let ghost cs = ex.state.cleanup_funcs@;
            let c = ex.state.cleanup_funcs.pop().unwrap();
            proof {
                assert(c == cs.last());
                assert(ex.state.cleanup_funcs@ == cs.drop_last());
            }
            let ghost sol0 = ex.state.solution@;
            let ok = c.undo(&mut ex.state.solution);
            proof {
                assert(cs.len() > 0);
                assert(undo_all(cs, sol0) == match undo(cs.last(), sol0) {
                    Some(s2) => undo_all(cs.drop_last(), s2),
                    None => None,
                });
            }
            if !ok {
                return None;
            }
        }
        Some(ex.state.solution)
    }
}

} // verus!
