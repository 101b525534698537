//! The branch-and-reduce search.

use vstd::prelude::*;
use crate::idset::IdSet;
use crate::graph::{Vx, Graph, Edge};
use crate::state::{State, ExState, is_vertex_cover, reduced, progressed, unchanged, measure, lemma_reduced_refl, lemma_reduced_trans, lemma_progress_measure};
use crate::ideas::{AnyIdea, unchanged_but_dirty, clone_ideas};
use crate::connected::{is_component_split, views, covered};
use crate::graph::{has_edge, lists_edge};
use crate::branch::{branch, branch_graphs, graphs_of};
use crate::cleanup::undo_all;
use crate::sound::{keeps_sound, within, finished, lemma_within_refl, lemma_within_trans, lemma_keeps_sound_trans, lemma_same_views,
    lemma_finished_trans, lemma_finished_done, sound, parts_left, all_in, lemma_parts_start, lemma_parts_end, lemma_within_append,
    lemma_comp_step, law_sound_start, names_in, undo_covers};

verus! {

/// How many rules have work to do.
pub open spec fn pending_count(ideas: Seq<AnyIdea>, dirty: Seq<IdSet>) -> nat
    decreases ideas.len(),
{
    if ideas.len() == 0 {
        0
    } else {
        pending_count(ideas.drop_last(), dirty) + if ideas.last().pending(dirty[ideas.len() - 1]@) { 1nat } else { 0nat }
    }
}

/// The work that the rules may still do without progress.
pub open spec fn aux_sum(ideas: Seq<AnyIdea>, s: &State) -> nat
    decreases ideas.len(),
{
    if ideas.len() == 0 {
        0
    } else {
        aux_sum(ideas.drop_last(), s) + ideas.last().aux(s)
    }
}

proof fn lemma_pending_count(a: Seq<AnyIdea>, da: Seq<IdSet>, b: Seq<AnyIdea>, db: Seq<IdSet>, i: int)
    requires
        a.len() == b.len(),
        0 <= i < a.len(),
        forall|j: int| 0 <= j < a.len() && j != i ==> (b[j].pending(db[j]@) <==> a[j].pending(da[j]@)),
        a[i].pending(da[i]@),
        !b[i].pending(db[i]@),
    ensures
        pending_count(b, db) < pending_count(a, da),
    decreases a.len(),
{
    if i < a.len() - 1 {
        lemma_pending_count(a.drop_last(), da, b.drop_last(), db, i);
    } else {
        lemma_pending_count_eq(a.drop_last(), da, b.drop_last(), db);
    }
}

proof fn lemma_pending_count_eq(a: Seq<AnyIdea>, da: Seq<IdSet>, b: Seq<AnyIdea>, db: Seq<IdSet>)
    requires
        a.len() == b.len(),
        forall|j: int| 0 <= j < a.len() ==> (b[j].pending(db[j]@) <==> a[j].pending(da[j]@)),
    ensures
        pending_count(b, db) == pending_count(a, da),
    decreases a.len(),
{
    if a.len() > 0 {
        lemma_pending_count_eq(a.drop_last(), da, b.drop_last(), db);
    }
}

proof fn lemma_aux_sum(a: Seq<AnyIdea>, sa: &State, b: Seq<AnyIdea>, sb: &State, i: int)
    requires
        a.len() == b.len(),
        0 <= i < a.len(),
        forall|j: int| 0 <= j < a.len() && j != i ==> b[j].aux(sb) == a[j].aux(sa),
    ensures
        b[i].aux(sb) < a[i].aux(sa) ==> aux_sum(b, sb) < aux_sum(a, sa),
        b[i].aux(sb) <= a[i].aux(sa) ==> aux_sum(b, sb) <= aux_sum(a, sa),
    decreases a.len(),
{
    if i < a.len() - 1 {
        lemma_aux_sum(a.drop_last(), sa, b.drop_last(), sb, i);
    } else {
        lemma_aux_sum_eq(a.drop_last(), sa, b.drop_last(), sb);
    }
}

proof fn lemma_aux_sum_eq(a: Seq<AnyIdea>, sa: &State, b: Seq<AnyIdea>, sb: &State)
    requires
        a.len() == b.len(),
        forall|j: int| 0 <= j < a.len() ==> b[j].aux(sb) == a[j].aux(sa),
    ensures
        aux_sum(b, sb) == aux_sum(a, sa),
    decreases a.len(),
{
    if a.len() > 0 {
        lemma_aux_sum_eq(a.drop_last(), sa, b.drop_last(), sb);
    }
}

/// The priority of rule `j` of `ex`.
pub open spec fn prio_at(ex: &ExState, j: int) -> nat {
    ex.ideas@[j].spec_priority(ex.state.dirty@[j]@)
}

/// The rule with the highest priority, the last of them where several
/// share it; `None` where no rule has work to do.
pub fn prio(ex: &ExState) -> (r: Option<usize>)
    requires
        ex.wf(),
    ensures
        r is None <==> forall|j: int| 0 <= j < ex.ideas@.len() ==> !(#[trigger] ex.ideas@[j]).pending(ex.state.dirty@[j]@),
        r matches Some(i) ==> i < ex.ideas@.len() && ex.ideas@[i as int].pending(ex.state.dirty@[i as int]@),
        r matches Some(i) ==> forall|j: int| 0 <= j < ex.ideas@.len() ==> #[trigger] prio_at(ex, j) <= prio_at(ex, i as int),
        r matches Some(i) ==> forall|j: int| i < j < ex.ideas@.len() ==> #[trigger] prio_at(ex, j) < prio_at(ex, i as int),
{
    let mut best: Option<(usize, usize)> = None;
    let mut i: usize = 0;
    while i < ex.ideas.len()
        invariant
            ex.wf(),
            i <= ex.ideas@.len(),
            best matches Some(b) ==> b.0 < i && ex.ideas@[b.0 as int].pending(ex.state.dirty@[b.0 as int]@) == (b.1 > 0),
            best matches Some(b) ==> b.1 == prio_at(ex, b.0 as int),
            best matches Some(b) ==> forall|j: int| 0 <= j < i ==> #[trigger] prio_at(ex, j) <= b.1,
            best matches Some(b) ==> forall|j: int| b.0 < j < i ==> #[trigger] prio_at(ex, j) < b.1,
            best is None ==> i == 0,
            forall|j: int| 0 <= j < i && (#[trigger] ex.ideas@[j]).pending(ex.state.dirty@[j]@) ==> (best matches Some(b) && b.1 > 0),
        decreases ex.ideas@.len() - i,
    {
        let p = ex.ideas[i].priority(&ex.state, &ex.state.dirty[i]);
        match best {
            None => {
                best = Some((i, p));
            },
            Some(b) => {
                if p >= b.1 {
                    best = Some((i, p));
                }
            },
        }
        i = i + 1;
    }
    match best {
        Some(b) => {
            if b.1 > 0 {
                Some(b.0)
            } else {
                None
            }
        },
        None => None,
    }
}

/// The search gives up the state `m`, reached by reduction steps: its
/// solution passed the upper bound, or reached it with vertices left, or
/// one of the rules `ideas` gave it up.
pub open spec fn gives_up(ideas: Seq<AnyIdea>, m: &State) -> bool {
    ||| m.solution@.len() > m.upper_bound
    ||| m.solution@.len() == m.upper_bound && m.graph@.dom() != Set::<Vx>::empty()
    ||| exists|j: int| 0 <= j < ideas.len() && (#[trigger] ideas[j]).gave_up(m)
}

/// Applies the rules, most urgent first, until none has work left.
/// `None` where the state cannot lead to a solution within the bound.
pub fn reduce(ex: &mut ExState) -> (r: Option<()>)
    requires
        old(ex).wf(),
    ensures
        r is Some ==> {
            &&& final(ex).wf()
            &&& reduced(&old(ex).state, &final(ex).state)
            &&& final(ex).state.solution@.len() <= final(ex).state.upper_bound
            &&& keeps_sound(&old(ex).state, &final(ex).state)
            &&& within(&old(ex).state, &final(ex).state)
        },
        r is None ==> exists|m: State| #[trigger] reduced(&old(ex).state, &m) && within(&old(ex).state, &m)
            && keeps_sound(&old(ex).state, &m) && gives_up(old(ex).ideas@, &m),
        old(ex).state.graph@.dom() == Set::<Vx>::empty() && old(ex).state.solution@.len() <= old(ex).state.upper_bound
            ==> r is Some && *final(ex) == *old(ex),
        old(ex).state.solution@.len() > old(ex).state.upper_bound ==> r is None,
        r is Some ==> final(ex).state.graph@.dom() == Set::<Vx>::empty() || forall|j: int| 0 <= j < final(ex).ideas@.len()
            ==> !(#[trigger] final(ex).ideas@[j]).pending(final(ex).state.dirty@[j]@),
        r is Some ==> final(ex).state.graph@.dom() == Set::<Vx>::empty() || final(ex).state.solution@.len() < final(ex).state.upper_bound,
{
    proof {
        lemma_reduced_refl(&ex.state);
        lemma_within_refl(&ex.state);
    }
    if ex.state.solution.len() > ex.state.upper_bound {
        proof {
            assert(gives_up(old(ex).ideas@, &ex.state));
        }
        return None;
    }
    if ex.state.graph.is_empty() {
        return Some(());
    }
    if ex.state.solution.len() == ex.state.upper_bound {
        proof {
            assert(gives_up(old(ex).ideas@, &ex.state));
        }
        return None;
    }
    loop
        invariant
            ex.wf(),
            reduced(&old(ex).state, &ex.state),
            keeps_sound(&old(ex).state, &ex.state),
            within(&old(ex).state, &ex.state),
            ex.state.solution@.len() < ex.state.upper_bound,
            ex.ideas@.len() == old(ex).ideas@.len(),
            forall|j: int| 0 <= j < ex.ideas@.len() ==> (#[trigger] ex.ideas@[j]).same_kind(old(ex).ideas@[j]),
            old(ex).state.graph@.dom() != Set::<Vx>::empty(),
        decreases measure(&ex.state), aux_sum(ex.ideas@, &ex.state), pending_count(ex.ideas@, ex.state.dirty@),
    {
        let i = match prio(ex) {
            Some(i) => i,
            None => {
                return Some(());
            },
        };
        let ghost start = *ex;
        let mut new_dirty = IdSet::empty();
        std::mem::swap(&mut new_dirty, &mut ex.state.dirty[i]);
        let ghost swapped = ex.state;
        proof {
            assert forall|j: int, v: Vx|
                0 <= j < ex.state.dirty@.len() && #[trigger] ex.state.dirty@[j]@.contains(v) implies v < ex.state.graph.spec_n() by {
                assert(start.state.dirty@[j]@.contains(v));
            }
            assert(ex.state.wf());
            lemma_reduced_refl(&ex.state);
            assert(reduced(&start.state, &ex.state)) by {
                assert(ex.state.solution@.subrange(0, start.state.solution@.len() as int) =~= start.state.solution@);
            }
            assert forall|v: Vx| new_dirty@.contains(v) implies v < ex.state.graph.spec_n() by {
                assert(start.state.dirty@[i as int]@.contains(v));
            }
            lemma_same_views(&start.state, &ex.state);
        }
        let r = ex.ideas[i].apply(&mut ex.state, &new_dirty);
        if r.is_none() {
            proof {
                lemma_reduced_trans(&old(ex).state, &start.state, &swapped);
                lemma_keeps_sound_trans(&old(ex).state, &start.state, &swapped);
                lemma_within_trans(&old(ex).state, &start.state, &swapped);
                crate::ideas::lemma_same_kind_gave_up(start.ideas@[i as int], old(ex).ideas@[i as int], &swapped);
                assert(old(ex).ideas@[i as int].gave_up(&swapped));
                assert(gives_up(old(ex).ideas@, &swapped));
            }
            return None;
        }
        proof {
            lemma_reduced_trans(&start.state, &swapped, &ex.state);
            lemma_reduced_trans(&old(ex).state, &start.state, &ex.state);
            lemma_keeps_sound_trans(&start.state, &swapped, &ex.state);
            lemma_within_trans(&start.state, &swapped, &ex.state);
            lemma_keeps_sound_trans(&old(ex).state, &start.state, &ex.state);
            lemma_within_trans(&old(ex).state, &start.state, &ex.state);
            assert forall|j: int| 0 <= j < ex.ideas@.len() implies (#[trigger] ex.ideas@[j]).inv(ex.state.graph.spec_n()) by {
                if j != i {
                    assert(ex.ideas@[j] == start.ideas@[j]);
                }
            }
            assert forall|j: int| 0 <= j < ex.ideas@.len() implies (#[trigger] ex.ideas@[j]).same_kind(old(ex).ideas@[j]) by {
                if j != i {
                    assert(ex.ideas@[j] == start.ideas@[j]);
                } else {
                    assert(start.ideas@[j].same_kind(old(ex).ideas@[j]));
                }
            }
        }
        if ex.state.solution.len() > ex.state.upper_bound {
            proof {
                assert(gives_up(old(ex).ideas@, &ex.state));
            }
            return None;
        }
        if ex.state.graph.is_empty() {
            return Some(());
        }
        if ex.state.solution.len() == ex.state.upper_bound {
            proof {
                assert(gives_up(old(ex).ideas@, &ex.state));
            }
            return None;
        }
        proof {
            let a = start.ideas@;
            let b = ex.ideas@;
            assert forall|j: int| 0 <= j < a.len() && j != i implies b[j] == a[j] by {}
            if progressed(&swapped, &ex.state) {
                lemma_progress_measure(&swapped, &ex.state);
                assert(measure(&ex.state) < measure(&start.state));
            } else if unchanged_but_dirty(&swapped, &ex.state) && b[i as int].aux(&ex.state) < a[i as int].aux(&swapped) {
                assert(measure(&ex.state) == measure(&start.state));
                lemma_aux_sum(a, &start.state, b, &ex.state, i as int);
                assert(aux_sum(b, &ex.state) < aux_sum(a, &start.state));
            } else {
                assert(unchanged(&swapped, &ex.state));
                assert(measure(&ex.state) == measure(&start.state));
                lemma_aux_sum(a, &start.state, b, &ex.state, i as int);
                lemma_pending_count(a, start.state.dirty@, b, ex.state.dirty@, i as int);
            }
        }
    }
}

/// `a` is a prefix of `b`.
pub open spec fn is_prefix(a: Seq<Vx>, b: Seq<Vx>) -> bool {
    a.len() <= b.len() && b.subrange(0, a.len() as int) == a
}

/// Solves the instance: the best state found that respects the upper
/// bound, or `None` where there is none. The solution of the result
/// extends that of `ex` and stays within its upper bound.
pub fn solve(ex_in: ExState) -> (r: Option<ExState>)
    requires
        ex_in.wf(),
    ensures
        r matches Some(out) ==> {
            &&& out.wf()
            &&& out.state.graph.spec_n() == ex_in.state.graph.spec_n()
            &&& out.state.solution@.len() <= ex_in.state.upper_bound
            &&& is_prefix(ex_in.state.solution@, out.state.solution@)
            &&& finished(&ex_in.state, &out.state)
        },
        ex_in.state.graph@.dom() == Set::<Vx>::empty() && ex_in.state.solution@.len() <= ex_in.state.upper_bound
            ==> r == Some(ex_in),
        ex_in.state.solution@.len() > ex_in.state.upper_bound ==> r is None,
    decreases ex_in.state.graph@.dom().len(), 1nat,
{
    let mut ex = ex_in;
    let ghost ex0 = ex;
    let red = reduce(&mut ex);
    if red.is_none() {
        return None;
    }
    proof {
        ex.state.graph.lemma_simple();
        ex0.state.graph.lemma_simple();
        vstd::set_lib::lemma_len_subset(ex.state.graph@.dom(), ex0.state.graph@.dom());
    }
    if ex.state.graph.is_empty() {
        proof {
            lemma_finished_done(&ex.state);
            lemma_finished_trans(&ex0.state, &ex.state, &ex.state);
        }
        return Some(ex);
    }
    let comps = ex.state.graph.get_components();
    if comps.len() > 1 {
        proof {
            assert(views(comps@) == comps@.map_values(|c: IdSet| c@));
        }
        let ghost exc = ex;
        let r = solve_comps(ex, comps);
        proof {
            if r is Some {
                let out = r->0;
                let a = ex0.state.solution@;
                let b = exc.state.solution@;
                let c = out.state.solution@;
                assert(c.subrange(0, a.len() as int) =~= c.subrange(0, b.len() as int).subrange(0, a.len() as int));
                lemma_finished_trans(&ex0.state, &exc.state, &out.state);
            }
        }
        return r;
    }
    let ghost exr = ex;
    let ub = ex.state.upper_bound;
    let branches = ex_branch(ex);
    let r = solve_branches(branches, ub, Ghost(exr));
    proof {
        if r is Some {
            let out = r->0;
            let a = ex0.state.solution@;
            let b = exr.state.solution@;
            let c = out.state.solution@;
            assert(c.subrange(0, a.len() as int) =~= c.subrange(0, b.len() as int).subrange(0, a.len() as int));
            lemma_finished_trans(&ex0.state, &exr.state, &out.state);
        }
    }
    r
}

/// Solves the branches in turn, each under the best bound found so far:
/// the bound starts at `ub` and drops to the size of each solution found,
/// so a later branch has to do at least as well to replace it. The result
/// is the last solution found, which is the smallest; in particular no
/// branch that is already finished within `bound` has a smaller solution than
/// the result, and where one exists the result is `Some`.
pub fn solve_branches(branches: Vec<ExState>, bound: usize, Ghost(exr): Ghost<ExState>) -> (r: Option<ExState>)
    requires
        forall|i: int| 0 <= i < branches@.len() ==> {
            &&& (#[trigger] branches@[i]).wf()
            &&& branches@[i].state.graph.spec_n() == exr.state.graph.spec_n()
            &&& branches@[i].state.graph@.dom().len() < exr.state.graph@.dom().len()
            &&& reduced(&exr.state, &branches@[i].state)
            &&& keeps_sound(&exr.state, &branches@[i].state)
            &&& within(&exr.state, &branches@[i].state)
        },
    ensures
        r matches Some(out) ==> {
            &&& out.wf()
            &&& out.state.graph.spec_n() == exr.state.graph.spec_n()
            &&& out.state.solution@.len() <= bound
            &&& is_prefix(exr.state.solution@, out.state.solution@)
            &&& finished(&exr.state, &out.state)
            &&& exists|i: int| 0 <= i < branches@.len() && is_prefix((#[trigger] branches@[i]).state.solution@, out.state.solution@)
        },
        forall|i: int| 0 <= i < branches@.len() && (#[trigger] branches@[i]).state.graph@.dom() == Set::<Vx>::empty()
            && branches@[i].state.solution@.len() <= bound
            ==> (r matches Some(out) && out.state.solution@.len() <= branches@[i].state.solution@.len()),
    decreases exr.state.graph@.dom().len(), 0nat,
{
    let mut sol: Option<ExState> = None;
    let mut ub = bound;
    let mut branches = branches;
    let mut idx: usize = 0;
    let ghost bs = branches@;
    let nb = branches.len();
    proof {
        assert forall|i: int| 0 <= i < bs.len() implies is_prefix(exr.state.solution@, (#[trigger] bs[i]).state.solution@) by {
            assert(reduced(&exr.state, &bs[i].state));
        }
    }
    while idx < nb
        invariant
            idx <= bs.len(),
            nb == bs.len(),
            branches@ == bs.subrange(idx as int, bs.len() as int),
            ub <= bound,
            forall|i: int| 0 <= i < bs.len() ==> {
                &&& (#[trigger] bs[i]).wf()
                &&& bs[i].state.graph.spec_n() == exr.state.graph.spec_n()
                &&& bs[i].state.graph@.dom().len() < exr.state.graph@.dom().len()
                &&& is_prefix(exr.state.solution@, bs[i].state.solution@)
                &&& keeps_sound(&exr.state, &bs[i].state)
                &&& within(&exr.state, &bs[i].state)
            },
            sol matches Some(out) ==> {
                &&& out.wf()
                &&& out.state.graph.spec_n() == exr.state.graph.spec_n()
                &&& out.state.solution@.len() == ub
                &&& is_prefix(exr.state.solution@, out.state.solution@)
                &&& finished(&exr.state, &out.state)
                &&& exists|i: int| 0 <= i < bs.len() && is_prefix((#[trigger] bs[i]).state.solution@, out.state.solution@)
            },
            sol is None ==> ub == bound,
            forall|i: int| 0 <= i < idx && (#[trigger] bs[i]).state.graph@.dom() == Set::<Vx>::empty()
                && bs[i].state.solution@.len() <= bound
                ==> (sol matches Some(out) && out.state.solution@.len() <= bs[i].state.solution@.len()),
        decreases bs.len() - idx,
    {
        let mut branch = branches.remove(0);
        proof {
            assert(branch == bs[idx as int]);
            assert(branches@ =~= bs.subrange(idx + 1, bs.len() as int));
        }
        branch.state.upper_bound = ub;
        let ghost sol0 = sol;
        let ghost ub0 = ub;
        if let Some(new_sol) = solve(branch) {
            ub = new_sol.state.solution.len();
            proof {
                let a = exr.state.solution@;
                let b = bs[idx as int].state.solution@;
                let c = new_sol.state.solution@;
                assert(c.subrange(0, a.len() as int) =~= c.subrange(0, b.len() as int).subrange(0, a.len() as int));
                let bi = bs[idx as int].state;
                lemma_same_views(&bi, &branch.state);
                lemma_finished_trans(&bi, &branch.state, &new_sol.state);
                lemma_finished_trans(&exr.state, &bi, &new_sol.state);
                assert(is_prefix(bs[idx as int].state.solution@, new_sol.state.solution@));
            }
            sol = Some(new_sol);
        }
        proof {
            let bi = bs[idx as int];
            if bi.state.graph@.dom() == Set::<Vx>::empty() && bi.state.solution@.len() <= bound {
                if bi.state.solution@.len() <= ub0 {
                    assert(branch.state.graph@.dom() == Set::<Vx>::empty());
                    assert(sol is Some);
                } else {
                    assert(sol0 is Some);
                }
            }
        }
        idx = idx + 1;
    }
    sol
}

/// The graphs of the search states `r`.
pub open spec fn ex_graphs(r: Seq<ExState>) -> Seq<Map<Vx, Set<Vx>>> {
    r.map_values(|e: ExState| e.state.graph@)
}

/// The two branches of `ex`, each with a copy of the rules.
fn ex_branch(ex: ExState) -> (r: Vec<ExState>)
    requires
        ex.wf(),
        ex.state.graph@.dom() != Set::<Vx>::empty(),
    ensures
        forall|i: int| 0 <= i < r@.len() ==> {
            &&& (#[trigger] r@[i]).wf()
            &&& reduced(&ex.state, &r@[i].state)
            &&& r@[i].state.graph@.dom().len() < ex.state.graph@.dom().len()
            &&& keeps_sound(&ex.state, &r@[i].state)
            &&& within(&ex.state, &r@[i].state)
        },
        exists|v: Vx| #[trigger] branch_graphs(&ex.state, v, ex_graphs(r@)),
{
    let ideas = ex.ideas;
    let ghost st = ex.state;
    let branches = branch(ex.state);
    let mut branches = branches;
    let ghost bs = branches@;
    let mut out: Vec<ExState> = Vec::new();
    while branches.len() > 0
        invariant
            branches@.len() <= bs.len(),
            branches@ == bs.subrange(bs.len() - branches@.len(), bs.len() as int),
            out@.len() == bs.len() - branches@.len(),
            ideas@.len() == st.dirty@.len(),
            forall|j: int| 0 <= j < ideas@.len() ==> (#[trigger] ideas@[j]).inv(st.graph.spec_n()),
            forall|i: int| 0 <= i < bs.len() ==> {
                &&& reduced(&st, #[trigger] &bs[i])
                &&& bs[i].graph@.dom().len() < st.graph@.dom().len()
                &&& keeps_sound(&st, &bs[i])
                &&& within(&st, &bs[i])
            },
            forall|i: int| 0 <= i < out@.len() ==> (#[trigger] out@[i]).state == bs[i],
            forall|i: int| 0 <= i < out@.len() ==> {
                &&& (#[trigger] out@[i]).wf()
                &&& reduced(&st, &out@[i].state)
                &&& out@[i].state.graph@.dom().len() < st.graph@.dom().len()
                &&& keeps_sound(&st, &out@[i].state)
                &&& within(&st, &out@[i].state)
            },
        decreases branches@.len(),
    {
        let ghost k = bs.len() - branches@.len();
        let s = branches.remove(0);
        proof {
            assert(s == bs[k as int]);
            assert(branches@ =~= bs.subrange(bs.len() - branches@.len(), bs.len() as int));
        }
        let e = ExState { ideas: clone_ideas(&ideas), state: s };
        proof {
            assert forall|j: int| 0 <= j < e.ideas@.len() implies (#[trigger] e.ideas@[j]).inv(e.state.graph.spec_n()) by {
                assert(ideas@[j].inv(st.graph.spec_n()));
            }
        }
        out.push(e);
    }
    proof {
        let v = choose|v: Vx| #[trigger] branch_graphs(&st, v, graphs_of(bs));
        assert(ex_graphs(out@) =~= graphs_of(bs));
        assert(branch_graphs(&ex.state, v, ex_graphs(out@)));
    }
    out
}

/// Solves each component on its own and joins the solutions.
fn solve_comps(ex_in: ExState, comps: Vec<IdSet>) -> (r: Option<ExState>)
    requires
        ex_in.wf(),
        ex_in.state.solution@.len() <= ex_in.state.upper_bound,
        is_component_split(ex_in.state.graph@, views(comps@)),
        comps@.len() > 1,
    ensures
        r matches Some(out) ==> {
            &&& out.wf()
            &&& out.state.graph.spec_n() == ex_in.state.graph.spec_n()
            &&& out.state.solution@.len() <= ex_in.state.upper_bound
            &&& is_prefix(ex_in.state.solution@, out.state.solution@)
            &&& finished(&ex_in.state, &out.state)
        },
    decreases ex_in.state.graph@.dom().len(), 0nat,
{
    let mut ex_state = ex_in;
    let ghost ex0 = ex_state;
    let mut k = ex_state.state.solution.len();
    let n = ex_state.state.graph.n();
    let mut ci: usize = 0;
    proof {
        ex_state.state.graph.lemma_simple();
        ex0.state.graph.lemma_simple();
        assert(ex_state.state.solution@.subrange(0, ex0.state.solution@.len() as int) =~= ex0.state.solution@);
        let cs = views(comps@);
        let g = ex0.state.graph@;
        assert(covered(cs, 0) =~= Set::<Vx>::empty());
        assert(g.dom().difference(covered(cs, 0)) =~= g.dom());
        assert forall|g0: Map<Vx, Set<Vx>>| #[trigger] sound(g0, &ex0.state)
            implies parts_left(g0, g, ex_state.state.cleanup_funcs@, ex_state.state.solution@, g.dom().difference(covered(cs, 0))) by {
            lemma_parts_start(g0, &ex0.state, n as nat);
        }
        lemma_within_refl(&ex_state.state);
        let l0 = ex0.state.solution@.len() as int;
        assert(ex_state.state.solution@.subrange(l0, l0) =~= Seq::<Vx>::empty());
    }
    while ci < comps.len()
        invariant
            ci <= comps@.len(),
            comps@.len() > 1,
            n == ex0.state.graph.spec_n(),
            n < u32::MAX,
            ex0 == ex_in,
            is_component_split(ex0.state.graph@, views(comps@)),
            ex0.state.graph.wf(),
            ex0.state.graph@.dom().finite(),
            ex_state.wf(),
            ex_state.state.graph == ex0.state.graph,
            ex_state.state.upper_bound == ex0.state.upper_bound,
            k == ex_state.state.solution@.len(),
            k <= ex_state.state.upper_bound,
            is_prefix(ex0.state.solution@, ex_state.state.solution@),
            forall|g0: Map<Vx, Set<Vx>>| #[trigger] sound(g0, &ex0.state) ==> parts_left(g0, ex0.state.graph@,
                ex_state.state.cleanup_funcs@, ex_state.state.solution@, ex0.state.graph@.dom().difference(covered(views(comps@), ci as int))),
            within(&ex0.state, &ex_state.state),
            all_in(ex_state.state.solution@.subrange(ex0.state.solution@.len() as int, ex_state.state.solution@.len() as int),
                covered(views(comps@), ci as int)),
        decreases comps@.len() - ci,
    {
        let es = ex_state.state.graph.edges();
        let mut kept: Vec<Edge> = Vec::new();
        let mut e: usize = 0;
        while e < es.len()
            invariant
                e <= es@.len(),
                ci < comps@.len(),
                forall|i: int| 0 <= i < es@.len() ==> es@[i].0 < es@[i].1 && has_edge(ex0.state.graph@, es@[i].0, es@[i].1),
                ex0.state.graph.wf(),
                n == ex0.state.graph.spec_n(),
                forall|i: int| 0 <= i < kept@.len() ==> (#[trigger] kept@[i]).0 != kept@[i].1 && kept@[i].0 < n && kept@[i].1 < n
                    && comps@[ci as int]@.contains(kept@[i].0) && comps@[ci as int]@.contains(kept@[i].1),
                forall|i: int| 0 <= i < e && comps@[ci as int]@.contains(#[trigger] es@[i].0) && comps@[ci as int]@.contains(es@[i].1)
                    ==> kept@.contains(es@[i]),
            decreases es@.len() - e,
        {
            let (u, v) = es[e];
            proof {
                ex0.state.graph.lemma_simple();
                assert(ex0.state.graph@[u].contains(v));
            }
            let ghost kb = kept@;
            if comps[ci].contains(u) && comps[ci].contains(v) {
                kept.push((u, v));
                proof {
                    assert(kept@[kept@.len() - 1] == (u, v));
                }
            }
            proof {
                assert forall|i: int| 0 <= i < e + 1 && comps@[ci as int]@.contains(#[trigger] es@[i].0) && comps@[ci as int]@.contains(es@[i].1)
                    implies kept@.contains(es@[i]) by {
                    if i < e {
                        let j = choose|j: int| 0 <= j < kb.len() && kb[j] == es@[i];
                        assert(kept@[j] == es@[i]);
                    } else {
                        assert(kept@[kept@.len() - 1] == es@[i]);
                    }
                }
            }
            e = e + 1;
        }
        let subgraph = Graph::new(n, kept);
        proof {
            let c = comps@[ci as int]@;
            let cs = views(comps@);
            assert(cs[ci as int] == c);
            let g = ex0.state.graph@;
            subgraph.lemma_simple();
            assert forall|x: Vx| #[trigger] subgraph@.dom().contains(x) implies c.contains(x) && g.dom().contains(x) by {
                let w = subgraph@[x].choose();
                assert(subgraph@[x].contains(w)) by {
                    if !subgraph@[x].contains(w) {
                        assert(subgraph@[x] =~= Set::<Vx>::empty());
                    }
                }
                assert(has_edge(subgraph@, x, w));
                assert(lists_edge(kept@, x, w));
                let i = choose|i: int| 0 <= i < kept@.len() && (kept@[i] == (x, w) || kept@[i] == (w, x));
                assert(kept@[i].0 == x || kept@[i].1 == x);
                assert(comps@[ci as int]@.contains(x));
                assert(cs[ci as int].contains(x));
                assert(g.dom().contains(x));
            }
            let oj: int = if ci == 0 { 1 } else { 0 };
            assert(cs[oj].len() > 0 && cs[oj].finite());
            let w = cs[oj].choose();
            assert(cs[oj].contains(w)) by {
                if !cs[oj].contains(w) {
                    assert(cs[oj] =~= Set::<Vx>::empty());
                }
            }
            assert(g.dom().contains(w));
            assert(!c.contains(w));
            assert(subgraph@.dom().subset_of(g.dom()));
            subgraph@.dom().lemma_subset_not_in_lt(g.dom(), w);
            ex0.state.graph.lemma_simple();
            assert forall|u: Vx, v: Vx| #[trigger] has_edge(g, u, v) && c.contains(u) && c.contains(v)
                implies has_edge(subgraph@, u, v) by {
                assert(u != v);
                if u < v {
                    assert(es@.contains((u, v)));
                    let i = choose|i: int| 0 <= i < es@.len() && es@[i] == (u, v);
                    assert(kept@.contains(es@[i]));
                    let j = choose|j: int| 0 <= j < kept@.len() && kept@[j] == es@[i];
                    assert(lists_edge(kept@, u, v));
                } else {
                    assert(has_edge(g, v, u));
                    assert(es@.contains((v, u)));
                    let i = choose|i: int| 0 <= i < es@.len() && es@[i] == (v, u);
                    assert(kept@.contains(es@[i]));
                    let j = choose|j: int| 0 <= j < kept@.len() && kept@[j] == es@[i];
                    assert(lists_edge(kept@, u, v));
                }
            }
        }
        let ghost sgv = subgraph@;
        proof {
            ex_state.state.graph.lemma_simple();
            assert(crate::state::substate_fits(&ex_state.state, subgraph.spec_n()));
        }
        let ex_sub = ex_state.substate(subgraph, k);
        let ghost sub_in = ex_sub.state;
        let sub_sol = match solve(ex_sub) {
            Some(s) => s,
            None => {
                return None;
            },
        };
        let mut sub_sol = sub_sol;
        let ghost so = sub_sol.state;
        let ghost st_b = ex_state.state;
        proof {
            law_sound_start(sgv, &sub_in);
            assert(so.solution@.subrange(0, so.solution@.len() as int) =~= so.solution@);
            assert(so.cleanup_funcs@.subrange(0, so.cleanup_funcs@.len() as int) =~= so.cleanup_funcs@);
        }
        let added = sub_sol.state.solution.len();
        ex_state.state.solution.append(&mut sub_sol.state.solution);
        ex_state.state.cleanup_funcs.append(&mut sub_sol.state.cleanup_funcs);
        proof {
            let a = ex0.state.solution@;
            assert(ex_state.state.solution@.subrange(0, a.len() as int) =~= st_b.solution@.subrange(0, a.len() as int));
            lemma_comps_step(&ex0.state, &st_b, &ex_state.state, &so, views(comps@), ci as int, sgv);
        }
        k = k + added;
        ci = ci + 1;
    }
    proof {
        let cs = views(comps@);
        let g = ex0.state.graph@;
        assert(g.dom().difference(covered(cs, ci as int)) =~= Set::<Vx>::empty()) by {
            assert forall|v: Vx| g.dom().contains(v) implies covered(cs, ci as int).contains(v) by {
                let i = choose|i: int| 0 <= i < cs.len() && #[trigger] cs[i].contains(v);
            }
        }
        assert forall|g0: Map<Vx, Set<Vx>>| #[trigger] sound(g0, &ex0.state)
            implies undo_covers(g0, ex_state.state.cleanup_funcs@, ex_state.state.solution@) by {
            lemma_parts_end(g0, g, ex_state.state.cleanup_funcs@, ex_state.state.solution@);
        }
    }
    Some(ex_state)
}

/// One part of the split solved and appended: what is left to solve and
/// where the solution lies move on to the next part.
proof fn lemma_comps_step(s0: &State, b: &State, c: &State, sub: &State, cs: Seq<Set<Vx>>, ci: int, sg: Map<Vx, Set<Vx>>)
    requires
        s0.graph.wf(),
        is_component_split(s0.graph@, cs),
        0 <= ci < cs.len(),
        forall|g0: Map<Vx, Set<Vx>>| #[trigger] sound(g0, s0) ==> parts_left(g0, s0.graph@,
            b.cleanup_funcs@, b.solution@, s0.graph@.dom().difference(covered(cs, ci))),
        within(s0, b),
        b.graph@ == s0.graph@,
        all_in(b.solution@.subrange(s0.solution@.len() as int, b.solution@.len() as int), covered(cs, ci)),
        sg.dom().subset_of(cs[ci]),
        forall|u: Vx, v: Vx| #[trigger] has_edge(s0.graph@, u, v) && cs[ci].contains(u) && cs[ci].contains(v) ==> has_edge(sg, u, v),
        all_in(sub.solution@, sg.dom()),
        names_in(sub.cleanup_funcs@, sg.dom()),
        undo_covers(sg, sub.cleanup_funcs@, sub.solution@),
        c.graph@ == b.graph@,
        c.solution@ == b.solution@ + sub.solution@,
        c.cleanup_funcs@ == b.cleanup_funcs@ + sub.cleanup_funcs@,
    ensures
        forall|g0: Map<Vx, Set<Vx>>| #[trigger] sound(g0, s0) ==> parts_left(g0, s0.graph@,
            c.cleanup_funcs@, c.solution@, s0.graph@.dom().difference(covered(cs, ci + 1))),
        within(s0, c),
        all_in(c.solution@.subrange(s0.solution@.len() as int, c.solution@.len() as int), covered(cs, ci + 1)),
{
    let g = s0.graph@;
    s0.graph.lemma_simple();
    let l0 = s0.solution@.len() as int;
    let lb = b.solution@.len() as int;
    let ab = b.solution@.subrange(l0, lb);
    assert forall|v: Vx| covered(cs, ci).contains(v) implies covered(cs, ci + 1).contains(v) by {
        let i = choose|i: int| 0 <= i < ci && #[trigger] cs[i].contains(v);
    }
    assert forall|v: Vx| cs[ci].contains(v) implies covered(cs, ci + 1).contains(v) by {
        assert(0 <= ci < ci + 1 && cs[ci].contains(v));
    }
    assert forall|g0: Map<Vx, Set<Vx>>| #[trigger] sound(g0, s0) implies parts_left(g0, g,
        c.cleanup_funcs@, c.solution@, g.dom().difference(covered(cs, ci + 1))) by {
        assert forall|v: Vx| #[trigger] cs[ci].contains(v) implies !b.solution@.contains(v) by {
            assert(g.dom().contains(v));
            if b.solution@.contains(v) {
                let k = choose|k: int| 0 <= k < b.solution@.len() && b.solution@[k] == v;
                if k < l0 {
                    assert(b.solution@.subrange(0, l0)[k] == v);
                    assert(s0.solution@.contains(v));
                } else {
                    assert(ab[k - l0] == v);
                    assert(ab.contains(v));
                    let i = choose|i: int| 0 <= i < ci && #[trigger] cs[i].contains(v);
                    assert(!cs[ci].contains(v));
                }
            }
        }
        lemma_comp_step(g0, g, b.cleanup_funcs@, b.solution@, cs, ci, sg, sub.cleanup_funcs@, sub.solution@);
    }
    assert(all_in(sub.solution@, g.dom()));
    assert(names_in(sub.cleanup_funcs@, g.dom()));
    lemma_within_append(s0, b, c, sub.solution@, sub.cleanup_funcs@);
    let ac = c.solution@.subrange(l0, c.solution@.len() as int);
    assert(ac =~= ab + sub.solution@);
    assert forall|v: Vx| #[trigger] ac.contains(v) implies covered(cs, ci + 1).contains(v) by {
        crate::sound::lemma_concat_contains(ab, sub.solution@, v);
    }
}

/// A minimum vertex cover of `g`, as the search finds it: solve from the
/// start state and undo the folding steps. `None` where the search finds
/// no solution or an undo step does not apply.
pub fn get_vertex_cover(g: Graph) -> (r: Option<Vec<Vx>>)
    requires
        g.wf(),
    ensures
        r matches Some(c) ==> exists|out: ExState, cv: Set<Vx>| #![trigger is_vertex_cover(g@, cv), out.wf()] {
            &&& out.wf()
            &&& undo_all(out.state.cleanup_funcs@, out.state.solution@) == Some(c@)
            &&& cv.finite() && is_vertex_cover(g@, cv)
            &&& out.state.solution@.len() <= cv.len()
        },
        r matches Some(c) ==> is_vertex_cover(g@, c@.to_set()),
        g@.dom() == Set::<Vx>::empty() ==> r is Some && r->0@.len() == 0,
{
    let ghost gv = g@;
    let ex = ExState::new(g);
    proof {
        law_sound_start(gv, &ex.state);
    }
    let ghost ex_start = ex.state;
    let ghost cv = choose|c: Set<Vx>| #![trigger is_vertex_cover(gv, c)] c.finite() && c.len() == ex.state.upper_bound && is_vertex_cover(gv, c);
    match solve(ex) {
        Some(out) => {
            let ghost o = out;
            let r = out.final_solution();
            proof {
                assert(sound(gv, &ex_start));
                if r is Some {
                    assert(o.wf() && is_vertex_cover(gv, cv));
                }
            }
            r
        },
        None => None,
    }
}

} // verus!
