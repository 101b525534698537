//! The reduction rules and lower bounds, and the enum that holds one of
//! them.

use vstd::prelude::*;
use crate::idset::IdSet;
use crate::graph::{Vx, Graph, nbrs, edge_set};
use crate::branch::is_clique;
use crate::state::{takes_set, beyond_bound, State, reduced, progressed, unchanged, cover_safe, lemma_reduced_refl, lemma_cover_safe_refl};
use crate::idea::Idea;
use crate::sound::{keeps_sound, within, lemma_safe_step, lemma_deg2_steps_within, lemma_deg3_steps_within,
    lemma_two_clique_steps_within};

pub mod buss;
pub mod flow;
pub mod deg1;
pub mod highdeg;
pub mod twoclique;
pub mod constraints;
pub mod neighbourclique;
pub mod deg3;
pub mod deg2;
pub mod crown;
pub mod unconfined;
pub mod cliquelb;
pub mod cyclelb;
pub mod ilplb;

pub use buss::Buss;
pub use cliquelb::CliqueLB;
pub use cyclelb::CycleLB;
pub use crown::Crown;
pub use flow::Flow;
pub use constraints::ConstraintReductions;
pub use twoclique::TwoClique;
pub use deg2::Deg2;
pub use deg3::Deg3;
pub use neighbourclique::NeighbourClique;
pub use unconfined::Unconfined;
pub use deg1::Deg1;
pub use highdeg::HighDeg;
pub use ilplb::ILPLB;

verus! {

/// One of the solver's rules.
pub enum AnyIdea {
    NeighbourClique(NeighbourClique),
    Unconfined(Unconfined),
    CycleLB(CycleLB),
    CliqueLB(CliqueLB),
    Crown(Crown),
    Deg1(Deg1),
    Deg2(Deg2),
    Deg3(Deg3),
    HighDeg(HighDeg),
    Buss(Buss),
    TwoClique(TwoClique),
    ConstraintReductions(ConstraintReductions),
    Flow(Flow),
}

/// `b` has the vertices, the solution size and the number of constraints
/// of `a`; the dirty sets may have grown.
pub open spec fn unchanged_but_dirty(a: &State, b: &State) -> bool {
    &&& b.graph@.dom() == a.graph@.dom()
    &&& b.solution@.len() == a.solution@.len()
    &&& b.constraints_vec@.len() == a.constraints_vec@.len()
    &&& b.dirty@.len() == a.dirty@.len()
}

impl AnyIdea {
    /// The rule's own data fits a graph on the ids below `n`.
    pub open spec fn inv(&self, n: nat) -> bool {
        match self {
            AnyIdea::Unconfined(i) => i.inv(n),
            AnyIdea::CycleLB(i) => i.inv(n),
            AnyIdea::CliqueLB(i) => i.inv(n),
            AnyIdea::Crown(i) => i.inv(n),
            AnyIdea::NeighbourClique(i) => i.inv(n),
            AnyIdea::Deg1(i) => i.inv(n),
            AnyIdea::Deg2(i) => i.inv(n),
            AnyIdea::Deg3(i) => i.inv(n),
            AnyIdea::HighDeg(i) => i.inv(n),
            AnyIdea::Buss(i) => i.inv(n),
            AnyIdea::TwoClique(i) => i.inv(n),
            AnyIdea::ConstraintReductions(i) => i.inv(n),
            AnyIdea::Flow(i) => i.inv(n),
        }
    }

    /// The rule has work to do, given its dirty set.
    pub open spec fn pending(&self, dirty: Set<Vx>) -> bool {
        match self {
            AnyIdea::Unconfined(i) => i.pending(dirty),
            AnyIdea::CycleLB(i) => i.pending(dirty),
            AnyIdea::CliqueLB(i) => i.pending(dirty),
            AnyIdea::Crown(i) => i.pending(dirty),
            AnyIdea::NeighbourClique(i) => i.pending(dirty),
            AnyIdea::Deg1(i) => i.pending(dirty),
            AnyIdea::Deg2(i) => i.pending(dirty),
            AnyIdea::Deg3(i) => i.pending(dirty),
            AnyIdea::HighDeg(i) => i.pending(dirty),
            AnyIdea::Buss(i) => i.pending(dirty),
            AnyIdea::TwoClique(i) => i.pending(dirty),
            AnyIdea::ConstraintReductions(i) => i.pending(dirty),
            AnyIdea::Flow(i) => i.pending(dirty),
        }
    }

    /// Work that the rule may still do without changing the graph or the
    /// solution (only the constraint rule has any).
    pub open spec fn aux(&self, s: &State) -> nat {
        match self {
            AnyIdea::ConstraintReductions(i) => i.aux(s),
            _ => 0,
        }
    }

    /// `self` is the same rule as `other`, with the same data.
    pub open spec fn copy_of(&self, other: AnyIdea) -> bool {
        match (*self, other) {
            (AnyIdea::Unconfined(a), AnyIdea::Unconfined(b)) => a.0 == b.0,
            (AnyIdea::CycleLB(_), AnyIdea::CycleLB(_)) => true,
            (AnyIdea::CliqueLB(_), AnyIdea::CliqueLB(_)) => true,
            (AnyIdea::Crown(_), AnyIdea::Crown(_)) => true,
            (AnyIdea::NeighbourClique(a), AnyIdea::NeighbourClique(b)) => a.0@ == b.0@,
            (AnyIdea::Deg1(a), AnyIdea::Deg1(b)) => a.0@ == b.0@,
            (AnyIdea::Deg2(a), AnyIdea::Deg2(b)) => a.0@ == b.0@,
            (AnyIdea::Deg3(a), AnyIdea::Deg3(b)) => a.0@ == b.0@,
            (AnyIdea::HighDeg(_), AnyIdea::HighDeg(_)) => true,
            (AnyIdea::Buss(_), AnyIdea::Buss(_)) => true,
            (AnyIdea::TwoClique(a), AnyIdea::TwoClique(b)) => a.0@ == b.0@,
            (AnyIdea::ConstraintReductions(a), AnyIdea::ConstraintReductions(b)) => a.0@ == b.0@,
            (AnyIdea::Flow(_), AnyIdea::Flow(_)) => true,
            _ => false,
        }
    }

    /// The rule as it is set up for the graph `g`, before any work: the
    /// rules that keep a queue start with every vertex of `g` or with none.
    pub open spec fn fresh(&self, g: Map<Vx, Set<Vx>>) -> bool {
        match *self {
            AnyIdea::Unconfined(a) => a.0,
            AnyIdea::NeighbourClique(a) => a.0@ == g.dom(),
            AnyIdea::Deg1(a) => a.0@ == Set::<Vx>::empty(),
            AnyIdea::Deg2(a) => a.0@ == Set::<Vx>::empty(),
            AnyIdea::Deg3(a) => a.0@ == Set::<Vx>::empty(),
            AnyIdea::TwoClique(a) => a.0@ == g.dom(),
            AnyIdea::ConstraintReductions(a) => a.0@ == Set::<usize>::empty(),
            _ => true,
        }
    }

    /// A copy of the rule with its data.
    pub fn duplicate(&self) -> (r: AnyIdea)
        ensures
            forall|n: nat| self.inv(n) ==> r.inv(n),
            r.copy_of(*self),
    {
        match self {
            AnyIdea::Unconfined(i) => AnyIdea::Unconfined(Unconfined(i.0)),
            AnyIdea::CycleLB(i) => AnyIdea::CycleLB(CycleLB),
            AnyIdea::CliqueLB(i) => AnyIdea::CliqueLB(CliqueLB),
            AnyIdea::Crown(i) => AnyIdea::Crown(Crown),
            AnyIdea::NeighbourClique(i) => AnyIdea::NeighbourClique(i.duplicate()),
            AnyIdea::Deg1(i) => AnyIdea::Deg1(i.duplicate()),
            AnyIdea::Deg2(i) => AnyIdea::Deg2(i.duplicate()),
            AnyIdea::Deg3(i) => AnyIdea::Deg3(i.duplicate()),
            AnyIdea::HighDeg(i) => AnyIdea::HighDeg(HighDeg),
            AnyIdea::Buss(i) => AnyIdea::Buss(Buss),
            AnyIdea::TwoClique(i) => AnyIdea::TwoClique(i.duplicate()),
            AnyIdea::ConstraintReductions(i) => AnyIdea::ConstraintReductions(i.duplicate()),
            AnyIdea::Flow(i) => AnyIdea::Flow(Flow),
        }
    }

    /// How urgent the rule is when it has work to do.
    pub open spec fn rank(&self) -> nat {
        match self {
            AnyIdea::NeighbourClique(_) => 5,
            AnyIdea::Deg1(_) => 4,
            AnyIdea::Deg2(_) => 4,
            AnyIdea::Deg3(_) => 4,
            AnyIdea::TwoClique(_) => 4,
            AnyIdea::Unconfined(_) => 3,
            AnyIdea::CycleLB(_) => 3,
            AnyIdea::HighDeg(_) => 3,
            AnyIdea::CliqueLB(_) => 2,
            AnyIdea::Crown(_) => 2,
            AnyIdea::Buss(_) => 2,
            AnyIdea::ConstraintReductions(_) => 2,
            AnyIdea::Flow(_) => 1,
        }
    }

    /// `self` and `other` are the same rule, whatever their data.
    pub open spec fn same_kind(&self, other: AnyIdea) -> bool {
        match (*self, other) {
            (AnyIdea::Unconfined(_), AnyIdea::Unconfined(_)) => true,
            (AnyIdea::CycleLB(_), AnyIdea::CycleLB(_)) => true,
            (AnyIdea::CliqueLB(_), AnyIdea::CliqueLB(_)) => true,
            (AnyIdea::Crown(_), AnyIdea::Crown(_)) => true,
            (AnyIdea::NeighbourClique(_), AnyIdea::NeighbourClique(_)) => true,
            (AnyIdea::Deg1(_), AnyIdea::Deg1(_)) => true,
            (AnyIdea::Deg2(_), AnyIdea::Deg2(_)) => true,
            (AnyIdea::Deg3(_), AnyIdea::Deg3(_)) => true,
            (AnyIdea::HighDeg(_), AnyIdea::HighDeg(_)) => true,
            (AnyIdea::Buss(_), AnyIdea::Buss(_)) => true,
            (AnyIdea::TwoClique(_), AnyIdea::TwoClique(_)) => true,
            (AnyIdea::ConstraintReductions(_), AnyIdea::ConstraintReductions(_)) => true,
            (AnyIdea::Flow(_), AnyIdea::Flow(_)) => true,
            _ => false,
        }
    }

    /// Why the rule may give up the state `s`: what each rule's own
    /// contract states of the states it gives up.
    pub open spec fn gave_up(&self, s: &State) -> bool {
        match *self {
            AnyIdea::Deg3(_) => false,
            AnyIdea::Deg1(_) => exists|m: State, x: Vx, y: Vx| #![trigger deg1::deg1_step(s, &m), nbrs(m.graph@, x), set![y]]
                deg1::deg1_step(s, &m) && m.wf() && nbrs(m.graph@, x) == set![y] && !takes_set(&m, set![y]),
            AnyIdea::Deg2(_) => exists|m: State, k: nat, x: Vx| #![trigger deg2::deg2_steps(*s, m, k), deg2::deg2_refused(&m, x)]
                deg2::deg2_steps(*s, m, k) && m.wf() && m.graph@.dom().contains(x) && deg2::deg2_refused(&m, x),
            AnyIdea::HighDeg(_) => !takes_set(s, highdeg::high_degree(s, (s.upper_bound - s.solution@.len()) as u32)),
            AnyIdea::NeighbourClique(_) => exists|x: Vx| #[trigger] s.graph@.dom().contains(x)
                && is_clique(s.graph@, nbrs(s.graph@, x)) && !takes_set(s, nbrs(s.graph@, x)),
            AnyIdea::Crown(_) => exists|hs: Set<Vx>, is: Set<Vx>| #[trigger] crown::crown_pair(s.graph@, hs, is)
                && !takes_set(s, hs),
            AnyIdea::Unconfined(_) => exists|v: Vx| #[trigger] s.graph@.dom().contains(v)
                && unconfined::found_unconfined(s.graph@, v)
                && !takes_set(s, set![v]),
            AnyIdea::TwoClique(_) => exists|m: State, k: nat, x: Vx, c1: Set<Vx>, c2: Set<Vx>, pairs: Seq<(Vx, Vx)>|
                #![trigger twoclique::two_clique_steps(*s, m, k), twoclique::two_clique_refused(&m, x, c1, c2, pairs)]
                twoclique::two_clique_steps(*s, m, k) && m.wf() && twoclique::two_clique_refused(&m, x, c1, c2, pairs),
            AnyIdea::CliqueLB(_) => beyond_bound(s),
            AnyIdea::CycleLB(_) => beyond_bound(s),
            AnyIdea::Buss(_) => {
                let k = s.upper_bound - s.solution@.len();
                !(s.graph@.dom().len() <= k * k + k && edge_set(s.graph@).len() <= k * k)
            },
            AnyIdea::ConstraintReductions(_) => s.constraints_vec@.len() > 0,
            AnyIdea::Flow(_) => beyond_bound(s) || flow::flow_refused(s),
        }
    }

    /// The rule's priority given its dirty set: its rank where it has
    /// work to do, zero otherwise.
    pub open spec fn spec_priority(&self, dirty: Set<Vx>) -> nat {
        if self.pending(dirty) { self.rank() } else { 0 }
    }

    /// The rule's priority.
    pub fn priority(&self, state: &State, dirty: &IdSet) -> (r: usize)
        ensures
            r == self.spec_priority(dirty@),
    {
        match self {
            AnyIdea::Unconfined(i) => i.priority(state, dirty),
            AnyIdea::CycleLB(i) => i.priority(state, dirty),
            AnyIdea::CliqueLB(i) => i.priority(state, dirty),
            AnyIdea::Crown(i) => i.priority(state, dirty),
            AnyIdea::NeighbourClique(i) => i.priority(state, dirty),
            AnyIdea::Deg1(i) => i.priority(state, dirty),
            AnyIdea::Deg2(i) => i.priority(state, dirty),
            AnyIdea::Deg3(i) => i.priority(state, dirty),
            AnyIdea::HighDeg(i) => i.priority(state, dirty),
            AnyIdea::Buss(i) => i.priority(state, dirty),
            AnyIdea::TwoClique(i) => i.priority(state, dirty),
            AnyIdea::ConstraintReductions(i) => i.priority(state, dirty),
            AnyIdea::Flow(i) => i.priority(state, dirty),
        }
    }

    /// Applies the rule. Where it returns `Some`, it either made progress,
    /// or did work of its own that only dirtied vertices, or left the state
    /// as it was and has nothing more to do.
    pub fn apply(&mut self, state: &mut State, dirty: &IdSet) -> (r: Option<()>)
        requires
            old(state).wf(),
            old(self).inv(old(state).graph.spec_n()),
            old(state).solution@.len() <= old(state).upper_bound,
            forall|v: Vx| dirty@.contains(v) ==> v < old(state).graph.spec_n(),
        ensures
            r is Some ==> reduced(old(state), final(state)),
            r is Some ==> final(self).inv(old(state).graph.spec_n()),
            r is Some ==> progressed(old(state), final(state))
                || (unchanged_but_dirty(old(state), final(state)) && final(self).aux(final(state)) < old(self).aux(old(state)))
                || (unchanged(old(state), final(state)) && !final(self).pending(Set::empty())
                    && final(self).aux(final(state)) <= old(self).aux(old(state))),
            !old(self).folds() ==> final(state).cleanup_funcs == old(state).cleanup_funcs,
            !old(self).folds() ==> cover_safe(old(state), final(state)),
            *old(self) is Deg2 && r is Some ==> exists|k: nat| deg2::deg2_steps(*old(state), *final(state), k),
            *old(self) is Deg3 && r is Some ==> exists|k: nat| deg3::deg3_steps(*old(state), *final(state), k),
            *old(self) is TwoClique && r is Some ==> exists|k: nat| twoclique::two_clique_steps(*old(state), *final(state), k),
            r is Some ==> keeps_sound(old(state), final(state)) && within(old(state), final(state)),
            r is None ==> old(self).gave_up(old(state)),
            final(self).same_kind(*old(self)),
    {
        let ghost s0 = *state;
        let ghost was = *self;
        proof {
            lemma_reduced_refl(&s0);
            lemma_cover_safe_refl(&s0);
        }
        let r = match self {
            AnyIdea::Unconfined(i) => i.apply(state, dirty),
            AnyIdea::CycleLB(i) => i.apply(state, dirty),
            AnyIdea::CliqueLB(i) => i.apply(state, dirty),
            AnyIdea::Crown(i) => i.apply(state, dirty),
            AnyIdea::NeighbourClique(i) => i.apply(state, dirty),
            AnyIdea::Deg1(i) => i.apply(state, dirty),
            AnyIdea::Deg2(i) => i.apply(state, dirty),
            AnyIdea::Deg3(i) => i.apply(state, dirty),
            AnyIdea::HighDeg(i) => {
                i.apply(state, dirty)
            },
            AnyIdea::Buss(i) => i.apply(state, dirty),
            AnyIdea::TwoClique(i) => i.apply(state, dirty),
            AnyIdea::ConstraintReductions(i) => i.apply(state, dirty),
            AnyIdea::Flow(i) => i.apply(state, dirty),
        };
        proof {
            if r is Some {
                if !was.folds() {
                    lemma_safe_step(&s0, state);
                } else if was is Deg2 {
                    let k = choose|k: nat| deg2::deg2_steps(s0, *state, k);
                    lemma_deg2_steps_within(s0, *state, k);
                } else if was is Deg3 {
                    let k = choose|k: nat| deg3::deg3_steps(s0, *state, k);
                    lemma_deg3_steps_within(s0, *state, k);
                } else {
                    let k = choose|k: nat| twoclique::two_clique_steps(s0, *state, k);
                    lemma_two_clique_steps_within(s0, *state, k);
                }
            }
        }
        r
    }

    /// The rule folds vertices together and leaves an undo step behind.
    pub open spec fn folds(&self) -> bool {
        self is Deg2 || self is Deg3 || self is TwoClique
    }
}

/// Rules of the same kind give up the same states.
pub proof fn lemma_same_kind_gave_up(a: AnyIdea, b: AnyIdea, s: &State)
    requires
        a.same_kind(b),
    ensures
        a.gave_up(s) == b.gave_up(s),
{
}

/// The Buss rule ranks below the high-degree rule, so that the rule that
/// takes the vertices of high degree runs first whenever both have work.
pub proof fn law_buss_after_high_degree(b: Buss, h: HighDeg)
    ensures
        AnyIdea::Buss(b).rank() < AnyIdea::HighDeg(h).rank(),
{
}

/// The rules of the solver, set up for `g`, in the order in which ties
/// between equal priorities are broken (the last wins).
pub fn ideas(g: &Graph) -> (r: Vec<AnyIdea>)
    requires
        g.wf(),
    ensures
        forall|j: int| 0 <= j < r@.len() ==> (#[trigger] r@[j]).inv(g.spec_n()),
        forall|j: int| 0 <= j < r@.len() ==> (#[trigger] r@[j]).fresh(g@),
        r@.len() == 13,
        r@[0] is NeighbourClique && r@[1] is Unconfined && r@[2] is CycleLB && r@[3] is CliqueLB,
        r@[4] is Crown && r@[5] is Deg1 && r@[6] is Deg2 && r@[7] is Deg3 && r@[8] is HighDeg,
        r@[9] is Buss && r@[10] is TwoClique && r@[11] is ConstraintReductions && r@[12] is Flow,
{
    let mut r: Vec<AnyIdea> = Vec::new();
    r.push(AnyIdea::NeighbourClique(NeighbourClique::new(g)));
    r.push(AnyIdea::Unconfined(Unconfined::new(g)));
    r.push(AnyIdea::CycleLB(CycleLB::new(g)));
    r.push(AnyIdea::CliqueLB(CliqueLB::new(g)));
    r.push(AnyIdea::Crown(Crown::new(g)));
    r.push(AnyIdea::Deg1(Deg1::new(g)));
    r.push(AnyIdea::Deg2(Deg2::new(g)));
    r.push(AnyIdea::Deg3(Deg3::new(g)));
    r.push(AnyIdea::HighDeg(HighDeg::new(g)));
    r.push(AnyIdea::Buss(Buss::new(g)));
    r.push(AnyIdea::TwoClique(TwoClique::new(g)));
    r.push(AnyIdea::ConstraintReductions(ConstraintReductions::new(g)));
    r.push(AnyIdea::Flow(Flow::new(g)));
    r
}

/// A copy of each rule.
pub fn clone_ideas(v: &Vec<AnyIdea>) -> (r: Vec<AnyIdea>)
    ensures
        r@.len() == v@.len(),
        forall|n: nat, j: int| #![trigger v@[j].inv(n)] 0 <= j < v@.len() && v@[j].inv(n) ==> r@[j].inv(n),
{
    let mut r: Vec<AnyIdea> = Vec::new();
    let mut i: usize = 0;
    while i < v.len()
        invariant
            i <= v@.len(),
            r@.len() == i,
            forall|n: nat, j: int| #![trigger v@[j].inv(n)] 0 <= j < i && v@[j].inv(n) ==> r@[j].inv(n),
        decreases v@.len() - i,
    {
        r.push(v[i].duplicate());
        i = i + 1;
    }
    r
}

} // verus!
