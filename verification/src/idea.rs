//! The interface of a reduction rule or lower bound.

use vstd::prelude::*;
use crate::idset::IdSet;
use crate::graph::{Vx, Graph};
use crate::state::{State, reduced, from_graph};

verus! {

/// A reduction rule or lower bound that the solver applies to a state.
pub trait Idea: Sized {
    /// The rule's own data fits a graph on the ids below `n`.
    spec fn inv(&self, n: nat) -> bool;

    /// The rule has work to do, given the vertices marked dirty for it.
    spec fn pending(&self, dirty: Set<Vx>) -> bool;

    /// The rule, set up for the graph `g`.
    fn new(g: &Graph) -> (r: Self)
        requires
            g.wf(),
        ensures
            r.inv(g.spec_n()),
    ;

    /// How urgent the rule is; zero where it has nothing to do.
    fn priority(&self, state: &State, dirty: &IdSet) -> (r: usize)
        ensures
            (r > 0) == self.pending(dirty@),
    ;

    /// Applies the rule; `None` where the state cannot lead to a better
    /// solution.
    fn apply(&mut self, state: &mut State, dirty: &IdSet) -> (r: Option<()>)
        requires
            old(state).wf(),
            old(self).inv(old(state).graph.spec_n()),
            old(state).solution@.len() <= old(state).upper_bound,
            forall|v: Vx| dirty@.contains(v) ==> v < old(state).graph.spec_n(),
        ensures
            r is Some ==> reduced(old(state), final(state)) && final(self).inv(old(state).graph.spec_n()),
            r is Some ==> from_graph(old(state), final(state)),
    ;
}

} // verus!
