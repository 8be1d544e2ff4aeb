//! States, transitions and fragments of nondeterministic automata.

use vstd::prelude::*;
use crate::regex::node::RegexChar;

verus! {

/// The identifier of an automaton state.
#[derive(Debug, Clone, Copy, PartialEq, Eq, Structural, Hash, PartialOrd, Ord)]
pub struct StateId(pub usize);

/// A labelled transition: the input (`None` for the empty transition) and the target.
pub type Edge = (Option<RegexChar>, StateId);

/// A state with its outgoing transitions, in the order they were added.
#[derive(Debug, Clone)]
pub struct State {
    pub id: StateId,
    pub transitions: Vec<Edge>,
    pub is_final: bool,
}

impl State {
    /// A non-final state with no transitions.
    pub fn new(id: usize) -> (s: Self)
        ensures
            s.id == StateId(id),
            s.transitions@ == Seq::<Edge>::empty(),
            !s.is_final,
    {
        State { id: StateId(id), transitions: Vec::new(), is_final: false }
    }

    /// Adds a transition on `input` (`None` for the empty transition) to `target`.
    pub fn add_transition(&mut self, input: Option<RegexChar>, target: StateId)
        ensures
            final(self).id == old(self).id,
            final(self).is_final == old(self).is_final,
            final(self).transitions@ == old(self).transitions@.push((input, target)),
    {
        self.transitions.push((input, target));
    }

    /// Whether this state has a transition on `input` to `target`.
    pub open spec fn has_edge(&self, input: Option<RegexChar>, target: StateId) -> bool {
        self.transitions@.contains((input, target))
    }
}

/// A piece of automaton under construction: its start state and its accepting states.
#[derive(Debug, Clone)]
pub struct NFAFragment {
    pub start: StateId,
    pub accepts: Vec<StateId>,
}

/// The transitions of each state of a list, by position.
pub open spec fn edges_of(states: Seq<State>) -> Seq<Seq<Edge>> {
    states.map_values(|s: State| s.transitions@)
}

/// States are numbered by their positions and every transition leads to a state of the list.
pub open spec fn states_wf(states: Seq<State>) -> bool {
    &&& forall|i: int| 0 <= i < states.len() ==> #[trigger] states[i].id == StateId(i as usize)
    &&& forall|i: int, k: int|
        0 <= i < states.len() && 0 <= k < states[i].transitions@.len()
            ==> (#[trigger] states[i].transitions@[k]).1.0 < states.len()
}

} // verus!
