//! The nondeterministic automaton of one regular expression.

use vstd::prelude::*;
use crate::regex::node::AstNodeImpl;
use crate::nfa::state::{StateId, State, edges_of, states_wf};
use crate::nfa::builder::{NFABuilder, build_spec, tree_size};

verus! {

/// A nondeterministic automaton: its states (numbered by position), its start state and
/// its accepting states.
pub struct NFA {
    pub states: Vec<State>,
    pub start: StateId,
    pub accepts: Vec<StateId>,
}

impl NFA {
    /// States are numbered by position, transitions lead to states of the automaton, and the
    /// start and accepting states exist.
    pub open spec fn wf(&self) -> bool {
        &&& states_wf(self.states@)
        &&& self.start.0 < self.states@.len()
        &&& forall|i: int| 0 <= i < self.accepts@.len() ==> (#[trigger] self.accepts@[i]).0 < self.states@.len()
    }

    /// Builds the automaton of a regular-expression tree: the states and transitions are
    /// those of the construction (see `build_spec`), the start and accepting states those of
    /// the resulting piece (there is at least one accepting state), and exactly the accepting
    /// states are marked final.
    pub fn from_ast(ast: &AstNodeImpl) -> (nfa: Self)
        requires
            3 * tree_size(ast.model()) <= usize::MAX,
        ensures
            nfa.wf(),
            (edges_of(nfa.states@), nfa.start, nfa.accepts@) == build_spec(ast.model(), seq![]),
            nfa.accepts@.len() > 0,
            forall|i: int| 0 <= i < nfa.states@.len() ==>
                (#[trigger] nfa.states@[i]).is_final == nfa.accepts@.contains(StateId(i as usize)),
    {
        let mut builder = NFABuilder::new();
        assert(builder.graph() =~= Seq::<Seq<crate::nfa::state::Edge>>::empty());
        let frag = builder.build(ast);
        let mut states = builder.states;
        let accepts = frag.accepts;
        let n = states.len();
        let mut i: usize = 0;
        while i < n
            invariant
                n == states@.len(),
                i <= n,
                states_wf(states@),
                edges_of(states@) == build_spec(ast.model(), seq![]).0,
                forall|j: int| 0 <= j < i ==> (#[trigger] states@[j]).is_final == accepts@.contains(StateId(j as usize)),
            decreases n - i,
        {
            let fin = contains_state(&accepts, StateId(i));
            let ghost before = states@;
            states[i].is_final = fin;
            proof {
                assert(edges_of(states@) =~= edges_of(before));
                assert forall|a: int, k: int|
                    0 <= a < states@.len() && 0 <= k < states@[a].transitions@.len()
                        implies (#[trigger] states@[a].transitions@[k]).1.0 < states@.len() by {
                    assert(states@[a].transitions@ == before[a].transitions@);
                }
                assert forall|a: int| 0 <= a < states@.len() implies #[trigger] states@[a].id == StateId(a as usize) by {
                    assert(states@[a].id == before[a].id);
                }
            }
            i += 1;
        }
        NFA { states, start: frag.start, accepts }
    }
}

/// Whether a list holds a state identifier.
pub fn contains_state(v: &Vec<StateId>, s: StateId) -> (b: bool)
    ensures
        b == v@.contains(s),
{
    let mut i: usize = 0;
    while i < v.len()
        invariant
            i <= v@.len(),
            forall|j: int| 0 <= j < i ==> v@[j] != s,
        decreases v@.len() - i,
    {
        if v[i].0 == s.0 {
            return true;
        }
        i += 1;
    }
    false
}

} // verus!
