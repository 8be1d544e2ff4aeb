//! Joining several automata, each labelled with a token type and a priority, under one new
//! start state.

use vstd::prelude::*;
use crate::nfa::state::{StateId, State, Edge, states_wf};
use crate::nfa::nfa::{NFA, contains_state};

verus! {

/// What an accepting state recognises: a token type and its priority (lower wins).
#[derive(Debug)]
pub struct AcceptInfo {
    pub token_type: String,
    pub priority: usize,
}

impl AcceptInfo {
    /// A copy of this accept information.
    pub fn duplicate(&self) -> (r: AcceptInfo)
        ensures
            r == *self,
    {
        AcceptInfo { token_type: self.token_type.clone(), priority: self.priority }
    }
}

/// The joined automaton: state 0 is the new start; each accepting state carries the token
/// type and priority of the automaton it came from.
pub struct JoinedNFA {
    pub states: Vec<State>,
    pub start: StateId,
    pub accepts: Vec<(StateId, AcceptInfo)>,
}

/// The accept information recorded for a state: that of its first entry, if any.
pub open spec fn accept_of(accepts: Seq<(StateId, AcceptInfo)>, s: StateId) -> Option<AcceptInfo>
    decreases accepts.len(),
{
    if accepts.len() == 0 {
        None
    } else if accepts[0].0 == s {
        Some(accepts[0].1)
    } else {
        accept_of(accepts.subrange(1, accepts.len() as int), s)
    }
}

/// The number of states of the first `k` automata.
pub open spec fn states_before(nfas: Seq<(NFA, String, usize)>, k: int) -> nat
    decreases k,
{
    if k <= 0 {
        0
    } else {
        states_before(nfas, k - 1) + nfas[k - 1].0.states@.len()
    }
}

/// The number the first state of automaton `k` gets in the joined automaton.
pub open spec fn offset_of(nfas: Seq<(NFA, String, usize)>, k: int) -> nat {
    1 + states_before(nfas, k)
}

/// Transitions with every target moved up by `off`.
pub open spec fn shift_edges(es: Seq<Edge>, off: nat) -> Seq<Edge> {
    es.map_values(|e: Edge| (e.0, StateId((e.1.0 + off) as usize)))
}

/// The empty transitions from the new start state to the start of each automaton.
pub open spec fn start_edges(nfas: Seq<(NFA, String, usize)>) -> Seq<Edge> {
    Seq::new(nfas.len(), |k: int| (None, StateId((offset_of(nfas, k) + nfas[k].0.start.0) as usize)))
}

/// The labelled accepting states of automaton `k`, among its first `i` states, in order.
pub open spec fn accepts_upto(nfas: Seq<(NFA, String, usize)>, k: int, i: int) -> Seq<(StateId, AcceptInfo)>
    decreases i,
{
    if i <= 0 {
        seq![]
    } else {
        let r = accepts_upto(nfas, k, i - 1);
        if nfas[k].0.accepts@.contains(StateId((i - 1) as usize)) {
            r.push((StateId((offset_of(nfas, k) + i - 1) as usize),
                AcceptInfo { token_type: nfas[k].1, priority: nfas[k].2 }))
        } else {
            r
        }
    }
}

/// The labelled accepting states of the first `k` automata, in order.
pub open spec fn accepts_before(nfas: Seq<(NFA, String, usize)>, k: int) -> Seq<(StateId, AcceptInfo)>
    decreases k,
{
    if k <= 0 {
        seq![]
    } else {
        accepts_before(nfas, k - 1) + accepts_upto(nfas, k - 1, nfas[k - 1].0.states@.len() as int)
    }
}

/// What joining the automata `nfas` gives: state 0, the start, has an empty transition to
/// the start of each automaton, and the states of automaton `k` follow from
/// `offset_of(nfas, k)` on, with their transitions moved accordingly.
pub open spec fn joined_from(j: Seq<State>, start: StateId, nfas: Seq<(NFA, String, usize)>) -> bool {
    &&& start == StateId(0)
    &&& 1 + states_before(nfas, nfas.len() as int) <= usize::MAX
    &&& j.len() == 1 + states_before(nfas, nfas.len() as int)
    &&& j[0].transitions@ == start_edges(nfas)
    &&& forall|k: int, i: int| 0 <= k < nfas.len() && 0 <= i < nfas[k].0.states@.len() ==>
        (#[trigger] j[offset_of(nfas, k) + i]).transitions@ == shift_edges(nfas[k].0.states@[i].transitions@, offset_of(nfas, k))
    &&& forall|k: int| 0 <= k < nfas.len() ==> (#[trigger] nfas[k]).0.wf()
}

/// The states of the first automata are at most those of more of them.
pub proof fn lemma_states_before_mono(nfas: Seq<(NFA, String, usize)>, a: int, b: int)
    requires
        a <= b,
    ensures
        states_before(nfas, a) <= states_before(nfas, b),
    decreases b - a,
{
    if a < b {
        lemma_states_before_mono(nfas, a, b - 1);
    }
}

impl JoinedNFA {
    /// States are numbered by position, transitions lead to states of the automaton, and the
    /// start state exists.
    pub open spec fn wf(&self) -> bool {
        &&& states_wf(self.states@)
        &&& self.start.0 < self.states@.len()
    }

    /// Joins automata, each given with its token type and priority. The states of automaton
    /// `k` keep their order and are numbered from `offset_of(nfas, k)` on, with every
    /// transition moved accordingly; a new state 0 gets an empty transition to the start of
    /// each automaton, in order; each state that was accepting in its automaton is recorded
    /// with that automaton's token type and priority.
    pub fn join(nfas: Vec<(NFA, String, usize)>) -> (j: Self)
        requires
            forall|k: int| 0 <= k < nfas@.len() ==> (#[trigger] nfas@[k]).0.wf(),
            1 + states_before(nfas@, nfas@.len() as int) <= usize::MAX,
        ensures
            j.wf(),
            j.start == StateId(0),
            j.states@.len() == 1 + states_before(nfas@, nfas@.len() as int),
            states_wf(j.states@),
            j.states@[0].transitions@ == start_edges(nfas@),
            !j.states@[0].is_final,
            forall|k: int, i: int| 0 <= k < nfas@.len() && 0 <= i < nfas@[k].0.states@.len() ==> {
                &&& (#[trigger] j.states@[offset_of(nfas@, k) + i]).transitions@
                    == shift_edges(nfas@[k].0.states@[i].transitions@, offset_of(nfas@, k))
                &&& j.states@[offset_of(nfas@, k) + i].is_final == nfas@[k].0.states@[i].is_final
            },
            j.accepts@ == accepts_before(nfas@, nfas@.len() as int),
            joined_from(j.states@, j.start, nfas@),
    {
        let ghost all = nfas@;
        let total_n = nfas.len();
        let mut states: Vec<State> = Vec::new();
        states.push(State::new(0));
        let mut accepts: Vec<(StateId, AcceptInfo)> = Vec::new();
        let mut start_targets: Vec<Edge> = Vec::new();
        let mut k: usize = 0;
        while k < total_n
            invariant
                all == nfas@,
                total_n == all.len(),
                k <= total_n,
                forall|k2: int| 0 <= k2 < all.len() ==> (#[trigger] all[k2]).0.wf(),
                1 + states_before(all, all.len() as int) <= usize::MAX,
                states@.len() == offset_of(all, k as int),
                states@[0].id == StateId(0),
                states@[0].transitions@ == Seq::<Edge>::empty(),
                !states@[0].is_final,
                forall|i: int| 0 <= i < states@.len() ==> #[trigger] states@[i].id == StateId(i as usize),
                forall|i: int, e: int| 0 <= i < states@.len() && 0 <= e < states@[i].transitions@.len()
                    ==> (#[trigger] states@[i].transitions@[e]).1.0 < offset_of(all, all.len() as int),
                forall|k2: int, i: int| 0 <= k2 < k && 0 <= i < all[k2].0.states@.len() ==> {
                    &&& (#[trigger] states@[offset_of(all, k2) + i]).transitions@
                        == shift_edges(all[k2].0.states@[i].transitions@, offset_of(all, k2))
                    &&& states@[offset_of(all, k2) + i].is_final == all[k2].0.states@[i].is_final
                },
                start_targets@ == start_edges(all).take(k as int),
                accepts@ == accepts_before(all, k as int),
            decreases total_n - k,
        {
            proof {
                lemma_states_before_mono(all, k + 1, all.len() as int);
            }
            let nfa = &nfas[k].0;
            let token_type = &nfas[k].1;
            let priority = nfas[k].2;
            let off = states.len();
            let m = nfa.states.len();
            let mut i: usize = 0;
            assert(start_targets@ =~= start_edges(all).take(k as int) + Seq::<Edge>::empty());
            while i < m
                invariant
                    all == nfas@,
                    total_n == all.len(),
                    k < total_n,
                    *nfa == all[k as int].0,
                    *token_type == all[k as int].1,
                    priority == all[k as int].2,
                    nfa.wf(),
                    m == nfa.states@.len(),
                    off == offset_of(all, k as int),
                    off + m <= offset_of(all, all.len() as int),
                    1 + states_before(all, all.len() as int) <= usize::MAX,
                    i <= m,
                    states@.len() == off + i,
                    states@[0].id == StateId(0),
                    states@[0].transitions@ == Seq::<Edge>::empty(),
                    !states@[0].is_final,
                    forall|i2: int| 0 <= i2 < states@.len() ==> #[trigger] states@[i2].id == StateId(i2 as usize),
                    forall|i2: int, e: int| 0 <= i2 < states@.len() && 0 <= e < states@[i2].transitions@.len()
                        ==> (#[trigger] states@[i2].transitions@[e]).1.0 < offset_of(all, all.len() as int),
                    forall|k2: int, i2: int| 0 <= k2 < k && 0 <= i2 < all[k2].0.states@.len() ==> {
                        &&& (#[trigger] states@[offset_of(all, k2) + i2]).transitions@
                            == shift_edges(all[k2].0.states@[i2].transitions@, offset_of(all, k2))
                        &&& states@[offset_of(all, k2) + i2].is_final == all[k2].0.states@[i2].is_final
                    },
                    forall|i2: int| 0 <= i2 < i ==> {
                        &&& (#[trigger] states@[off + i2]).transitions@
                            == shift_edges(nfa.states@[i2].transitions@, off as nat)
                        &&& states@[off + i2].is_final == nfa.states@[i2].is_final
                    },
                    start_targets@ == start_edges(all).take(k as int) + (if nfa.start.0 < i {
                        seq![(None::<crate::regex::node::RegexChar>, StateId((off + nfa.start.0) as usize))]
                    } else {
                        Seq::<Edge>::empty()
                    }),
                    accepts@ == accepts_before(all, k as int) + accepts_upto(all, k as int, i as int),
                decreases m - i,
            {
                let old_state = &nfa.states[i];
                let mut new_trans: Vec<Edge> = Vec::new();
                let mut e: usize = 0;
                while e < old_state.transitions.len()
                    invariant
                        *old_state == nfa.states@[i as int],
                        nfa.wf(),
                        i < m,
                        m == nfa.states@.len(),
                        off + m <= usize::MAX,
                        e <= old_state.transitions@.len(),
                        new_trans@ == shift_edges(old_state.transitions@.take(e as int), off as nat),
                    decreases old_state.transitions@.len() - e,
                {
                    let (label, t) = old_state.transitions[e];
                    assert(t.0 < m);
                    new_trans.push((label, StateId(t.0 + off)));
                    proof {
                        assert(old_state.transitions@.take(e + 1) =~= old_state.transitions@.take(e as int).push((label, t)));
                        assert(new_trans@ =~= shift_edges(old_state.transitions@.take(e + 1), off as nat));
                    }
                    e += 1;
                }
                proof {
                    assert(old_state.transitions@.take(old_state.transitions@.len() as int) =~= old_state.transitions@);
                }
                let new_id = StateId(off + i);
                if nfa.start.0 == i {
                    start_targets.push((None, new_id));
                }
                if contains_state(&nfa.accepts, StateId(i)) {
                    accepts.push((new_id, AcceptInfo { token_type: token_type.clone(), priority }));
                }
                let ghost before = states@;
                let ghost tb = start_targets@;
                states.push(State { id: new_id, transitions: new_trans, is_final: old_state.is_final });
                proof {
                    assert forall|k2: int, i2: int| 0 <= k2 < k && 0 <= i2 < all[k2].0.states@.len() implies
                        #[trigger] states@[offset_of(all, k2) + i2] == before[offset_of(all, k2) + i2] by {
                        lemma_states_before_mono(all, k2 + 1, k as int);
                    }
                    if nfa.start.0 == i {
                        assert(start_targets@ =~= start_edges(all).take(k as int) + seq![(None::<crate::regex::node::RegexChar>, StateId((off + nfa.start.0) as usize))]);
                    } else {
                        assert(start_targets@ == tb);
                    }
                    assert(accepts_upto(all, k as int, i + 1) == if all[k as int].0.accepts@.contains(StateId(i as usize)) {
                        accepts_upto(all, k as int, i as int).push((StateId((offset_of(all, k as int) + i) as usize),
                            AcceptInfo { token_type: all[k as int].1, priority: all[k as int].2 }))
                    } else {
                        accepts_upto(all, k as int, i as int)
                    });
                    assert forall|i2: int, e2: int| 0 <= i2 < states@.len() && 0 <= e2 < states@[i2].transitions@.len()
                        implies (#[trigger] states@[i2].transitions@[e2]).1.0 < offset_of(all, all.len() as int) by {
                        if i2 == states@.len() - 1 {
                            assert(states@[i2].transitions@[e2] == (old_state.transitions@[e2].0, StateId((old_state.transitions@[e2].1.0 + off) as usize)));
                            assert(old_state.transitions@[e2].1.0 < m);
                        } else {
                            assert(states@[i2] == before[i2]);
                        }
                    }
                }
                i += 1;
            }
            assert(nfa.start.0 < m);
            proof {
                assert(states_before(all, k + 1) == states_before(all, k as int) + m);
                let first = start_edges(all).take(k + 1);
                assert(start_targets@ =~= first);
                assert(first =~= start_edges(all).take(k as int).push((None, StateId((offset_of(all, k as int) + all[k as int].0.start.0) as usize))));
                assert(accepts_before(all, k + 1) == accepts_before(all, k as int) + accepts_upto(all, k as int, m as int));
                assert forall|k2: int, i2: int| 0 <= k2 < k + 1 && 0 <= i2 < all[k2].0.states@.len() implies {
                    &&& (#[trigger] states@[offset_of(all, k2) + i2]).transitions@
                        == shift_edges(all[k2].0.states@[i2].transitions@, offset_of(all, k2))
                    &&& states@[offset_of(all, k2) + i2].is_final == all[k2].0.states@[i2].is_final
                } by {
                    if k2 < k {
                    } else {
                        assert(k2 == k);
                    }
                }
            }
            assert(nfa.start.0 < m);
            k += 1;
        }
        proof {
            assert(start_edges(all).take(total_n as int) =~= start_edges(all));
        }
        let ghost before = states@;
        let mut start_state = State::new(0);
        let mut t: usize = 0;
        while t < start_targets.len()
            invariant
                t <= start_targets@.len(),
                start_state.id == StateId(0),
                !start_state.is_final,
                start_state.transitions@ == start_targets@.take(t as int),
            decreases start_targets@.len() - t,
        {
            let (label, target) = start_targets[t];
            start_state.add_transition(label, target);
            proof {
                assert(start_targets@.take(t + 1) =~= start_targets@.take(t as int).push((label, target)));
            }
            t += 1;
        }
        proof {
            assert(start_targets@.take(start_targets@.len() as int) =~= start_targets@);
        }
        states.set(0, start_state);
        proof {
            assert forall|i: int, e: int| 0 <= i < states@.len() && 0 <= e < states@[i].transitions@.len()
                implies (#[trigger] states@[i].transitions@[e]).1.0 < states@.len() by {
                if i == 0 {
                    let kk = e;
                    assert(states@[0].transitions@[e] == start_edges(all)[kk]);
                    lemma_states_before_mono(all, kk + 1, all.len() as int);
                    assert(all[kk].0.start.0 < all[kk].0.states@.len());
                } else {
                    assert(states@[i] == before[i]);
                }
            }
            assert forall|k2: int, i2: int| 0 <= k2 < all.len() && 0 <= i2 < all[k2].0.states@.len() implies {
                &&& (#[trigger] states@[offset_of(all, k2) + i2]).transitions@
                    == shift_edges(all[k2].0.states@[i2].transitions@, offset_of(all, k2))
                &&& states@[offset_of(all, k2) + i2].is_final == all[k2].0.states@[i2].is_final
            } by {
                lemma_states_before_mono(all, k2 + 1, all.len() as int);
                assert(states@[offset_of(all, k2) + i2] == before[offset_of(all, k2) + i2]);
            }
        }
        JoinedNFA { states, start: StateId(0), accepts }
    }
}

} // verus!
