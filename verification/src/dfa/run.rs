//! Running the deterministic automaton over a word of symbols follows, set by set, the
//! joined automaton it was built from.

use vstd::prelude::*;
use crate::regex::node::RegexChar;
use crate::nfa::state::{StateId, State};
use crate::nfa::join_nfa::AcceptInfo;
use crate::nfa::closure::{eps_closure, move_set};
use crate::dfa::dfa::{DFA, DFAState, dstate_ok, dedge_ok, subset_step, has_key, keys_unique, names_unique};
use crate::lexemes::extractor::first_target;

verus! {

/// The state name reached from `name` over the symbols `w`, each time by the first transition
/// on the symbol; nothing when a symbol has no transition.
pub open spec fn dfa_walk(trans: Seq<((String, RegexChar), String)>, name: Seq<char>, w: Seq<RegexChar>) -> Option<Seq<char>>
    decreases w.len(),
{
    if w.len() == 0 {
        Some(name)
    } else {
        match first_target(trans, name, w[0]) {
            Some(next) => dfa_walk(trans, next, w.subrange(1, w.len() as int)),
            None => None,
        }
    }
}

/// The states of the automaton `g` reached from the set `s` over the symbols `w`: after each
/// symbol, the empty-transition closure of the states one transition away.
pub open spec fn nfa_walk(g: Seq<State>, s: Set<StateId>, w: Seq<RegexChar>) -> Set<StateId>
    decreases w.len(),
{
    if w.len() == 0 {
        s
    } else {
        nfa_walk(g, eps_closure(g, move_set(g, s, w[0])), w.subrange(1, w.len() as int))
    }
}

/// What the subset construction guarantees of `dfa` built from the automaton `g` with
/// accepting states `accepts` and start `start` (see `DFA::from_joined_nfa`).
pub open spec fn subset_dfa(dfa: DFA, g: Seq<State>, accepts: Seq<(StateId, AcceptInfo)>, start: StateId) -> bool {
    &&& dfa.states@.len() >= 1
    &&& dfa.start@ == dfa.states@[0].0@
    &&& dfa.states@[0].1.nfa_subset@.to_set() == eps_closure(g, set![start])
    &&& forall|i: int| 0 <= i < dfa.states@.len() ==> dstate_ok(g, accepts, #[trigger] dfa.states@[i])
    &&& names_unique(dfa.states@)
    &&& forall|k: int| 0 <= k < dfa.transitions@.len() ==> dedge_ok(g, dfa.states@, #[trigger] dfa.transitions@[k])
    &&& keys_unique(dfa.transitions@)
    &&& forall|i: int, c: RegexChar| 0 <= i < dfa.states@.len()
        && !(#[trigger] move_set(g, dfa.states@[i].1.nfa_subset@.to_set(), c)).is_empty()
        ==> has_key(dfa.transitions@, dfa.states@[i].0@, c)
}

/// With one transition per key, the first transition on a key is that one.
proof fn lemma_first_target_at(trans: Seq<((String, RegexChar), String)>, k: int, name: Seq<char>, c: RegexChar)
    requires
        keys_unique(trans),
        0 <= k < trans.len(),
        trans[k].0.0@ == name,
        trans[k].0.1 == c,
    ensures
        first_target(trans, name, c) == Some(trans[k].1@),
    decreases k,
{
    if k > 0 {
        let rest = trans.subrange(1, trans.len() as int);
        assert(trans[0].0.0@ != name || trans[0].0.1 != c) by {
            assert(trans[0].0.0@ != trans[k].0.0@ || trans[0].0.1 != trans[k].0.1);
        }
        assert forall|k1: int, k2: int| 0 <= k1 < k2 < rest.len() implies
            (#[trigger] rest[k1]).0.0@ != (#[trigger] rest[k2]).0.0@ || rest[k1].0.1 != rest[k2].0.1 by {
            assert(rest[k1] == trans[k1 + 1] && rest[k2] == trans[k2 + 1]);
        }
        assert(rest[k - 1] == trans[k]);
        lemma_first_target_at(rest, k - 1, name, c);
    }
}

/// Without a transition on a key, there is no first one.
proof fn lemma_first_target_none(trans: Seq<((String, RegexChar), String)>, name: Seq<char>, c: RegexChar)
    requires
        !has_key(trans, name, c),
    ensures
        first_target(trans, name, c) is None,
    decreases trans.len(),
{
    if trans.len() > 0 {
        let rest = trans.subrange(1, trans.len() as int);
        assert(!has_key(rest, name, c)) by {
            if has_key(rest, name, c) {
                let k = choose|k: int| 0 <= k < rest.len() && (#[trigger] rest[k]).0.0@ == name && rest[k].0.1 == c;
                assert(trans[k + 1] == rest[k]);
            }
        }
        assert(!(trans[0].0.0@ == name && trans[0].0.1 == c)) by {
            if trans[0].0.0@ == name && trans[0].0.1 == c {
                assert(has_key(trans, name, c));
            }
        }
        lemma_first_target_none(rest, name, c);
    }
}

/// From the empty set nothing is reached.
proof fn lemma_nfa_walk_empty(g: Seq<State>, w: Seq<RegexChar>)
    ensures
        nfa_walk(g, Set::empty(), w) == Set::<StateId>::empty(),
    decreases w.len(),
{
    if w.len() > 0 {
        assert(move_set(g, Set::empty(), w[0]) =~= Set::<StateId>::empty());
        assert(eps_closure(g, Set::empty()) =~= Set::<StateId>::empty());
        lemma_nfa_walk_empty(g, w.subrange(1, w.len() as int));
    }
}

/// From the `i`-th state, the walk of the deterministic automaton over `w` ends at the state
/// whose set is where the joined automaton gets from that state's set, or fails exactly when
/// the joined automaton gets nowhere.
proof fn lemma_walk_from(dfa: DFA, g: Seq<State>, accepts: Seq<(StateId, AcceptInfo)>, start: StateId, i: int, w: Seq<RegexChar>)
    requires
        subset_dfa(dfa, g, accepts, start),
        0 <= i < dfa.states@.len(),
    ensures
        match dfa_walk(dfa.transitions@, dfa.states@[i].0@, w) {
            Some(name) => exists|j: int| 0 <= j < dfa.states@.len() && (#[trigger] dfa.states@[j]).0@ == name
                && dfa.states@[j].1.nfa_subset@.to_set() == nfa_walk(g, dfa.states@[i].1.nfa_subset@.to_set(), w),
            None => nfa_walk(g, dfa.states@[i].1.nfa_subset@.to_set(), w).is_empty(),
        },
    decreases w.len(),
{
    let states = dfa.states@;
    let trans = dfa.transitions@;
    if w.len() > 0 {
        let c = w[0];
        let rest = w.subrange(1, w.len() as int);
        let s = states[i].1.nfa_subset@.to_set();
        let m = move_set(g, s, c);
        if m.is_empty() {
            assert(!has_key(trans, states[i].0@, c)) by {
                if has_key(trans, states[i].0@, c) {
                    let k = choose|k: int| 0 <= k < trans.len() && (#[trigger] trans[k]).0.0@ == states[i].0@ && trans[k].0.1 == c;
                    assert(dedge_ok(g, states, trans[k]));
                    reveal(dedge_ok);
                    let (i2, j2) = choose|i2: int, j2: int| #![trigger states[i2], states[j2]]
                        0 <= i2 < states.len() && 0 <= j2 < states.len()
                        && trans[k].0.0@ == states[i2].0@ && trans[k].1@ == states[j2].0@
                        && !move_set(g, states[i2].1.nfa_subset@.to_set(), trans[k].0.1).is_empty()
                        && states[j2].1.nfa_subset@.to_set() == subset_step(g, states[i2].1.nfa_subset@, trans[k].0.1);
                    if i2 != i {
                        if i2 < i {
                            assert(states[i2].0@ != states[i].0@);
                        } else {
                            assert(states[i].0@ != states[i2].0@);
                        }
                    }
                }
            }
            lemma_first_target_none(trans, states[i].0@, c);
            assert(m =~= Set::<StateId>::empty());
            assert(eps_closure(g, m) =~= Set::<StateId>::empty());
            lemma_nfa_walk_empty(g, rest);
        } else {
            assert(has_key(trans, states[i].0@, c));
            let k = choose|k: int| 0 <= k < trans.len() && (#[trigger] trans[k]).0.0@ == states[i].0@ && trans[k].0.1 == c;
            lemma_first_target_at(trans, k, states[i].0@, c);
            assert(dedge_ok(g, states, trans[k]));
            reveal(dedge_ok);
            let (i2, j2) = choose|i2: int, j2: int| #![trigger states[i2], states[j2]]
                0 <= i2 < states.len() && 0 <= j2 < states.len()
                && trans[k].0.0@ == states[i2].0@ && trans[k].1@ == states[j2].0@
                && !move_set(g, states[i2].1.nfa_subset@.to_set(), trans[k].0.1).is_empty()
                && states[j2].1.nfa_subset@.to_set() == subset_step(g, states[i2].1.nfa_subset@, trans[k].0.1);
            if i2 != i {
                if i2 < i {
                    assert(states[i2].0@ != states[i].0@);
                } else {
                    assert(states[i].0@ != states[i2].0@);
                }
            }
            assert(states[j2].1.nfa_subset@.to_set() == eps_closure(g, m));
            lemma_walk_from(dfa, g, accepts, start, j2, rest);
        }
    }
}

/// Running the deterministic automaton over a word `w` of symbols either ends at the state
/// whose set of states of the joined automaton is exactly the set the joined automaton reaches
/// over `w` from the closure of its start, or fails exactly when that set is empty.
pub proof fn lemma_dfa_follows_nfa(dfa: DFA, g: Seq<State>, accepts: Seq<(StateId, AcceptInfo)>, start: StateId, w: Seq<RegexChar>)
    requires
        subset_dfa(dfa, g, accepts, start),
    ensures
        match dfa_walk(dfa.transitions@, dfa.start@, w) {
            Some(name) => exists|j: int| 0 <= j < dfa.states@.len() && (#[trigger] dfa.states@[j]).0@ == name
                && dfa.states@[j].1.nfa_subset@.to_set() == nfa_walk(g, eps_closure(g, set![start]), w),
            None => nfa_walk(g, eps_closure(g, set![start]), w).is_empty(),
        },
{
    lemma_walk_from(dfa, g, accepts, start, 0, w);
}

} // verus!
