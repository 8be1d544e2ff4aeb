//! Running a nondeterministic automaton on a text.

use vstd::prelude::*;
use crate::regex::node::{RegexChar, escape_char};
use crate::nfa::state::{StateId, State, states_wf};
use crate::nfa::nfa::{NFA, contains_state};
use crate::nfa::closure::{
    sorted_ids, eps_closure, eps_reach, eps_path, move_set, insert_sorted, closure_of, move_of,
};
use crate::text::chars_of;

verus! {

/// Whether a transition label lets the character `c` through: the literal `c`, the dot (any
/// character but a line feed), or an escape standing for `c`.
pub open spec fn label_matches(label: Option<RegexChar>, c: char) -> bool {
    match label {
        Some(RegexChar::Literal(x)) => x == c,
        Some(RegexChar::Any) => c != '\n',
        Some(RegexChar::Escape(e)) => escape_char(e) == Some(c),
        _ => false,
    }
}

/// Some transition of `st` lets `c` through to `t`.
pub open spec fn lets_through(st: State, c: char, t: StateId) -> bool {
    exists|k: int| 0 <= k < st.transitions@.len() && (#[trigger] st.transitions@[k]).1 == t
        && label_matches(st.transitions@[k].0, c)
}

/// The states one transition letting `c` through away from `from`.
pub open spec fn char_move(g: Seq<State>, from: Set<StateId>, c: char) -> Set<StateId> {
    Set::new(|t: StateId| exists|s: StateId| from.contains(s) && 0 <= s.0 < g.len()
        && #[trigger] lets_through(g[s.0 as int], c, t))
}

/// The states the automaton is in before reading: the closure of the start state, together
/// with the closure of what a start-of-line transition reaches from there.
pub open spec fn start_states(g: Seq<State>, start: StateId) -> Set<StateId> {
    let c0 = eps_closure(g, set![start]);
    c0 + eps_closure(g, move_set(g, c0, RegexChar::Start))
}

/// The states the automaton is in after reading `cs`.
pub open spec fn run(g: Seq<State>, start: StateId, cs: Seq<char>) -> Set<StateId>
    decreases cs.len(),
{
    if cs.len() == 0 {
        start_states(g, start)
    } else {
        eps_closure(g, char_move(g, run(g, start, cs.drop_last()), cs.last()))
    }
}

/// The states after the end of the text: the closure of the states reached, together with
/// what an end-of-line transition reaches from them.
pub open spec fn final_states(g: Seq<State>, s: Set<StateId>) -> Set<StateId> {
    let c4 = eps_closure(g, s);
    eps_closure(g, c4 + move_set(g, c4, RegexChar::End))
}

/// Whether the automaton accepts the text: some state after its end is accepting.
pub open spec fn accepts_text(g: Seq<State>, start: StateId, accepts: Seq<StateId>, cs: Seq<char>) -> bool {
    exists|s: StateId| #[trigger] final_states(g, run(g, start, cs)).contains(s) && accepts.contains(s)
}

/// Nothing is reached from no states.
pub proof fn lemma_empty_stays_empty(g: Seq<State>, c: char)
    ensures
        eps_closure(g, Set::<StateId>::empty()) == Set::<StateId>::empty(),
        char_move(g, Set::<StateId>::empty(), c) == Set::<StateId>::empty(),
        move_set(g, Set::<StateId>::empty(), RegexChar::End) == Set::<StateId>::empty(),
        final_states(g, Set::<StateId>::empty()) == Set::<StateId>::empty(),
{
    assert(eps_closure(g, Set::<StateId>::empty()) =~= Set::<StateId>::empty());
    assert(char_move(g, Set::<StateId>::empty(), c) =~= Set::<StateId>::empty());
    assert(move_set(g, Set::<StateId>::empty(), RegexChar::End) =~= Set::<StateId>::empty());
    assert(Set::<StateId>::empty() + Set::<StateId>::empty() =~= Set::<StateId>::empty());
}

/// Once no state is left, none comes back.
pub proof fn lemma_run_empty(g: Seq<State>, start: StateId, cs: Seq<char>, i: int)
    requires
        0 <= i <= cs.len(),
        run(g, start, cs.take(i)) == Set::<StateId>::empty(),
    ensures
        run(g, start, cs) == Set::<StateId>::empty(),
    decreases cs.len() - i,
{
    if i == cs.len() {
        assert(cs.take(i) =~= cs);
    } else {
        let p = cs.take(i + 1);
        assert(p.drop_last() =~= cs.take(i));
        lemma_empty_stays_empty(g, p.last());
        lemma_run_empty(g, start, cs, i + 1);
    }
}

/// Whether a label lets `c` through.
fn label_lets(label: Option<RegexChar>, c: char) -> (b: bool)
    ensures
        b == label_matches(label, c),
{
    match label {
        Some(RegexChar::Literal(x)) => x == c,
        Some(RegexChar::Any) => c != '\n',
        Some(RegexChar::Escape(e)) => match e.as_char() {
            Some(x) => x == c,
            None => false,
        },
        _ => false,
    }
}

/// The states one transition letting `c` through away from a list of states, as an
/// increasing list.
fn char_move_of(nfa_states: &Vec<State>, from: &Vec<StateId>, c: char) -> (m: Vec<StateId>)
    requires
        states_wf(nfa_states@),
        forall|i: int| 0 <= i < from@.len() ==> (#[trigger] from@[i]).0 < nfa_states@.len(),
    ensures
        sorted_ids(m@),
        m@.to_set() == char_move(nfa_states@, from@.to_set(), c),
        forall|i: int| 0 <= i < m@.len() ==> (#[trigger] m@[i]).0 < nfa_states@.len(),
{
    let ghost g = nfa_states@;
    let mut result: Vec<StateId> = Vec::new();
    let mut k: usize = 0;
    while k < from.len()
        invariant
            g == nfa_states@,
            states_wf(g),
            forall|i: int| 0 <= i < from@.len() ==> (#[trigger] from@[i]).0 < g.len(),
            k <= from@.len(),
            sorted_ids(result@),
            result@.to_set() == char_move(g, from@.take(k as int).to_set(), c),
            forall|i: int| 0 <= i < result@.len() ==> (#[trigger] result@[i]).0 < g.len(),
        decreases from@.len() - k,
    {
        let s = from[k];
        let state = &nfa_states[s.0];
        let ghost before = result@;
        let mut e: usize = 0;
        while e < state.transitions.len()
            invariant
                g == nfa_states@,
                states_wf(g),
                s.0 < g.len(),
                *state == g[s.0 as int],
                e <= state.transitions@.len(),
                sorted_ids(result@),
                result@.to_set() == before.to_set().union(Set::new(|t: StateId| exists|k2: int| 0 <= k2 < e
                    && (#[trigger] state.transitions@[k2]).1 == t && label_matches(state.transitions@[k2].0, c))),
                forall|i: int| 0 <= i < result@.len() ==> (#[trigger] result@[i]).0 < g.len(),
            decreases state.transitions@.len() - e,
        {
            let (label, t) = state.transitions[e];
            let hit = label_lets(label, c);
            let ghost rb = result@;
            if hit && !contains_state(&result, t) {
                insert_sorted(&mut result, t);
            }
            proof {
                assert(state.transitions@[e as int] == (label, t));
                assert forall|i: int| 0 <= i < result@.len() implies (#[trigger] result@[i]).0 < g.len() by {
                    if !rb.to_set().contains(result@[i]) {
                        assert(result@.to_set().contains(result@[i]));
                        assert(result@[i] == t);
                        assert(g[s.0 as int].transitions@[e as int].1.0 < g.len());
                    } else {
                        let j = choose|j: int| 0 <= j < rb.len() && rb[j] == result@[i];
                    }
                }
                if hit {
                    if rb.contains(t) { assert(rb.to_set().contains(t)); }
                }
                assert(result@.to_set() =~= before.to_set().union(Set::new(|t2: StateId| exists|k2: int| 0 <= k2 < e + 1
                    && (#[trigger] state.transitions@[k2]).1 == t2 && label_matches(state.transitions@[k2].0, c))));
            }
            e += 1;
        }
        proof {
            assert(from@.take(k + 1) =~= from@.take(k as int).push(s));
            from@.take(k as int).lemma_push_to_set_commute(s);
            assert(result@.to_set() =~= char_move(g, from@.take(k + 1).to_set(), c)) by {
                assert forall|t: StateId| char_move(g, from@.take(k + 1).to_set(), c).contains(t)
                    implies result@.to_set().contains(t) by {
                    let s2 = choose|s2: StateId| from@.take(k + 1).to_set().contains(s2) && 0 <= s2.0 < g.len()
                        && #[trigger] lets_through(g[s2.0 as int], c, t);
                    if s2 != s {
                        assert(char_move(g, from@.take(k as int).to_set(), c).contains(t));
                    } else {
                        let k2 = choose|k2: int| 0 <= k2 < state.transitions@.len()
                            && (#[trigger] state.transitions@[k2]).1 == t && label_matches(state.transitions@[k2].0, c);
                    }
                }
                assert forall|t: StateId| result@.to_set().contains(t)
                    implies char_move(g, from@.take(k + 1).to_set(), c).contains(t) by {
                    if before.to_set().contains(t) {
                        let s2 = choose|s2: StateId| from@.take(k as int).to_set().contains(s2) && 0 <= s2.0 < g.len()
                            && #[trigger] lets_through(g[s2.0 as int], c, t);
                        assert(from@.take(k + 1).to_set().contains(s2));
                    } else {
                        let k2 = choose|k2: int| 0 <= k2 < state.transitions@.len()
                            && (#[trigger] state.transitions@[k2]).1 == t && label_matches(state.transitions@[k2].0, c);
                        assert(lets_through(g[s.0 as int], c, t));
                        assert(from@.take(k + 1).to_set().contains(s));
                    }
                }
            }
        }
        k += 1;
    }
    assert(from@.take(from@.len() as int) =~= from@);
    result
}

/// The union of two increasing lists of states, as an increasing list.
fn union_ids(a: &Vec<StateId>, b: &Vec<StateId>, n: usize) -> (r: Vec<StateId>)
    requires
        sorted_ids(a@),
        forall|i: int| 0 <= i < a@.len() ==> (#[trigger] a@[i]).0 < n,
        forall|i: int| 0 <= i < b@.len() ==> (#[trigger] b@[i]).0 < n,
    ensures
        sorted_ids(r@),
        r@.to_set() == a@.to_set() + b@.to_set(),
        forall|i: int| 0 <= i < r@.len() ==> (#[trigger] r@[i]).0 < n,
{
    let mut r: Vec<StateId> = Vec::new();
    let mut i: usize = 0;
    while i < a.len()
        invariant
            i <= a@.len(),
            r@ == a@.take(i as int),
        decreases a@.len() - i,
    {
        r.push(a[i]);
        assert(r@ =~= a@.take(i + 1));
        i += 1;
    }
    assert(a@.take(a@.len() as int) =~= a@);
    let mut j: usize = 0;
    while j < b.len()
        invariant
            j <= b@.len(),
            sorted_ids(r@),
            forall|i: int| 0 <= i < b@.len() ==> (#[trigger] b@[i]).0 < n,
            forall|i: int| 0 <= i < r@.len() ==> (#[trigger] r@[i]).0 < n,
            r@.to_set() == a@.to_set() + b@.take(j as int).to_set(),
        decreases b@.len() - j,
    {
        let y = b[j];
        assert(b@.take(j + 1) =~= b@.take(j as int).push(y));
        proof { b@.take(j as int).lemma_push_to_set_commute(y); }
        let ghost rb = r@;
        if !contains_state(&r, y) {
            insert_sorted(&mut r, y);
            assert forall|i: int| 0 <= i < r@.len() implies (#[trigger] r@[i]).0 < n by {
                if r@[i] != y {
                    let q = choose|q: int| 0 <= q < rb.len() && rb[q] == r@[i];
                }
            }
        } else {
            assert(r@.to_set().contains(y));
        }
        assert(r@.to_set() =~= a@.to_set() + b@.take(j + 1).to_set());
        j += 1;
    }
    assert(b@.take(b@.len() as int) =~= b@);
    r
}

impl NFA {
    /// Whether the automaton accepts the text (see `accepts_text`): from the closure of the
    /// start state and what a start-of-line transition reaches, each character moves along
    /// transitions letting it through, then along empty transitions; after the text, an
    /// end-of-line transition may be taken; the text is accepted if an accepting state is
    /// reached.
    pub fn accepts(&self, input: &str) -> (b: bool)
        requires
            self.wf(),
        ensures
            b == accepts_text(self.states@, self.start, self.accepts@, input@),
    {
        let ghost g = self.states@;
        let n = self.states.len();
        let chars = chars_of(input);
        let mut start_v: Vec<StateId> = Vec::new();
        start_v.push(self.start);
        proof {
            Seq::<StateId>::empty().lemma_push_to_set_commute(self.start);
            assert(start_v@ =~= Seq::<StateId>::empty().push(self.start));
            assert(Seq::<StateId>::empty().to_set() =~= Set::<StateId>::empty());
            assert(start_v@.to_set() =~= set![self.start]);
        }
        let mut current = closure_of(&self.states, &start_v);
        let after_start = move_of(&self.states, &current, RegexChar::Start);
        if after_start.len() > 0 {
            let closure = closure_of(&self.states, &after_start);
            current = union_ids(&current, &closure, n);
        } else {
            proof {
                assert(after_start@.to_set() =~= Set::<StateId>::empty());
                lemma_empty_stays_empty(g, ' ');
                assert(current@.to_set() + Set::<StateId>::empty() =~= current@.to_set());
            }
        }
        assert(chars@.take(0) =~= Seq::<char>::empty());
        let mut i: usize = 0;
        while i < chars.len()
            invariant
                g == self.states@,
                self.wf(),
                n == g.len(),
                i <= chars@.len(),
                chars@ == input@,
                sorted_ids(current@),
                forall|k: int| 0 <= k < current@.len() ==> (#[trigger] current@[k]).0 < n,
                current@.to_set() == run(g, self.start, chars@.take(i as int)),
            decreases chars@.len() - i,
        {
            let next = char_move_of(&self.states, &current, chars[i]);
            current = closure_of(&self.states, &next);
            proof {
                let p = chars@.take(i + 1);
                assert(p.drop_last() =~= chars@.take(i as int));
                assert(p.last() == chars@[i as int]);
            }
            if current.len() == 0 {
                proof {
                    assert(current@.to_set() =~= Set::<StateId>::empty());
                    lemma_run_empty(g, self.start, chars@, i + 1);
                    lemma_empty_stays_empty(g, ' ');
                    assert(chars@ == input@);
                }
                return false;
            }
            i += 1;
        }
        assert(chars@.take(chars@.len() as int) =~= chars@);
        let ghost reached = current@.to_set();
        current = closure_of(&self.states, &current);
        let end_targets = move_of(&self.states, &current, RegexChar::End);
        let end_states = union_ids(&current, &end_targets, n);
        let last = closure_of(&self.states, &end_states);
        assert(last@.to_set() == final_states(g, reached));
        let mut k: usize = 0;
        while k < last.len()
            invariant
                k <= last@.len(),
                forall|q: int| 0 <= q < k ==> !self.accepts@.contains(#[trigger] last@[q]),
                last@.to_set() == final_states(g, reached),
                reached == run(g, self.start, input@),
                g == self.states@,
            decreases last@.len() - k,
        {
            if contains_state(&self.accepts, last[k]) {
                assert(last@.to_set().contains(last@[k as int]));
                assert(final_states(g, run(g, self.start, input@)).contains(last@[k as int]));
                return true;
            }
            k += 1;
        }
        proof {
            assert forall|s: StateId| #[trigger] final_states(g, reached).contains(s) implies !self.accepts@.contains(s) by {
                assert(last@.to_set().contains(s));
                let q = choose|q: int| 0 <= q < last@.len() && last@[q] == s;
            }
        }
        false
    }
}

} // verus!
