//! Text descriptions of automata: start, accepting states and transitions.

use vstd::prelude::*;
use crate::text::{decimal, push_char, append_str, append_usize};
use crate::regex::node::RegexChar;
use crate::regex::repr::{char_repr, append_char_repr};
use crate::nfa::state::{StateId, State, Edge};
use crate::nfa::nfa::NFA;
use crate::nfa::join_nfa::{JoinedNFA, AcceptInfo};
use crate::nfa::visual::{labels_of, targets_of, labels_in, targets_in};

verus! {

/// A state identifier as `{:?}` writes it, such as `StateId(3)`.
pub open spec fn state_id_repr(s: StateId) -> Seq<char> {
    "StateId("@ + decimal(s.0 as nat) + ")"@
}

/// State identifiers separated by `, `.
pub open spec fn ids_joined(v: Seq<StateId>) -> Seq<char>
    decreases v.len(),
{
    if v.len() == 0 {
        seq![]
    } else if v.len() == 1 {
        state_id_repr(v[0])
    } else {
        ids_joined(v.drop_last()) + ", "@ + state_id_repr(v.last())
    }
}

/// A list of state identifiers as `{:?}` writes it, such as `[StateId(1), StateId(4)]`.
pub open spec fn ids_repr(v: Seq<StateId>) -> Seq<char> {
    "["@ + ids_joined(v) + "]"@
}

/// A transition label: the `{:?}` form of its character, or `ε` for the empty transition.
pub open spec fn label_repr(l: Option<RegexChar>) -> Seq<char> {
    match l {
        Some(c) => char_repr(c),
        None => "ε"@,
    }
}

/// The line describing one transition.
pub open spec fn edge_line(from: StateId, l: Option<RegexChar>, to: StateId) -> Seq<char> {
    "  "@ + state_id_repr(from) + " --"@ + label_repr(l) + "--> "@ + state_id_repr(to) + "\n"@
}

/// The lines of the transitions of state `id` labelled `l` to the targets `ts`.
pub open spec fn target_lines(id: StateId, l: Option<RegexChar>, ts: Seq<StateId>) -> Seq<char>
    decreases ts.len(),
{
    if ts.len() == 0 {
        seq![]
    } else {
        target_lines(id, l, ts.drop_last()) + edge_line(id, l, ts.last())
    }
}

/// The lines of the transitions of state `id` for the labels `ls`, label after label.
pub open spec fn label_group_lines(id: StateId, es: Seq<Edge>, ls: Seq<Option<RegexChar>>) -> Seq<char>
    decreases ls.len(),
{
    if ls.len() == 0 {
        seq![]
    } else {
        label_group_lines(id, es, ls.drop_last()) + target_lines(id, ls.last(), targets_of(es, ls.last()))
    }
}

/// The lines describing every transition of the states, state by state; within a state, the
/// transitions of one label together, labels in order of first appearance.
pub open spec fn states_lines(sts: Seq<State>) -> Seq<char>
    decreases sts.len(),
{
    if sts.len() == 0 {
        seq![]
    } else {
        states_lines(sts.drop_last()) + label_group_lines(sts.last().id, sts.last().transitions@,
            labels_of(sts.last().transitions@))
    }
}

/// The description of an automaton: its start, its accepting states, then one line per
/// transition.
pub open spec fn nfa_text(start: StateId, accepts: Seq<StateId>, states: Seq<State>) -> Seq<char> {
    "Inicio: "@ + state_id_repr(start) + "\n"@ + "Finales: "@ + ids_repr(accepts) + "\n"@ + states_lines(states)
}

/// The line describing an accepting state of a joined automaton.
pub open spec fn accept_line(a: (StateId, AcceptInfo)) -> Seq<char> {
    "  Estado "@ + state_id_repr(a.0) + ": token='"@ + a.1.token_type@ + "', prioridad="@
        + decimal(a.1.priority as nat) + "\n"@
}

/// The lines describing the accepting states of a joined automaton.
pub open spec fn accept_lines(accepts: Seq<(StateId, AcceptInfo)>) -> Seq<char>
    decreases accepts.len(),
{
    if accepts.len() == 0 {
        seq![]
    } else {
        accept_lines(accepts.drop_last()) + accept_line(accepts.last())
    }
}

/// The description of a joined automaton: its start, its accepting states with their token
/// types and priorities, then one line per transition.
pub open spec fn joined_text(start: StateId, accepts: Seq<(StateId, AcceptInfo)>, states: Seq<State>) -> Seq<char> {
    "Inicio: "@ + state_id_repr(start) + "\n"@ + "Estados de aceptación y etiquetas:\n"@ + accept_lines(accepts)
        + states_lines(states)
}

/// Appends `StateId(n)`.
pub(crate) fn append_state_id(s: &mut String, id: StateId)
    ensures
        final(s)@ == old(s)@ + state_id_repr(id),
{
    let ghost s0 = s@;
    append_str(s, "StateId(");
    append_usize(s, id.0);
    append_str(s, ")");
    assert(s@ =~= s0 + state_id_repr(id));
}

/// Appends a list of state identifiers as `{:?}` writes it.
pub(crate) fn append_ids_repr(s: &mut String, v: &Vec<StateId>)
    ensures
        final(s)@ == old(s)@ + ids_repr(v@),
{
    let ghost s0 = s@;
    append_str(s, "[");
    let ghost s1 = s@;
    let mut i: usize = 0;
    while i < v.len()
        invariant
            i <= v@.len(),
            s@ == s1 + ids_joined(v@.take(i as int)),
        decreases v@.len() - i,
    {
        if i > 0 {
            append_str(s, ", ");
        }
        append_state_id(s, v[i]);
        proof {
            let t = v@.take(i + 1);
            assert(t.drop_last() =~= v@.take(i as int));
            if i == 0 {
                assert(v@.take(0) =~= Seq::<StateId>::empty());
            }
        }
        assert(s@ =~= s1 + ids_joined(v@.take(i + 1)));
        i += 1;
    }
    assert(v@.take(v@.len() as int) =~= v@);
    append_str(s, "]");
    assert(s@ =~= s0 + ids_repr(v@));
}

/// Appends the lines of every transition of the states.
fn append_states_lines(s: &mut String, states: &Vec<State>)
    ensures
        final(s)@ == old(s)@ + states_lines(states@),
{
    let ghost s0 = s@;
    let mut i: usize = 0;
    assert(states@.take(0) =~= Seq::<State>::empty());
    while i < states.len()
        invariant
            i <= states@.len(),
            s@ == s0 + states_lines(states@.take(i as int)),
        decreases states@.len() - i,
    {
        let st = &states[i];
        let ls = labels_in(&st.transitions);
        let ghost s1 = s@;
        let mut k: usize = 0;
        assert(ls@.take(0) =~= Seq::<Option<RegexChar>>::empty());
        while k < ls.len()
            invariant
                k <= ls@.len(),
                ls@ == labels_of(st.transitions@),
                s@ == s1 + label_group_lines(st.id, st.transitions@, ls@.take(k as int)),
            decreases ls@.len() - k,
        {
            let ts = targets_in(&st.transitions, ls[k]);
            let ghost s2 = s@;
            let mut j: usize = 0;
            assert(ts@.take(0) =~= Seq::<StateId>::empty());
            while j < ts.len()
                invariant
                    j <= ts@.len(),
                    k < ls@.len(),
                    s@ == s2 + target_lines(st.id, ls@[k as int], ts@.take(j as int)),
                decreases ts@.len() - j,
            {
                let ghost s3 = s@;
                append_str(s, "  ");
                append_state_id(s, st.id);
                append_str(s, " --");
                match ls[k] {
                    Some(c) => append_char_repr(s, c),
                    None => append_str(s, "ε"),
                }
                append_str(s, "--> ");
                append_state_id(s, ts[j]);
                append_str(s, "\n");
                proof {
                    let t = ts@.take(j + 1);
                    assert(t.drop_last() =~= ts@.take(j as int));
                    assert(t.last() == ts@[j as int]);
                }
                assert(s@ =~= s3 + edge_line(st.id, ls@[k as int], ts@[j as int]));
                assert(s@ =~= s2 + target_lines(st.id, ls@[k as int], ts@.take(j + 1)));
                j += 1;
            }
            assert(ts@.take(ts@.len() as int) =~= ts@);
            proof {
                let t = ls@.take(k + 1);
                assert(t.drop_last() =~= ls@.take(k as int));
                assert(t.last() == ls@[k as int]);
            }
            assert(s@ =~= s1 + label_group_lines(st.id, st.transitions@, ls@.take(k + 1)));
            k += 1;
        }
        assert(ls@.take(ls@.len() as int) =~= ls@);
        proof {
            let t = states@.take(i + 1);
            assert(t.drop_last() =~= states@.take(i as int));
            assert(t.last() == *st);
        }
        assert(s@ =~= s0 + states_lines(states@.take(i + 1)));
        i += 1;
    }
    assert(states@.take(states@.len() as int) =~= states@);
}

impl NFA {
    /// The description of the automaton (see `nfa_text`); transitions follow the order of
    /// the states and, within a state, the order in which they were added.
    pub fn to_string(&self) -> (s: String)
        ensures
            s@ == nfa_text(self.start, self.accepts@, self.states@),
    {
        let mut s = String::new();
        append_str(&mut s, "Inicio: ");
        append_state_id(&mut s, self.start);
        append_str(&mut s, "\n");
        append_str(&mut s, "Finales: ");
        append_ids_repr(&mut s, &self.accepts);
        append_str(&mut s, "\n");
        append_states_lines(&mut s, &self.states);
        assert(s@ =~= nfa_text(self.start, self.accepts@, self.states@));
        s
    }
}

impl JoinedNFA {
    /// The description of the joined automaton (see `joined_text`), accepting states in the
    /// order recorded and transitions in the order of the states.
    pub fn to_string(&self) -> (s: String)
        ensures
            s@ == joined_text(self.start, self.accepts@, self.states@),
    {
        let mut s = String::new();
        append_str(&mut s, "Inicio: ");
        append_state_id(&mut s, self.start);
        append_str(&mut s, "\n");
        append_str(&mut s, "Estados de aceptación y etiquetas:\n");
        let ghost s1 = s@;
        let mut i: usize = 0;
        while i < self.accepts.len()
            invariant
                i <= self.accepts@.len(),
                s@ == s1 + accept_lines(self.accepts@.take(i as int)),
            decreases self.accepts@.len() - i,
        {
            let ghost s2 = s@;
            let (id, info) = (&self.accepts[i].0, &self.accepts[i].1);
            append_str(&mut s, "  Estado ");
            append_state_id(&mut s, *id);
            append_str(&mut s, ": token='");
            append_str(&mut s, info.token_type.as_str());
            append_str(&mut s, "', prioridad=");
            append_usize(&mut s, info.priority);
            append_str(&mut s, "\n");
            assert(s@ =~= s2 + accept_line(self.accepts@[i as int]));
            proof {
                let t = self.accepts@.take(i + 1);
                assert(t.drop_last() =~= self.accepts@.take(i as int));
            }
            assert(s@ =~= s1 + accept_lines(self.accepts@.take(i + 1)));
            i += 1;
        }
        assert(self.accepts@.take(self.accepts@.len() as int) =~= self.accepts@);
        append_states_lines(&mut s, &self.states);
        assert(s@ =~= joined_text(self.start, self.accepts@, self.states@));
        s
    }
}

} // verus!
