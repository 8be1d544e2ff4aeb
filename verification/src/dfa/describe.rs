//! A text description of a deterministic automaton: start, states and transitions.

use vstd::prelude::*;
use crate::text::{decimal, append_str, append_usize};
use crate::regex::node::RegexChar;
use crate::regex::repr::{char_repr, append_char_repr};
use crate::dfa::dfa::{DFA, DFAState};

verus! {

/// The line of a state: its name and, when it accepts, its token type and priority.
pub open spec fn dstate_line(s: (String, DFAState)) -> Seq<char> {
    "  "@ + s.0@ + match s.1.accept {
        Some(info) => " (aceptación: "@ + info.token_type@ + ", prioridad: "@ + decimal(info.priority as nat) + ")"@,
        None => seq![],
    } + "\n"@
}

/// The lines of the states, in order.
pub open spec fn dstates_lines(states: Seq<(String, DFAState)>) -> Seq<char>
    decreases states.len(),
{
    if states.len() == 0 {
        seq![]
    } else {
        dstates_lines(states.drop_last()) + dstate_line(states.last())
    }
}

/// The line of a transition.
pub open spec fn dedge_line(t: ((String, RegexChar), String)) -> Seq<char> {
    "  "@ + t.0.0@ + " --"@ + char_repr(t.0.1) + "--> "@ + t.1@ + "\n"@
}

/// The lines of the transitions, in order.
pub open spec fn dedges_lines(ts: Seq<((String, RegexChar), String)>) -> Seq<char>
    decreases ts.len(),
{
    if ts.len() == 0 {
        seq![]
    } else {
        dedges_lines(ts.drop_last()) + dedge_line(ts.last())
    }
}

/// The description of a deterministic automaton: a heading, its start, one line per state,
/// then one line per transition.
pub open spec fn dfa_text(d: DFA) -> Seq<char> {
    "\nDFA resultante:\n"@ + "Estado inicial: "@ + d.start@ + "\n"@ + "Estados DFA:\n"@
        + dstates_lines(d.states@) + "Transiciones DFA:\n"@ + dedges_lines(d.transitions@)
}

impl DFA {
    /// The description of the automaton (see `dfa_text`), states and transitions in the
    /// order they are held.
    pub fn imprimir_text(&self) -> (s: String)
        ensures
            s@ == dfa_text(*self),
    {
        let mut s = String::new();
        append_str(&mut s, "\nDFA resultante:\n");
        append_str(&mut s, "Estado inicial: ");
        append_str(&mut s, self.start.as_str());
        append_str(&mut s, "\n");
        append_str(&mut s, "Estados DFA:\n");
        let ghost s0 = s@;
        let mut i: usize = 0;
        while i < self.states.len()
            invariant
                i <= self.states@.len(),
                s@ == s0 + dstates_lines(self.states@.take(i as int)),
            decreases self.states@.len() - i,
        {
            let ghost s1 = s@;
            append_str(&mut s, "  ");
            append_str(&mut s, self.states[i].0.as_str());
            match &self.states[i].1.accept {
                Some(info) => {
                    append_str(&mut s, " (aceptación: ");
                    append_str(&mut s, info.token_type.as_str());
                    append_str(&mut s, ", prioridad: ");
                    append_usize(&mut s, info.priority);
                    append_str(&mut s, ")");
                },
                None => {},
            }
            append_str(&mut s, "\n");
            proof {
                let t = self.states@.take(i + 1);
                assert(t.drop_last() =~= self.states@.take(i as int));
                assert(s@ =~= s1 + dstate_line(self.states@[i as int]));
            }
            i += 1;
        }
        assert(self.states@.take(self.states@.len() as int) =~= self.states@);
        append_str(&mut s, "Transiciones DFA:\n");
        let ghost s2 = s@;
        let mut k: usize = 0;
        while k < self.transitions.len()
            invariant
                k <= self.transitions@.len(),
                s@ == s2 + dedges_lines(self.transitions@.take(k as int)),
            decreases self.transitions@.len() - k,
        {
            let ghost s3 = s@;
            append_str(&mut s, "  ");
            append_str(&mut s, self.transitions[k].0.0.as_str());
            append_str(&mut s, " --");
            append_char_repr(&mut s, self.transitions[k].0.1);
            append_str(&mut s, "--> ");
            append_str(&mut s, self.transitions[k].1.as_str());
            append_str(&mut s, "\n");
            proof {
                let t = self.transitions@.take(k + 1);
                assert(t.drop_last() =~= self.transitions@.take(k as int));
                assert(s@ =~= s3 + dedge_line(self.transitions@[k as int]));
            }
            k += 1;
        }
        assert(self.transitions@.take(self.transitions@.len() as int) =~= self.transitions@);
        assert(s@ =~= dfa_text(*self));
        s
    }
}

} // verus!
