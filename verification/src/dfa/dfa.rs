//! The deterministic automaton of a joined automaton, by the subset construction.

use vstd::prelude::*;
use crate::regex::node::RegexChar;
use crate::nfa::state::{StateId, State, states_wf};
use crate::nfa::join_nfa::{AcceptInfo, JoinedNFA, accept_of};
use crate::nfa::closure::{sorted_ids, eps_closure, move_set};
use crate::dfa::utils::{
    subset_name, subset_to_string, epsilon_closure, move_on_symbol, lemma_subset_name_injective,
};
use crate::dfa::bound::{two_pow, ids_below, lemma_sorted_family_bound};
use crate::dfa::run::subset_dfa;

verus! {

/// A state of the deterministic automaton: a set of states of the joined automaton (an
/// increasing list) and, if it accepts, the token it recognises.
#[derive(Debug)]
pub struct DFAState {
    pub nfa_subset: Vec<StateId>,
    pub accept: Option<AcceptInfo>,
}

/// A deterministic automaton whose states are named by their sets (see `subset_name`): the
/// named states, the transitions `((from, symbol), to)` between names, and the start name.
pub struct DFA {
    pub states: Vec<(String, DFAState)>,
    pub transitions: Vec<((String, RegexChar), String)>,
    pub start: String,
}

/// The accept information a set of states gets: among its members that have some, taken in
/// order, the first one of least priority.
pub open spec fn best_accept(subset: Seq<StateId>, accepts: Seq<(StateId, AcceptInfo)>) -> Option<AcceptInfo>
    decreases subset.len(),
{
    if subset.len() == 0 {
        None
    } else {
        let before = best_accept(subset.drop_last(), accepts);
        match accept_of(accepts, subset.last()) {
            None => before,
            Some(info) => match before {
                None => Some(info),
                Some(b) => if info.priority < b.priority { Some(info) } else { before },
            },
        }
    }
}

/// The accept information of a set of states is that of one of its members and of no larger
/// priority than that of any member; a set has none exactly when no member has any.
pub proof fn lemma_best_accept_least(subset: Seq<StateId>, accepts: Seq<(StateId, AcceptInfo)>)
    ensures
        (best_accept(subset, accepts) is None) <==> (forall|i: int| 0 <= i < subset.len()
            ==> (#[trigger] accept_of(accepts, subset[i])) is None),
        best_accept(subset, accepts) is Some ==> exists|i: int| 0 <= i < subset.len()
            && #[trigger] accept_of(accepts, subset[i]) == best_accept(subset, accepts),
        best_accept(subset, accepts) is Some ==> forall|i: int| 0 <= i < subset.len()
            && (#[trigger] accept_of(accepts, subset[i])) is Some
            ==> best_accept(subset, accepts).unwrap().priority <= accept_of(accepts, subset[i]).unwrap().priority,
    decreases subset.len(),
{
    if subset.len() > 0 {
        let s0 = subset.drop_last();
        let last = subset.len() - 1;
        lemma_best_accept_least(s0, accepts);
        assert forall|i: int| 0 <= i < s0.len() implies #[trigger] s0[i] == subset[i] by {}
        let b = best_accept(subset, accepts);
        let b0 = best_accept(s0, accepts);
        if b0 is Some {
            let w = choose|i: int| 0 <= i < s0.len() && #[trigger] accept_of(accepts, s0[i]) == b0;
            assert(accept_of(accepts, subset[w]) == b0);
        }
        assert(accept_of(accepts, subset[last]) == accept_of(accepts, subset.last()));
        if b is None {
            assert forall|i: int| 0 <= i < subset.len() implies (#[trigger] accept_of(accepts, subset[i])) is None by {
                if i < last {
                    assert(accept_of(accepts, s0[i]) is None);
                }
            }
        }
        if b is Some {
            assert forall|i: int| 0 <= i < subset.len() && (#[trigger] accept_of(accepts, subset[i])) is Some
                implies b.unwrap().priority <= accept_of(accepts, subset[i]).unwrap().priority by {
                if i < last {
                    assert(accept_of(accepts, s0[i]) is Some);
                }
            }
        }
    }
}

/// The first recorded accept information of a state, by its position in the list.
fn find_accept(accepts: &Vec<(StateId, AcceptInfo)>, s: StateId) -> (r: Option<usize>)
    ensures
        match r {
            None => accept_of(accepts@, s) is None,
            Some(k) => k < accepts@.len() && accept_of(accepts@, s) == Some(accepts@[k as int].1),
        },
{
    let mut i: usize = 0;
    assert(accepts@.subrange(0, accepts@.len() as int) =~= accepts@);
    while i < accepts.len()
        invariant
            i <= accepts@.len(),
            accept_of(accepts@, s) == accept_of(accepts@.subrange(i as int, accepts@.len() as int), s),
        decreases accepts@.len() - i,
    {
        let ghost rest = accepts@.subrange(i as int, accepts@.len() as int);
        assert(rest[0] == accepts@[i as int]);
        if accepts[i].0.0 == s.0 {
            return Some(i);
        }
        assert(rest.subrange(1, rest.len() as int) =~= accepts@.subrange(i + 1, accepts@.len() as int));
        i += 1;
    }
    None
}

/// The accept information of a set of states (see `best_accept`).
fn dfa_accept_info(subset: &Vec<StateId>, accepts: &Vec<(StateId, AcceptInfo)>) -> (r: Option<AcceptInfo>)
    ensures
        r == best_accept(subset@, accepts@),
{
    let mut best: Option<usize> = None;
    let mut i: usize = 0;
    while i < subset.len()
        invariant
            i <= subset@.len(),
            match best {
                None => best_accept(subset@.take(i as int), accepts@) is None,
                Some(k) => k < accepts@.len() && best_accept(subset@.take(i as int), accepts@) == Some(accepts@[k as int].1),
            },
        decreases subset@.len() - i,
    {
        let found = find_accept(accepts, subset[i]);
        assert(subset@.take(i + 1).drop_last() =~= subset@.take(i as int));
        assert(subset@.take(i + 1).last() == subset@[i as int]);
        match found {
            Some(k) => {
                match best {
                    None => {
                        best = Some(k);
                    },
                    Some(b) => {
                        if accepts[k].1.priority < accepts[b].1.priority {
                            best = Some(k);
                        }
                    },
                }
            },
            None => {},
        }
        i += 1;
    }
    assert(subset@.take(subset@.len() as int) =~= subset@);
    match best {
        None => None,
        Some(k) => Some(accepts[k].1.duplicate()),
    }
}

/// Some transition of `g` is labelled with `c`.
pub open spec fn symbol_used(g: Seq<State>, c: RegexChar) -> bool {
    exists|i: int, e: int| 0 <= i < g.len() && 0 <= e < g[i].transitions@.len()
        && #[trigger] g[i].transitions@[e].0 == Some(c)
}

/// Some transition of the first `i` states of `g`, or among the first `e` of state `i`, is
/// labelled with `c`.
pub open spec fn used_upto(g: Seq<State>, i: int, e: int, c: RegexChar) -> bool {
    exists|i2: int, e2: int| 0 <= i2 <= i && i2 < g.len() && 0 <= e2 < g[i2].transitions@.len()
        && (i2 < i || e2 < e) && #[trigger] g[i2].transitions@[e2].0 == Some(c)
}

/// Whether a list holds a symbol.
fn contains_symbol(v: &Vec<RegexChar>, c: RegexChar) -> (b: bool)
    ensures
        b == v@.contains(c),
{
    let mut i: usize = 0;
    while i < v.len()
        invariant
            i <= v@.len(),
            forall|j: int| 0 <= j < i ==> v@[j] != c,
        decreases v@.len() - i,
    {
        if v[i] == c {
            return true;
        }
        i += 1;
    }
    false
}

/// The symbols the transitions of `g` are labelled with, each once.
fn collect_alphabet(states: &Vec<State>) -> (a: Vec<RegexChar>)
    ensures
        a@.no_duplicates(),
        forall|c: RegexChar| #[trigger] a@.contains(c) <==> symbol_used(states@, c),
{
    let ghost g = states@;
    let mut a: Vec<RegexChar> = Vec::new();
    let mut i: usize = 0;
    while i < states.len()
        invariant
            g == states@,
            i <= g.len(),
            a@.no_duplicates(),
            forall|c: RegexChar| #[trigger] a@.contains(c) <==> used_upto(g, i as int, 0, c),
        decreases g.len() - i,
    {
        let st = &states[i];
        let mut e: usize = 0;
        while e < st.transitions.len()
            invariant
                g == states@,
                i < g.len(),
                *st == g[i as int],
                e <= st.transitions@.len(),
                a@.no_duplicates(),
                forall|c: RegexChar| #[trigger] a@.contains(c) <==> used_upto(g, i as int, e as int, c),
            decreases st.transitions@.len() - e,
        {
            let (label, _) = st.transitions[e];
            let ghost before = a@;
            if let Some(c) = label {
                if !contains_symbol(&a, c) {
                    a.push(c);
                    assert(a@ == before.push(c));
                    assert(a@[before.len() as int] == c);
                    assert forall|x: RegexChar| #[trigger] before.contains(x) implies a@.contains(x) by {
                        let q = choose|q: int| 0 <= q < before.len() && before[q] == x;
                        assert(a@[q] == x);
                    }
                    assert forall|x: RegexChar| #[trigger] a@.contains(x) && !before.contains(x) implies x == c by {
                        let q = choose|q: int| 0 <= q < a@.len() && a@[q] == x;
                        if q < before.len() {
                            assert(before[q] == x);
                        }
                    }
                }
            }
            assert(g[i as int].transitions@[e as int].0 == label);
            assert(forall|x: RegexChar| #[trigger] a@.contains(x) && !before.contains(x) ==> label == Some(x));
            assert(forall|x: RegexChar| #[trigger] before.contains(x) ==> a@.contains(x));
            assert forall|c: RegexChar| #[trigger] a@.contains(c) <==> used_upto(g, i as int, e + 1, c) by {
                if used_upto(g, i as int, e + 1, c) {
                    let (i2, e2) = choose|i2: int, e2: int| 0 <= i2 <= i && i2 < g.len()
                        && 0 <= e2 < g[i2].transitions@.len() && (i2 < i || e2 < e + 1)
                        && #[trigger] g[i2].transitions@[e2].0 == Some(c);
                    if i2 < i || e2 < e {
                        assert(used_upto(g, i as int, e as int, c));
                        assert(before.contains(c));
                    } else {
                        assert(label == Some(c));
                    }
                    assert(a@.contains(c));
                }
                if a@.contains(c) {
                    if before.contains(c) {
                        assert(used_upto(g, i as int, e as int, c));
                        let (i2, e2) = choose|i2: int, e2: int| 0 <= i2 <= i && i2 < g.len()
                            && 0 <= e2 < g[i2].transitions@.len() && (i2 < i || e2 < e)
                            && #[trigger] g[i2].transitions@[e2].0 == Some(c);
                        assert(g[i2].transitions@[e2].0 == Some(c));
                    } else {
                        assert(g[i as int].transitions@[e as int].0 == Some(c));
                    }
                }
            }
            e += 1;
        }
        assert forall|c: RegexChar| used_upto(g, i as int, e as int, c) <==> used_upto(g, i + 1, 0, c) by {
            if used_upto(g, i as int, e as int, c) {
                let (i2, e2) = choose|i2: int, e2: int| 0 <= i2 <= i && i2 < g.len()
                    && 0 <= e2 < g[i2].transitions@.len() && (i2 < i || e2 < e)
                    && #[trigger] g[i2].transitions@[e2].0 == Some(c);
                assert(g[i2].transitions@[e2].0 == Some(c));
            }
            if used_upto(g, i + 1, 0, c) {
                let (i2, e2) = choose|i2: int, e2: int| 0 <= i2 <= i + 1 && i2 < g.len()
                    && 0 <= e2 < g[i2].transitions@.len() && (i2 < i + 1 || e2 < 0)
                    && #[trigger] g[i2].transitions@[e2].0 == Some(c);
                assert(g[i2].transitions@[e2].0 == Some(c));
            }
        }
        i += 1;
    }
    assert forall|c: RegexChar| #[trigger] a@.contains(c) <==> symbol_used(g, c) by {
        if used_upto(g, i as int, 0, c) {
            let (i2, e2) = choose|i2: int, e2: int| 0 <= i2 <= i && i2 < g.len()
                && 0 <= e2 < g[i2].transitions@.len() && (i2 < i || e2 < 0)
                && #[trigger] g[i2].transitions@[e2].0 == Some(c);
            assert(g[i2].transitions@[e2].0 == Some(c));
        }
        if symbol_used(g, c) {
            let (i2, e2) = choose|i2: int, e2: int| 0 <= i2 < g.len() && 0 <= e2 < g[i2].transitions@.len()
                && #[trigger] g[i2].transitions@[e2].0 == Some(c);
            assert(g[i2].transitions@[e2].0 == Some(c));
        }
    }
    a
}

/// A set that moves somewhere on `c` uses `c` on some transition.
pub proof fn lemma_move_uses_symbol(g: Seq<State>, from: Set<StateId>, c: RegexChar)
    requires
        !move_set(g, from, c).is_empty(),
    ensures
        symbol_used(g, c),
{
    let t = move_set(g, from, c).choose();
    assert(move_set(g, from, c).contains(t));
    let s = choose|s: StateId| from.contains(s) && 0 <= s.0 < g.len() && #[trigger] g[s.0 as int].has_edge(Some(c), t);
    let e = choose|e: int| 0 <= e < g[s.0 as int].transitions@.len() && g[s.0 as int].transitions@[e] == (Some(c), t);
    assert(g[s.0 as int].transitions@[e].0 == Some(c));
}

/// A named state of the construction: its set is an increasing list of states of `g`, its
/// name is the set's name, and its accept information is the set's.
#[verifier::opaque]
pub open spec fn dstate_ok(g: Seq<State>, accepts: Seq<(StateId, AcceptInfo)>, st: (String, DFAState)) -> bool {
    &&& sorted_ids(st.1.nfa_subset@)
    &&& ids_below(st.1.nfa_subset@, g.len())
    &&& st.0@ == subset_name(st.1.nfa_subset@)
    &&& st.1.accept == best_accept(st.1.nfa_subset@, accepts)
}

/// Where the construction goes from a set of states on `c`: the empty-transition closure of
/// the states one `c` transition away.
pub open spec fn subset_step(g: Seq<State>, subset: Seq<StateId>, c: RegexChar) -> Set<StateId> {
    eps_closure(g, move_set(g, subset.to_set(), c))
}

/// A transition goes, on its symbol, from a state of the list to the state of the list whose
/// set is where the construction goes from the first one's set; that move is not empty.
#[verifier::opaque]
pub open spec fn dedge_ok(g: Seq<State>, states: Seq<(String, DFAState)>, t: ((String, RegexChar), String)) -> bool {
    exists|i: int, j: int| #![trigger states[i], states[j]]
        0 <= i < states.len() && 0 <= j < states.len()
        && t.0.0@ == states[i].0@ && t.1@ == states[j].0@
        && !move_set(g, states[i].1.nfa_subset@.to_set(), t.0.1).is_empty()
        && states[j].1.nfa_subset@.to_set() == subset_step(g, states[i].1.nfa_subset@, t.0.1)
}

/// The transition leaves one of the first `h` states of the list.
pub open spec fn src_before(states: Seq<(String, DFAState)>, t: ((String, RegexChar), String), h: int) -> bool {
    exists|i: int| 0 <= i < h && i < states.len() && t.0.0@ == (#[trigger] states[i]).0@
}

/// Some transition leaves the state named `name` on `c`.
pub open spec fn has_key(trans: Seq<((String, RegexChar), String)>, name: Seq<char>, c: RegexChar) -> bool {
    exists|k: int| 0 <= k < trans.len() && (#[trigger] trans[k]).0.0@ == name && trans[k].0.1 == c
}

/// Some transition enters the state named `name`.
pub open spec fn has_entry(trans: Seq<((String, RegexChar), String)>, name: Seq<char>) -> bool {
    exists|k: int| 0 <= k < trans.len() && (#[trigger] trans[k]).1@ == name
}

/// No two transitions leave the same state on the same symbol.
pub open spec fn keys_unique(trans: Seq<((String, RegexChar), String)>) -> bool {
    forall|k1: int, k2: int| 0 <= k1 < k2 < trans.len()
        ==> (#[trigger] trans[k1]).0.0@ != (#[trigger] trans[k2]).0.0@ || trans[k1].0.1 != trans[k2].0.1
}

/// No two states share a name.
pub open spec fn names_unique(states: Seq<(String, DFAState)>) -> bool {
    forall|i: int, j: int| 0 <= i < j < states.len() ==> (#[trigger] states[i]).0@ != (#[trigger] states[j]).0@
}

/// The position of the state named `name`, if any.
fn find_name(states: &Vec<(String, DFAState)>, name: &String) -> (r: Option<usize>)
    ensures
        match r {
            None => forall|j: int| 0 <= j < states@.len() ==> (#[trigger] states@[j]).0@ != name@,
            Some(j) => j < states@.len() && states@[j as int].0@ == name@,
        },
{
    let mut i: usize = 0;
    while i < states.len()
        invariant
            i <= states@.len(),
            forall|j: int| 0 <= j < i ==> (#[trigger] states@[j]).0@ != name@,
        decreases states@.len() - i,
    {
        if states[i].0 == *name {
            return Some(i);
        }
        i += 1;
    }
    None
}

/// A copy of an identifier list.
fn copy_ids(v: &Vec<StateId>) -> (r: Vec<StateId>)
    ensures
        r@ == v@,
{
    let mut r: Vec<StateId> = Vec::new();
    let mut i: usize = 0;
    while i < v.len()
        invariant
            i <= v@.len(),
            r@ == v@.take(i as int),
        decreases v@.len() - i,
    {
        r.push(v[i]);
        assert(r@ =~= v@.take(i + 1));
        i += 1;
    }
    assert(v@.take(v@.len() as int) =~= v@);
    r
}

/// Named states with distinct names, each named after its increasing list of states of an
/// automaton of `n` states, are at most `two_pow(n)` many.
pub proof fn lemma_states_bound(states: Seq<(String, DFAState)>, n: nat)
    requires
        forall|i: int| 0 <= i < states.len() ==> sorted_ids((#[trigger] states[i]).1.nfa_subset@)
            && ids_below(states[i].1.nfa_subset@, n) && states[i].0@ == subset_name(states[i].1.nfa_subset@),
        names_unique(states),
    ensures
        states.len() <= two_pow(n),
{
    let fam = Seq::new(states.len(), |i: int| states[i].1.nfa_subset@);
    assert forall|i: int, j: int| 0 <= i < fam.len() && 0 <= j < fam.len() && i != j implies fam[i] != fam[j] by {
        if i < j {
            assert(states[i].0@ != states[j].0@);
        } else {
            assert(states[j].0@ != states[i].0@);
        }
    }
    assert(fam.no_duplicates());
    fam.unique_seq_to_set();
    assert forall|s: Seq<StateId>| #[trigger] fam.to_set().contains(s) implies sorted_ids(s) && ids_below(s, n) by {
        let i = choose|i: int| 0 <= i < fam.len() && fam[i] == s;
        assert(states[i].1.nfa_subset@ == s);
    }
    lemma_sorted_family_bound(fam.to_set(), n);
}

/// Transitions correct for some named states stay correct when more states are added.
pub proof fn lemma_states_grow(g: Seq<State>, s1: Seq<(String, DFAState)>, s2: Seq<(String, DFAState)>)
    requires
        s1.len() <= s2.len(),
        forall|i: int| 0 <= i < s1.len() ==> #[trigger] s2[i] == s1[i],
    ensures
        forall|t: ((String, RegexChar), String)| dedge_ok(g, s1, t) ==> #[trigger] dedge_ok(g, s2, t),
        forall|t: ((String, RegexChar), String), h: int| src_before(s1, t, h) ==> #[trigger] src_before(s2, t, h),
{
    reveal(dedge_ok);
    assert forall|t: ((String, RegexChar), String)| dedge_ok(g, s1, t) implies #[trigger] dedge_ok(g, s2, t) by {
        let (i, j) = choose|i: int, j: int| #![trigger s1[i], s1[j]]
            0 <= i < s1.len() && 0 <= j < s1.len()
            && t.0.0@ == s1[i].0@ && t.1@ == s1[j].0@
            && !move_set(g, s1[i].1.nfa_subset@.to_set(), t.0.1).is_empty()
            && s1[j].1.nfa_subset@.to_set() == subset_step(g, s1[i].1.nfa_subset@, t.0.1);
        assert(s2[i] == s1[i]);
        assert(s2[j] == s1[j]);
    }
    assert forall|t: ((String, RegexChar), String), h: int| src_before(s1, t, h) implies #[trigger] src_before(s2, t, h) by {
        let i = choose|i: int| 0 <= i < h && i < s1.len() && t.0.0@ == (#[trigger] s1[i]).0@;
        assert(s2[i] == s1[i]);
    }
}

/// What some transition does stays so when a transition is added.
pub proof fn lemma_transitions_grow(t1: Seq<((String, RegexChar), String)>, x: ((String, RegexChar), String))
    ensures
        forall|name: Seq<char>, c: RegexChar| has_key(t1, name, c) ==> #[trigger] has_key(t1.push(x), name, c),
        forall|name: Seq<char>| has_entry(t1, name) ==> #[trigger] has_entry(t1.push(x), name),
        has_key(t1.push(x), x.0.0@, x.0.1),
        has_entry(t1.push(x), x.1@),
{
    let t2 = t1.push(x);
    assert forall|name: Seq<char>, c: RegexChar| has_key(t1, name, c) implies #[trigger] has_key(t2, name, c) by {
        let k = choose|k: int| 0 <= k < t1.len() && (#[trigger] t1[k]).0.0@ == name && t1[k].0.1 == c;
        assert(t2[k] == t1[k]);
    }
    assert forall|name: Seq<char>| has_entry(t1, name) implies #[trigger] has_entry(t2, name) by {
        let k = choose|k: int| 0 <= k < t1.len() && (#[trigger] t1[k]).1@ == name;
        assert(t2[k] == t1[k]);
    }
    assert(t2[t1.len() as int] == x);
}

/// Adding a transition from the current state on the next symbol of the alphabet keeps
/// transitions unique by state and symbol.
pub proof fn lemma_keys_grow(
    t1: Seq<((String, RegexChar), String)>,
    x: ((String, RegexChar), String),
    alphabet: Seq<RegexChar>,
    a: int,
)
    requires
        keys_unique(t1),
        alphabet.no_duplicates(),
        0 <= a < alphabet.len(),
        x.0.1 == alphabet[a],
        forall|k: int| 0 <= k < t1.len() && (#[trigger] t1[k]).0.0@ == x.0.0@
            ==> exists|a2: int| 0 <= a2 < a && t1[k].0.1 == #[trigger] alphabet[a2],
    ensures
        keys_unique(t1.push(x)),
        forall|k: int| 0 <= k < t1.push(x).len() && (#[trigger] t1.push(x)[k]).0.0@ == x.0.0@
            ==> exists|a2: int| 0 <= a2 < a + 1 && t1.push(x)[k].0.1 == #[trigger] alphabet[a2],
{
    let t2 = t1.push(x);
    assert forall|k1: int, k2: int| 0 <= k1 < k2 < t2.len()
        implies (#[trigger] t2[k1]).0.0@ != (#[trigger] t2[k2]).0.0@ || t2[k1].0.1 != t2[k2].0.1 by {
        assert(t2[k1] == t1[k1]);
        if k2 < t1.len() {
            assert(t2[k2] == t1[k2]);
        } else if t1[k1].0.0@ == x.0.0@ {
            let a2 = choose|a2: int| 0 <= a2 < a && t1[k1].0.1 == #[trigger] alphabet[a2];
            assert(alphabet[a2] != alphabet[a]);
        }
    }
    assert forall|k: int| 0 <= k < t2.len() && (#[trigger] t2[k]).0.0@ == x.0.0@
        implies exists|a2: int| 0 <= a2 < a + 1 && t2[k].0.1 == #[trigger] alphabet[a2] by {
        if k < t1.len() {
            assert(t2[k] == t1[k]);
            let a2 = choose|a2: int| 0 <= a2 < a && t1[k].0.1 == #[trigger] alphabet[a2];
            assert(t2[k].0.1 == alphabet[a2]);
        } else {
            assert(t2[k].0.1 == alphabet[a]);
        }
    }
}

/// A transition from state `i` on `t.0.1` to state `j`, where `j`'s set is where the
/// construction goes from `i`'s and that move is not empty, is correct.
pub proof fn lemma_dedge_intro(g: Seq<State>, states: Seq<(String, DFAState)>, t: ((String, RegexChar), String), i: int, j: int)
    requires
        0 <= i < states.len(),
        0 <= j < states.len(),
        t.0.0@ == states[i].0@,
        t.1@ == states[j].0@,
        !move_set(g, states[i].1.nfa_subset@.to_set(), t.0.1).is_empty(),
        states[j].1.nfa_subset@.to_set() == subset_step(g, states[i].1.nfa_subset@, t.0.1),
    ensures
        dedge_ok(g, states, t),
{
    reveal(dedge_ok);
}

/// The position of the state whose set is `closure`, added with its name and accept
/// information if no state has that set yet; and the name of that set.
fn target_state(
    nfa: &JoinedNFA,
    states: &mut Vec<(String, DFAState)>,
    closure: Vec<StateId>,
) -> (r: (usize, String))
    requires
        nfa.wf(),
        sorted_ids(closure@),
        ids_below(closure@, nfa.states@.len()),
        forall|i: int| 0 <= i < old(states)@.len() ==> dstate_ok(nfa.states@, nfa.accepts@, #[trigger] old(states)@[i]),
        names_unique(old(states)@),
    ensures
        old(states)@.len() <= final(states)@.len() <= old(states)@.len() + 1,
        forall|i: int| 0 <= i < old(states)@.len() ==> #[trigger] final(states)@[i] == old(states)@[i],
        forall|i: int| 0 <= i < final(states)@.len() ==> dstate_ok(nfa.states@, nfa.accepts@, #[trigger] final(states)@[i]),
        names_unique(final(states)@),
        final(states)@.len() <= two_pow(nfa.states@.len()),
        r.0 < final(states)@.len(),
        final(states)@[r.0 as int].1.nfa_subset@ == closure@,
        final(states)@[r.0 as int].0@ == r.1@,
        r.1@ == subset_name(closure@),
        final(states)@.len() > old(states)@.len() ==> r.0 == old(states)@.len(),
{
    let closure_str = subset_to_string(&closure);
    let found = find_name(states, &closure_str);
    match found {
        Some(j) => {
            proof {
                reveal(dstate_ok);
                assert(dstate_ok(nfa.states@, nfa.accepts@, states@[j as int]));
                lemma_subset_name_injective(states@[j as int].1.nfa_subset@, closure@);
                assert forall|i: int| 0 <= i < states@.len() implies sorted_ids((#[trigger] states@[i]).1.nfa_subset@)
                    && ids_below(states@[i].1.nfa_subset@, nfa.states@.len())
                    && states@[i].0@ == subset_name(states@[i].1.nfa_subset@) by {
                    assert(dstate_ok(nfa.states@, nfa.accepts@, states@[i]));
                }
                lemma_states_bound(states@, nfa.states@.len());
            }
            (j, closure_str)
        },
        None => {
            let ghost before = states@;
            let accept = dfa_accept_info(&closure, &nfa.accepts);
            let idx = states.len();
            states.push((closure_str.clone(), DFAState { nfa_subset: closure, accept }));
            proof {
                reveal(dstate_ok);
                assert forall|i: int| 0 <= i < before.len() implies #[trigger] states@[i] == before[i] by {}
                assert forall|i: int, j: int| 0 <= i < j < states@.len()
                    implies (#[trigger] states@[i]).0@ != (#[trigger] states@[j]).0@ by {
                    if j == before.len() {
                        assert(before[i].0@ != closure_str@);
                    } else {
                        assert(before[i].0@ != before[j].0@);
                    }
                }
                assert forall|i: int| 0 <= i < states@.len() implies dstate_ok(nfa.states@, nfa.accepts@, #[trigger] states@[i]) by {
                    if i < before.len() {
                        assert(dstate_ok(nfa.states@, nfa.accepts@, before[i]));
                    }
                }
                assert forall|i: int| 0 <= i < states@.len() implies sorted_ids((#[trigger] states@[i]).1.nfa_subset@)
                    && ids_below(states@[i].1.nfa_subset@, nfa.states@.len())
                    && states@[i].0@ == subset_name(states@[i].1.nfa_subset@) by {
                    assert(dstate_ok(nfa.states@, nfa.accepts@, states@[i]));
                }
                lemma_states_bound(states@, nfa.states@.len());
            }
            (idx, closure_str)
        },
    }
}

impl DFA {
    /// The subset construction. The start state is the empty-transition closure of the start
    /// of `nfa`; from each state and each symbol on which its set moves somewhere, a
    /// transition leads to the state of the closure of that move. Each state is named after
    /// its set and accepts as its set does (see `best_accept`); states have distinct names,
    /// each state other than the start is entered by some transition, and no two transitions
    /// leave one state on one symbol.
    pub fn from_joined_nfa(nfa: &JoinedNFA) -> (dfa: Self)
        requires
            nfa.wf(),
        ensures
            dfa.states@.len() >= 1,
            dfa.start@ == dfa.states@[0].0@,
            dfa.states@[0].1.nfa_subset@.to_set() == eps_closure(nfa.states@, set![nfa.start]),
            forall|i: int| 0 <= i < dfa.states@.len() ==> dstate_ok(nfa.states@, nfa.accepts@, #[trigger] dfa.states@[i]),
            names_unique(dfa.states@),
            forall|k: int| 0 <= k < dfa.transitions@.len()
                ==> dedge_ok(nfa.states@, dfa.states@, #[trigger] dfa.transitions@[k]),
            keys_unique(dfa.transitions@),
            forall|i: int, c: RegexChar| 0 <= i < dfa.states@.len()
                && !(#[trigger] move_set(nfa.states@, dfa.states@[i].1.nfa_subset@.to_set(), c)).is_empty()
                ==> has_key(dfa.transitions@, dfa.states@[i].0@, c),
            forall|j: int| 1 <= j < dfa.states@.len() ==> has_entry(dfa.transitions@, (#[trigger] dfa.states@[j]).0@),
            subset_dfa(dfa, nfa.states@, nfa.accepts@, nfa.start),
    {
        let ghost g = nfa.states@;
        let ghost acc = nfa.accepts@;
        let ghost n = g.len();
        let alphabet = collect_alphabet(&nfa.states);
        let mut start_ids: Vec<StateId> = Vec::new();
        start_ids.push(nfa.start);
        proof {
            Seq::<StateId>::empty().lemma_push_to_set_commute(nfa.start);
            assert(start_ids@ =~= Seq::<StateId>::empty().push(nfa.start));
            assert(Seq::<StateId>::empty().to_set() =~= Set::<StateId>::empty());
            assert(start_ids@.to_set() =~= set![nfa.start]);
        }
        let start_closure = epsilon_closure(&start_ids, &nfa.states);
        let start_str = subset_to_string(&start_closure);
        let start_accept = dfa_accept_info(&start_closure, &nfa.accepts);
        let mut states: Vec<(String, DFAState)> = Vec::new();
        states.push((start_str.clone(), DFAState { nfa_subset: start_closure, accept: start_accept }));
        let mut transitions: Vec<((String, RegexChar), String)> = Vec::new();
        proof {
            reveal(dstate_ok);
            assert(start_ids@[0] == nfa.start);
            assert(dstate_ok(g, acc, states@[0]));
            lemma_states_bound(states@, n);
        }
        let mut head: usize = 0;
        while head < states.len()
            invariant
                g == nfa.states@,
                acc == nfa.accepts@,
                nfa.wf(),
                n == g.len(),
                alphabet@.no_duplicates(),
                forall|c: RegexChar| #[trigger] alphabet@.contains(c) <==> symbol_used(g, c),
                1 <= states@.len() <= two_pow(n),
                head <= states@.len(),
                start_str@ == states@[0].0@,
                states@[0].1.nfa_subset@.to_set() == eps_closure(g, set![nfa.start]),
                forall|i: int| 0 <= i < states@.len() ==> dstate_ok(g, acc, #[trigger] states@[i]),
                names_unique(states@),
                forall|k: int| 0 <= k < transitions@.len() ==> dedge_ok(g, states@, #[trigger] transitions@[k]),
                forall|k: int| 0 <= k < transitions@.len() ==> src_before(states@, #[trigger] transitions@[k], head as int),
                keys_unique(transitions@),
                forall|i: int, c: RegexChar| 0 <= i < head
                    && !(#[trigger] move_set(g, states@[i].1.nfa_subset@.to_set(), c)).is_empty()
                    ==> has_key(transitions@, states@[i].0@, c),
                forall|j: int| 1 <= j < states@.len() ==> has_entry(transitions@, (#[trigger] states@[j]).0@),
            decreases two_pow(n) - head,
        {
            let current_subset = copy_ids(&states[head].1.nfa_subset);
            let current_str = states[head].0.clone();
            let mut a: usize = 0;
            while a < alphabet.len()
                invariant
                    g == nfa.states@,
                    acc == nfa.accepts@,
                    nfa.wf(),
                    n == g.len(),
                    alphabet@.no_duplicates(),
                    forall|c: RegexChar| #[trigger] alphabet@.contains(c) <==> symbol_used(g, c),
                    1 <= states@.len() <= two_pow(n),
                    head < states@.len(),
                    a <= alphabet@.len(),
                    current_subset@ == states@[head as int].1.nfa_subset@,
                    current_str@ == states@[head as int].0@,
                    start_str@ == states@[0].0@,
                    states@[0].1.nfa_subset@.to_set() == eps_closure(g, set![nfa.start]),
                    forall|i: int| 0 <= i < states@.len() ==> dstate_ok(g, acc, #[trigger] states@[i]),
                    names_unique(states@),
                    forall|k: int| 0 <= k < transitions@.len() ==> dedge_ok(g, states@, #[trigger] transitions@[k]),
                    forall|k: int| 0 <= k < transitions@.len() ==> src_before(states@, #[trigger] transitions@[k], head + 1),
                    forall|k: int| 0 <= k < transitions@.len() && (#[trigger] transitions@[k]).0.0@ == current_str@
                        ==> exists|a2: int| 0 <= a2 < a && transitions@[k].0.1 == #[trigger] alphabet@[a2],
                    keys_unique(transitions@),
                    forall|i: int, c: RegexChar| 0 <= i < head
                        && !(#[trigger] move_set(g, states@[i].1.nfa_subset@.to_set(), c)).is_empty()
                        ==> has_key(transitions@, states@[i].0@, c),
                    forall|a2: int| 0 <= a2 < a
                        && !move_set(g, current_subset@.to_set(), #[trigger] alphabet@[a2]).is_empty()
                        ==> has_key(transitions@, current_str@, alphabet@[a2]),
                    forall|j: int| 1 <= j < states@.len() ==> has_entry(transitions@, (#[trigger] states@[j]).0@),
                decreases alphabet@.len() - a,
            {
                let sym = alphabet[a];
                let mv = move_on_symbol(&current_subset, &sym, &nfa.states);
                if mv.len() > 0 {
                    let closure = epsilon_closure(&mv, &nfa.states);
                    let ghost s_before = states@;
                    let ghost t_before = transitions@;
                    let ghost closure_view = closure@;
                    proof {
                        assert(mv@.to_set().contains(mv@[0]));
                    }
                    let (target, closure_str) = target_state(nfa, &mut states, closure);
                    proof {
                        lemma_states_grow(g, s_before, states@);
                    }
                    let ghost s_mid = states@;
                    transitions.push(((current_str.clone(), sym), closure_str));
                    proof {
                        let tn = transitions@.last();
                        assert(transitions@ == t_before.push(tn));
                        assert(s_mid[head as int] == s_before[head as int]);
                        assert(mv@.to_set() == move_set(g, current_subset@.to_set(), sym));
                        lemma_dedge_intro(g, s_mid, tn, head as int, target as int);
                        assert(src_before(s_mid, tn, head + 1)) by {
                            assert(s_mid[head as int].0@ == tn.0.0@);
                        }
                        lemma_transitions_grow(t_before, tn);
                        lemma_keys_grow(t_before, tn, alphabet@, a as int);
                        assert forall|k: int| 0 <= k < transitions@.len() implies
                            dedge_ok(g, s_mid, #[trigger] transitions@[k]) && src_before(s_mid, transitions@[k], head + 1) by {
                            if k < t_before.len() {
                                assert(transitions@[k] == t_before[k]);
                            }
                        }
                        assert forall|j: int| 1 <= j < s_mid.len() implies has_entry(transitions@, (#[trigger] s_mid[j]).0@) by {
                            if j < s_before.len() {
                                assert(s_mid[j] == s_before[j]);
                            }
                        }
                        assert forall|i: int, c: RegexChar| 0 <= i < head
                            && !(#[trigger] move_set(g, s_mid[i].1.nfa_subset@.to_set(), c)).is_empty()
                            implies has_key(transitions@, s_mid[i].0@, c) by {
                            assert(s_mid[i] == s_before[i]);
                        }
                    }
                } else {
                    proof {
                        assert forall|a2: int| 0 <= a2 < a + 1
                            && !move_set(g, current_subset@.to_set(), #[trigger] alphabet@[a2]).is_empty()
                            implies has_key(transitions@, current_str@, alphabet@[a2]) by {
                            if a2 == a {
                                assert(mv@.to_set() =~= Set::<StateId>::empty());
                            }
                        }
                        assert forall|k: int| 0 <= k < transitions@.len() && (#[trigger] transitions@[k]).0.0@ == current_str@
                            implies exists|a2: int| 0 <= a2 < a + 1 && transitions@[k].0.1 == #[trigger] alphabet@[a2] by {
                            let a2 = choose|a2: int| 0 <= a2 < a && transitions@[k].0.1 == #[trigger] alphabet@[a2];
                            assert(transitions@[k].0.1 == alphabet@[a2]);
                        }
                    }
                }
                a += 1;
            }
            proof {
                assert forall|i: int, c: RegexChar| 0 <= i < head + 1
                    && !(#[trigger] move_set(g, states@[i].1.nfa_subset@.to_set(), c)).is_empty()
                    implies has_key(transitions@, states@[i].0@, c) by {
                    if i == head {
                        lemma_move_uses_symbol(g, states@[i].1.nfa_subset@.to_set(), c);
                        assert(alphabet@.contains(c));
                        let a2 = choose|a2: int| 0 <= a2 < alphabet@.len() && alphabet@[a2] == c;
                        assert(!move_set(g, current_subset@.to_set(), alphabet@[a2]).is_empty());
                    }
                }
            }
            head += 1;
        }
        DFA { states, transitions, start: start_str }
    }
}

} // verus!
