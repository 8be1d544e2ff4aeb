//! Empty-transition closures and symbol moves over sets of automaton states.

use vstd::prelude::*;
use crate::regex::node::RegexChar;
use crate::nfa::state::{StateId, State, states_wf};
use crate::nfa::nfa::contains_state;

verus! {

/// One empty transition from `s` to `t`.
pub open spec fn eps_step(states: Seq<State>, s: StateId, t: StateId) -> bool {
    0 <= s.0 < states.len() && states[s.0 as int].has_edge(None, t)
}

/// A nonempty sequence of states, each joined to the next by an empty transition.
pub open spec fn eps_path(states: Seq<State>, p: Seq<StateId>) -> bool {
    &&& p.len() > 0
    &&& forall|i: int| 0 <= i < p.len() - 1 ==> eps_step(states, #[trigger] p[i], p[i + 1])
}

/// `t` is reached from some state of `from` by empty transitions (possibly none).
pub open spec fn eps_reach(states: Seq<State>, from: Set<StateId>, t: StateId) -> bool {
    exists|p: Seq<StateId>| #[trigger] eps_path(states, p) && from.contains(p[0]) && p.last() == t
}

/// The empty-transition closure of a set of states.
pub open spec fn eps_closure(states: Seq<State>, from: Set<StateId>) -> Set<StateId> {
    Set::new(|t: StateId| eps_reach(states, from, t))
}

/// The states reached from a set by one transition on `symbol`.
pub open spec fn move_set(states: Seq<State>, from: Set<StateId>, symbol: RegexChar) -> Set<StateId> {
    Set::new(|t: StateId| exists|s: StateId| from.contains(s) && 0 <= s.0 < states.len()
        && #[trigger] states[s.0 as int].has_edge(Some(symbol), t))
}

/// Identifiers in strictly increasing order (hence without repetition).
pub open spec fn sorted_ids(v: Seq<StateId>) -> bool {
    forall|i: int, j: int| 0 <= i < j < v.len() ==> (#[trigger] v[i]).0 < (#[trigger] v[j]).0
}

/// A set closed under empty transitions.
pub open spec fn eps_closed(states: Seq<State>, c: Set<StateId>) -> bool {
    forall|s: StateId, t: StateId| c.contains(s) && #[trigger] eps_step(states, s, t) ==> c.contains(t)
}

pub proof fn lemma_path_extend(states: Seq<State>, p: Seq<StateId>, t: StateId)
    requires
        eps_path(states, p),
        eps_step(states, p.last(), t),
    ensures
        eps_path(states, p.push(t)),
        p.push(t)[0] == p[0],
        p.push(t).last() == t,
{
    assert forall|i: int| 0 <= i < p.push(t).len() - 1 implies eps_step(states, #[trigger] p.push(t)[i], p.push(t)[i + 1]) by {
        if i < p.len() - 1 {
            assert(p.push(t)[i] == p[i]);
            assert(p.push(t)[i + 1] == p[i + 1]);
        }
    }
}

/// Increasing lists have no repetitions.
pub proof fn lemma_sorted_no_dup(v: Seq<StateId>)
    requires
        sorted_ids(v),
    ensures
        v.no_duplicates(),
{
    assert forall|i: int, j: int| 0 <= i < v.len() && 0 <= j < v.len() && i != j implies v[i] != v[j] by {
        if i < j { assert(v[i].0 < v[j].0); } else { assert(v[j].0 < v[i].0); }
    }
}

/// A closed set containing the start of a path contains its end.
pub proof fn lemma_closed_contains_path(states: Seq<State>, c: Set<StateId>, p: Seq<StateId>)
    requires
        eps_closed(states, c),
        eps_path(states, p),
        c.contains(p[0]),
    ensures
        c.contains(p.last()),
    decreases p.len(),
{
    if p.len() > 1 {
        let q = p.drop_last();
        assert forall|i: int| 0 <= i < q.len() - 1 implies eps_step(states, #[trigger] q[i], q[i + 1]) by {
            assert(q[i] == p[i]);
            assert(q[i + 1] == p[i + 1]);
        }
        lemma_closed_contains_path(states, c, q);
        assert(eps_step(states, p[p.len() - 2], p[p.len() - 1]));
    }
}

/// A closed superset of `from` whose members are all reachable is the closure of `from`.
pub proof fn lemma_closure_characterized(states: Seq<State>, from: Set<StateId>, c: Set<StateId>)
    requires
        from.subset_of(c),
        eps_closed(states, c),
        forall|t: StateId| c.contains(t) ==> eps_reach(states, from, t),
    ensures
        c == eps_closure(states, from),
{
    assert forall|t: StateId| eps_reach(states, from, t) implies c.contains(t) by {
        let p = choose|p: Seq<StateId>| #[trigger] eps_path(states, p) && from.contains(p[0]) && p.last() == t;
        lemma_closed_contains_path(states, c, p);
    }
    assert(c =~= eps_closure(states, from));
}

/// Strictly increasing identifiers below `n` are at most `n` many.
pub proof fn lemma_ids_bounded(v: Seq<StateId>, n: nat)
    requires
        v.no_duplicates(),
        forall|i: int| 0 <= i < v.len() ==> (#[trigger] v[i]).0 < n,
    ensures
        v.len() <= n,
{
    let f = |x: StateId| x.0 as int;
    let w = v.map_values(f);
    assert forall|i: int, j: int| 0 <= i < w.len() && 0 <= j < w.len() && i != j implies w[i] != w[j] by {
        assert(v[i] != v[j]);
    }
    assert(w.no_duplicates());
    w.unique_seq_to_set();
    let r = Set::<int>::new(|x: int| 0 <= x < n);
    assert(w.to_set().subset_of(r));
    vstd::set_lib::lemma_int_range(0, n as int);
    assert(r =~= vstd::set_lib::set_int_range(0, n as int));
    vstd::set_lib::lemma_len_subset(w.to_set(), r);
}

/// Two increasing lists with the same members are the same list: an increasing list of states
/// (such as `vec_to_subset` and `epsilon_closure` give) is determined by its members.
pub proof fn lemma_sorted_ids_unique(a: Seq<StateId>, b: Seq<StateId>)
    requires
        sorted_ids(a),
        sorted_ids(b),
        a.to_set() == b.to_set(),
    ensures
        a == b,
    decreases a.len(),
{
    if a.len() == 0 {
        if b.len() > 0 {
            assert(b.to_set().contains(b[0]));
            assert(!a.to_set().contains(b[0]));
        }
        assert(a =~= b);
    } else {
        assert(a.to_set().contains(a[0]));
        assert(b.to_set().contains(a[0]));
        assert(b.len() > 0);
        assert(b.to_set().contains(b[0]));
        assert(a.to_set().contains(b[0]));
        let ia = choose|i: int| 0 <= i < a.len() && a[i] == b[0];
        let ib = choose|i: int| 0 <= i < b.len() && b[i] == a[0];
        assert(a[0] == b[0]) by {
            if ia > 0 { assert(a[0].0 < a[ia].0); }
            if ib > 0 { assert(b[0].0 < b[ib].0); }
        }
        let a1 = a.subrange(1, a.len() as int);
        let b1 = b.subrange(1, b.len() as int);
        assert forall|x: StateId| a1.to_set().contains(x) implies b1.to_set().contains(x) by {
            let k = choose|k: int| 0 <= k < a1.len() && a1[k] == x;
            assert(a[k + 1] == x);
            assert(a.to_set().contains(x));
            assert(b.to_set().contains(x));
            let kb = choose|kb: int| 0 <= kb < b.len() && b[kb] == x;
            assert(x.0 > a[0].0);
            assert(kb != 0);
            assert(b1[kb - 1] == x);
        }
        assert forall|x: StateId| b1.to_set().contains(x) implies a1.to_set().contains(x) by {
            let k = choose|k: int| 0 <= k < b1.len() && b1[k] == x;
            assert(b[k + 1] == x);
            assert(b.to_set().contains(x));
            assert(a.to_set().contains(x));
            let ka = choose|ka: int| 0 <= ka < a.len() && a[ka] == x;
            assert(x.0 > b[0].0);
            assert(ka != 0);
            assert(a1[ka - 1] == x);
        }
        assert(a1.to_set() =~= b1.to_set());
        lemma_sorted_ids_unique(a1, b1);
        assert forall|i: int| 0 <= i < a.len() implies a[i] == b[i] by {
            if i > 0 {
                assert(a[i] == a1[i - 1]);
                assert(b[i] == b1[i - 1]);
            }
        }
        assert(a =~= b);
    }
}

/// Inserts an identifier into an increasing list, keeping it increasing.
pub fn insert_sorted(v: &mut Vec<StateId>, x: StateId)
    requires
        sorted_ids(old(v)@),
        !old(v)@.contains(x),
    ensures
        sorted_ids(final(v)@),
        final(v)@.to_set() == old(v)@.to_set().insert(x),
        final(v)@.len() == old(v)@.len() + 1,
        final(v)@.contains(x),
        forall|i: int| 0 <= i < final(v)@.len() ==> #[trigger] final(v)@[i] == x || old(v)@.contains(final(v)@[i]),
{
    let mut i: usize = 0;
    while i < v.len() && v[i].0 < x.0
        invariant
            i <= v@.len(),
            forall|j: int| 0 <= j < i ==> (#[trigger] v@[j]).0 < x.0,
        decreases v@.len() - i,
    {
        i += 1;
    }
    let ghost before = v@;
    v.insert(i, x);
    proof {
        assert(v@ =~= before.subrange(0, i as int).push(x) + before.subrange(i as int, before.len() as int));
        assert forall|a: int, b: int| 0 <= a < b < v@.len() implies (#[trigger] v@[a]).0 < (#[trigger] v@[b]).0 by {
            if i < before.len() {
                assert(before[i as int].0 >= x.0);
                assert(before[i as int] != x);
                assert(before[i as int].0 != x.0);
            }
            if b > i && a < i {
                assert(before[a].0 < x.0);
            }
            if b > i && a == i {
                assert(before[b - 1].0 >= before[i as int].0);
            }
        }
        assert(v@[i as int] == x);
        assert forall|k: int| 0 <= k < v@.len() implies #[trigger] v@[k] == x || before.contains(v@[k]) by {
            if k < i { assert(v@[k] == before[k]); }
            if k > i { assert(v@[k] == before[k - 1]); }
        }
        assert forall|y: StateId| v@.to_set().contains(y) <==> before.to_set().insert(x).contains(y) by {
            if v@.to_set().contains(y) {
                let k = choose|k: int| 0 <= k < v@.len() && v@[k] == y;
                if y != x { assert(before.contains(y)); }
            }
            if before.to_set().contains(y) {
                let k = choose|k: int| 0 <= k < before.len() && before[k] == y;
                if k < i { assert(v@[k] == y); } else { assert(v@[k + 1] == y); }
                assert(v@.contains(y));
            }
            if y == x { assert(v@.contains(x)); }
        }
        assert(v@.to_set() =~= before.to_set().insert(x));
    }
}

/// The states reached from a list of states by empty transitions, as an increasing list.
pub fn closure_of(nfa_states: &Vec<State>, from: &Vec<StateId>) -> (c: Vec<StateId>)
    requires
        states_wf(nfa_states@),
        forall|i: int| 0 <= i < from@.len() ==> (#[trigger] from@[i]).0 < nfa_states@.len(),
    ensures
        sorted_ids(c@),
        c@.to_set() == eps_closure(nfa_states@, from@.to_set()),
        forall|i: int| 0 <= i < c@.len() ==> (#[trigger] c@[i]).0 < nfa_states@.len(),
{
    let ghost g = nfa_states@;
    let ghost src = from@.to_set();
    let n = nfa_states.len();
    let mut closure: Vec<StateId> = Vec::new();
    let mut stack: Vec<StateId> = Vec::new();
    let mut k: usize = 0;
    while k < from.len()
        invariant
            g == nfa_states@,
            n == g.len(),
            states_wf(g),
            src == from@.to_set(),
            forall|i: int| 0 <= i < from@.len() ==> (#[trigger] from@[i]).0 < n,
            k <= from@.len(),
            sorted_ids(closure@),
            closure@.to_set() == from@.take(k as int).to_set(),
            stack@.no_duplicates(),
            stack@.to_set() == closure@.to_set(),
            forall|i: int| 0 <= i < closure@.len() ==> (#[trigger] closure@[i]).0 < n,
        decreases from@.len() - k,
    {
        let s = from[k];
        proof {
            assert(from@.take(k + 1) =~= from@.take(k as int).push(s));
            from@.take(k as int).lemma_push_to_set_commute(s);
        }
        if !contains_state(&closure, s) {
            let ghost cb = closure@;
            insert_sorted(&mut closure, s);
            proof {
                assert(!stack@.contains(s)) by {
                    if stack@.contains(s) {
                        assert(stack@.to_set().contains(s));
                        assert(cb.to_set().contains(s));
                        assert(cb.contains(s));
                    }
                }
                assert forall|i: int| 0 <= i < closure@.len() implies (#[trigger] closure@[i]).0 < n by {
                    if closure@[i] != s {
                        let j = choose|j: int| 0 <= j < cb.len() && cb[j] == closure@[i];
                    }
                }
            }
            let ghost sb = stack@;
            stack.push(s);
            proof {
                assert(stack@ == sb.push(s));
                sb.lemma_push_to_set_commute(s);
                assert(stack@.to_set() =~= closure@.to_set());
                assert(stack@.no_duplicates()) by {
                    assert forall|a: int, b: int| 0 <= a < stack@.len() && 0 <= b < stack@.len() && a != b implies stack@[a] != stack@[b] by {
                        if a == sb.len() as int { assert(sb.contains(stack@[b])); }
                        if b == sb.len() as int { assert(sb.contains(stack@[a])); }
                    }
                }
            }
        } else {
            proof {
                assert(closure@.to_set().contains(s));
            }
        }
        k += 1;
    }
    assert(from@.take(from@.len() as int) =~= from@);
    proof {
        assert forall|t: StateId| closure@.to_set().contains(t) implies eps_reach(g, src, t) by {
            assert(eps_path(g, seq![t]));
        }
    }
    while stack.len() > 0
        invariant
            g == nfa_states@,
            n == g.len(),
            states_wf(g),
            src == from@.to_set(),
            sorted_ids(closure@),
            src.subset_of(closure@.to_set()),
            forall|i: int| 0 <= i < closure@.len() ==> (#[trigger] closure@[i]).0 < n,
            forall|t: StateId| closure@.to_set().contains(t) ==> eps_reach(g, src, t),
            stack@.no_duplicates(),
            stack@.to_set().subset_of(closure@.to_set()),
            forall|s: StateId, t: StateId|
                closure@.to_set().contains(s) && !stack@.to_set().contains(s) && #[trigger] eps_step(g, s, t)
                    ==> closure@.to_set().contains(t),
        decreases n - closure@.len(), stack@.len(),
    {
        proof {
            lemma_sorted_no_dup(closure@);
            lemma_ids_bounded(closure@, n as nat);
        }
        let ghost closure_before = closure@;
        let ghost stack_before = stack@;
        let sid = stack.pop().unwrap();
        proof {
            assert(stack_before =~= stack@.push(sid));
            assert(stack_before.to_set().contains(sid));
            assert(!stack@.contains(sid));
            assert(stack@.to_set().subset_of(closure@.to_set())) by {
                assert forall|x: StateId| stack@.to_set().contains(x) implies closure@.to_set().contains(x) by {
                    let j = choose|j: int| 0 <= j < stack@.len() && stack@[j] == x;
                    assert(stack_before[j] == x);
                    assert(stack_before.to_set().contains(x));
                }
            }
        }
        let state = &nfa_states[sid.0];
        let mut e: usize = 0;
        while e < state.transitions.len()
            invariant
                g == nfa_states@,
                n == g.len(),
                states_wf(g),
                src == from@.to_set(),
                *state == g[sid.0 as int],
                sid.0 < n,
                closure@.to_set().contains(sid),
                eps_reach(g, src, sid),
                e <= state.transitions@.len(),
                sorted_ids(closure@),
                closure_before.len() <= closure@.len(),
                closure@.len() == closure_before.len() ==> stack@.len() < stack_before.len(),
                src.subset_of(closure@.to_set()),
                forall|i: int| 0 <= i < closure@.len() ==> (#[trigger] closure@[i]).0 < n,
                forall|t: StateId| closure@.to_set().contains(t) ==> eps_reach(g, src, t),
                stack@.no_duplicates(),
                !stack@.contains(sid),
                stack@.to_set().subset_of(closure@.to_set()),
                forall|s: StateId, t: StateId|
                    closure@.to_set().contains(s) && !stack@.to_set().contains(s) && s != sid && #[trigger] eps_step(g, s, t)
                        ==> closure@.to_set().contains(t),
                forall|k2: int| 0 <= k2 < e && (#[trigger] state.transitions@[k2]).0 is None
                    ==> closure@.to_set().contains(state.transitions@[k2].1),
            decreases state.transitions@.len() - e,
        {
            let (label, t) = state.transitions[e];
            if label.is_none() && !contains_state(&closure, t) {
                proof {
                    assert(state.transitions@[e as int] == (label, t));
                    assert(state.has_edge(None, t));
                    assert(eps_step(g, sid, t));
                    let p = choose|p: Seq<StateId>| #[trigger] eps_path(g, p) && src.contains(p[0]) && p.last() == sid;
                    lemma_path_extend(g, p, t);
                    assert(eps_reach(g, src, t));
                    assert(!closure@.to_set().contains(t)) by {
                        if closure@.to_set().contains(t) {
                            let j = choose|j: int| 0 <= j < closure@.len() && closure@[j] == t;
                            assert(closure@.contains(t));
                        }
                    }
                    assert(!stack@.contains(t)) by {
                        if stack@.contains(t) { assert(stack@.to_set().contains(t)); }
                    }
                }
                let ghost cb = closure@;
                insert_sorted(&mut closure, t);
                proof {
                    assert forall|i: int| 0 <= i < closure@.len() implies (#[trigger] closure@[i]).0 < n by {
                        if closure@[i] != t {
                            let j = choose|j: int| 0 <= j < cb.len() && cb[j] == closure@[i];
                        } else {
                            assert(g[sid.0 as int].transitions@[e as int].1.0 < n);
                        }
                    }
                    assert(cb.to_set().subset_of(closure@.to_set()));
                }
                let ghost sb = stack@;
                stack.push(t);
                proof {
                    assert(stack@ =~= sb.push(t));
                    sb.lemma_push_to_set_commute(t);
                    assert forall|x: StateId| closure@.to_set().contains(x) implies eps_reach(g, src, x) by {
                        if x != t { assert(cb.to_set().contains(x)); }
                    }
                    assert(stack@.no_duplicates()) by {
                        assert forall|a: int, b: int| 0 <= a < stack@.len() && 0 <= b < stack@.len() && a != b implies stack@[a] != stack@[b] by {
                            if a == sb.len() as int { assert(!sb.contains(t)); assert(sb.contains(stack@[b])); }
                            if b == sb.len() as int { assert(!sb.contains(t)); assert(sb.contains(stack@[a])); }
                        }
                    }
                    assert(!stack@.contains(sid)) by {
                        if stack@.contains(sid) {
                            let j = choose|j: int| 0 <= j < stack@.len() && stack@[j] == sid;
                            if j < sb.len() { assert(sb.contains(sid)); }
                        }
                    }
                }
            } else {
                proof {
                    if label.is_none() {
                        assert(closure@.contains(t));
                        assert(closure@.to_set().contains(t));
                    }
                }
            }
            e += 1;
        }
        proof {
            assert forall|s: StateId, t: StateId|
                closure@.to_set().contains(s) && !stack@.to_set().contains(s) && #[trigger] eps_step(g, s, t)
                    implies closure@.to_set().contains(t) by {
                if s == sid {
                    assert(g[sid.0 as int].transitions@.contains((None, t)));
                    let k2 = choose|k2: int| 0 <= k2 < g[sid.0 as int].transitions@.len() && g[sid.0 as int].transitions@[k2] == (None::<RegexChar>, t);
                    assert(state.transitions@[k2].0 is None);
                } else {
                    assert(!stack@.contains(s));
                }
            }
            lemma_sorted_no_dup(closure@);
            lemma_ids_bounded(closure@, n as nat);
        }
    }
    proof {
        assert(stack@.to_set() =~= Set::<StateId>::empty());
        assert(eps_closed(g, closure@.to_set()));
        lemma_closure_characterized(g, src, closure@.to_set());
    }
    closure
}

/// The states reached from a list of states by one transition on `symbol`, as an
/// increasing list.
pub fn move_of(nfa_states: &Vec<State>, from: &Vec<StateId>, symbol: RegexChar) -> (m: Vec<StateId>)
    requires
        states_wf(nfa_states@),
        forall|i: int| 0 <= i < from@.len() ==> (#[trigger] from@[i]).0 < nfa_states@.len(),
    ensures
        sorted_ids(m@),
        m@.to_set() == move_set(nfa_states@, from@.to_set(), symbol),
        forall|i: int| 0 <= i < m@.len() ==> (#[trigger] m@[i]).0 < nfa_states@.len(),
{
    let ghost g = nfa_states@;
    let mut result: Vec<StateId> = Vec::new();
    let mut k: usize = 0;
    while k < from.len()
        invariant
            g == nfa_states@,
            states_wf(g),
            forall|i: int| 0 <= i < from@.len() ==> (#[trigger] from@[i]).0 < g.len(),
            k <= from@.len(),
            sorted_ids(result@),
            result@.to_set() == move_set(g, from@.take(k as int).to_set(), symbol),
            forall|i: int| 0 <= i < result@.len() ==> (#[trigger] result@[i]).0 < g.len(),
        decreases from@.len() - k,
    {
        let s = from[k];
        let state = &nfa_states[s.0];
        let ghost before = result@;
        let mut e: usize = 0;
        while e < state.transitions.len()
            invariant
                g == nfa_states@,
                states_wf(g),
                s.0 < g.len(),
                *state == g[s.0 as int],
                e <= state.transitions@.len(),
                sorted_ids(result@),
                result@.to_set() == before.to_set().union(Set::new(|t: StateId| exists|k2: int| 0 <= k2 < e
                    && #[trigger] state.transitions@[k2] == (Some(symbol), t))),
                forall|i: int| 0 <= i < result@.len() ==> (#[trigger] result@[i]).0 < g.len(),
            decreases state.transitions@.len() - e,
        {
            let (label, t) = state.transitions[e];
            let hit = match label {
                Some(l) => l == symbol,
                None => false,
            };
            let ghost rb = result@;
            if hit && !contains_state(&result, t) {
                insert_sorted(&mut result, t);
            }
            proof {
                assert(state.transitions@[e as int] == (label, t));
                assert forall|i: int| 0 <= i < result@.len() implies (#[trigger] result@[i]).0 < g.len() by {
                    if !rb.to_set().contains(result@[i]) {
                        assert(result@.to_set().contains(result@[i]));
                        assert(result@[i] == t);
                        assert(g[s.0 as int].transitions@[e as int].1.0 < g.len());
                    } else {
                        let j = choose|j: int| 0 <= j < rb.len() && rb[j] == result@[i];
                    }
                }
                if hit {
                    assert(label == Some(symbol));
                    if rb.contains(t) { assert(rb.to_set().contains(t)); }
                }
                assert(result@.to_set() =~= before.to_set().union(Set::new(|t2: StateId| exists|k2: int| 0 <= k2 < e + 1
                    && #[trigger] state.transitions@[k2] == (Some(symbol), t2))));
            }
            e += 1;
        }
        proof {
            assert(from@.take(k + 1) =~= from@.take(k as int).push(s));
            from@.take(k as int).lemma_push_to_set_commute(s);
            assert(result@.to_set() =~= move_set(g, from@.take(k + 1).to_set(), symbol)) by {
                assert forall|t: StateId| move_set(g, from@.take(k + 1).to_set(), symbol).contains(t)
                    implies result@.to_set().contains(t) by {
                    let s2 = choose|s2: StateId| from@.take(k + 1).to_set().contains(s2) && 0 <= s2.0 < g.len()
                        && #[trigger] g[s2.0 as int].has_edge(Some(symbol), t);
                    if s2 != s {
                        assert(move_set(g, from@.take(k as int).to_set(), symbol).contains(t));
                    } else {
                        let k2 = choose|k2: int| 0 <= k2 < state.transitions@.len() && state.transitions@[k2] == (Some(symbol), t);
                    }
                }
                assert forall|t: StateId| result@.to_set().contains(t)
                    implies move_set(g, from@.take(k + 1).to_set(), symbol).contains(t) by {
                    if before.to_set().contains(t) {
                        let s2 = choose|s2: StateId| from@.take(k as int).to_set().contains(s2) && 0 <= s2.0 < g.len()
                            && #[trigger] g[s2.0 as int].has_edge(Some(symbol), t);
                        assert(from@.take(k + 1).to_set().contains(s2));
                    } else {
                        assert(Set::new(|t2: StateId| exists|k2: int| 0 <= k2 < state.transitions@.len()
                            && #[trigger] state.transitions@[k2] == (Some(symbol), t2)).contains(t));
                        let k2 = choose|k2: int| 0 <= k2 < state.transitions@.len() && #[trigger] state.transitions@[k2] == (Some(symbol), t);
                        assert(g[s.0 as int].transitions@.contains((Some(symbol), t)));
                        assert(g[s.0 as int].has_edge(Some(symbol), t));
                        assert(from@.take(k + 1).to_set().contains(s));
                    }
                }
            }
        }
        k += 1;
    }
    assert(from@.take(from@.len() as int) =~= from@);
    result
}

} // verus!
