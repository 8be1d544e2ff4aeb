//! Sets of automaton states as increasing identifier lists: their names, and the closure and
//! move operations the subset construction uses.

use vstd::prelude::*;
use crate::text::{decimal, digit_char, push_char, append_usize};
use crate::regex::node::RegexChar;
use crate::nfa::state::{StateId, State, states_wf};
use crate::nfa::nfa::contains_state;
use crate::nfa::closure::{
    sorted_ids, eps_closure, eps_reach, eps_path, eps_step, move_set, insert_sorted, closure_of,
    move_of,
};

verus! {

/// The decimal identifiers of a list, separated by commas.
pub open spec fn joined_ids(ids: Seq<StateId>) -> Seq<char>
    decreases ids.len(),
{
    if ids.len() == 0 {
        seq![]
    } else if ids.len() == 1 {
        decimal(ids[0].0 as nat)
    } else {
        joined_ids(ids.drop_last()) + seq![','] + decimal(ids.last().0 as nat)
    }
}

/// The name of a set of states: its identifiers in braces, separated by commas, such as
/// `{0,3,4}`.
pub open spec fn subset_name(ids: Seq<StateId>) -> Seq<char> {
    seq!['{'] + joined_ids(ids) + seq!['}']
}

/// A decimal rendering is made of digits and is not empty.
pub proof fn lemma_decimal_digits(n: nat)
    ensures
        decimal(n).len() >= 1,
        n >= 10 ==> decimal(n).len() >= 2,
        forall|i: int| 0 <= i < decimal(n).len() ==> '0' <= #[trigger] decimal(n)[i] <= '9',
    decreases n,
{
    if n >= 10 {
        lemma_decimal_digits(n / 10);
    }
}

/// Different numbers have different decimal renderings.
pub proof fn lemma_decimal_injective(n: nat, m: nat)
    requires
        decimal(n) == decimal(m),
    ensures
        n == m,
    decreases n,
{
    lemma_decimal_digits(n);
    lemma_decimal_digits(m);
    if n >= 10 && m >= 10 {
        let a = decimal(n);
        assert(a.drop_last() == decimal(n / 10));
        assert(decimal(m).drop_last() == decimal(m / 10));
        assert(a.last() == digit_char(n % 10));
        assert(decimal(m).last() == digit_char(m % 10));
        lemma_decimal_injective(n / 10, m / 10);
    } else if n < 10 && m < 10 {
        assert(decimal(n)[0] == digit_char(n));
        assert(decimal(m)[0] == digit_char(m));
    }
}

/// The comma-separated rendering has no comma exactly when the list has at most one entry.
pub proof fn lemma_joined_shape(ids: Seq<StateId>)
    ensures
        ids.len() == 0 <==> joined_ids(ids).len() == 0,
        ids.len() == 1 ==> forall|i: int| 0 <= i < joined_ids(ids).len() ==> #[trigger] joined_ids(ids)[i] != ',',
        ids.len() >= 2 ==> joined_ids(ids) == joined_ids(ids.drop_last()) + seq![','] + decimal(ids.last().0 as nat),
{
    if ids.len() == 1 {
        lemma_decimal_digits(ids[0].0 as nat);
    } else if ids.len() >= 2 {
        lemma_decimal_digits(ids.last().0 as nat);
    }
}

/// Different lists have different comma-separated renderings.
pub proof fn lemma_joined_injective(a: Seq<StateId>, b: Seq<StateId>)
    requires
        joined_ids(a) == joined_ids(b),
    ensures
        a == b,
    decreases a.len(),
{
    lemma_joined_shape(a);
    lemma_joined_shape(b);
    if a.len() == 0 {
        assert(b.len() == 0);
        assert(a =~= b);
    } else if a.len() == 1 && b.len() == 1 {
        lemma_decimal_injective(a[0].0 as nat, b[0].0 as nat);
        assert(a =~= b);
    } else if a.len() == 1 {
        let x = joined_ids(b.drop_last());
        assert(joined_ids(b)[x.len() as int] == ',');
        assert(false);
    } else if b.len() == 1 {
        let x = joined_ids(a.drop_last());
        assert(joined_ids(a)[x.len() as int] == ',');
        assert(false);
    } else {
        let x = joined_ids(a.drop_last());
        let y = joined_ids(b.drop_last());
        let d1 = decimal(a.last().0 as nat);
        let d2 = decimal(b.last().0 as nat);
        let whole = joined_ids(a);
        lemma_decimal_digits(a.last().0 as nat);
        lemma_decimal_digits(b.last().0 as nat);
        if d1.len() < d2.len() {
            let p = x.len() as int;
            assert(whole[p] == ',');
            assert(whole[p] == d2[p - y.len() - 1]);
            assert(false);
        } else if d2.len() < d1.len() {
            let p = y.len() as int;
            assert(joined_ids(b)[p] == ',');
            assert(whole[p] == d1[p - x.len() - 1]);
            assert(false);
        }
        assert(x =~= whole.subrange(0, x.len() as int));
        assert(y =~= whole.subrange(0, y.len() as int));
        assert(d1 =~= whole.subrange(x.len() as int + 1, whole.len() as int));
        assert(d2 =~= whole.subrange(y.len() as int + 1, whole.len() as int));
        lemma_joined_injective(a.drop_last(), b.drop_last());
        lemma_decimal_injective(a.last().0 as nat, b.last().0 as nat);
        assert(a =~= a.drop_last().push(a.last()));
        assert(b =~= b.drop_last().push(b.last()));
    }
}

/// Different sets of states have different names.
pub proof fn lemma_subset_name_injective(a: Seq<StateId>, b: Seq<StateId>)
    requires
        subset_name(a) == subset_name(b),
    ensures
        a == b,
{
    let na = subset_name(a);
    assert(joined_ids(a) =~= na.subrange(1, na.len() - 1));
    assert(joined_ids(b) =~= subset_name(b).subrange(1, na.len() - 1));
    lemma_joined_injective(a, b);
}

/// The name of a set of states (the members in increasing order).
pub fn subset_to_string(subset: &Vec<StateId>) -> (s: String)
    requires
        sorted_ids(subset@),
    ensures
        s@ == subset_name(subset@),
{
    let mut s = String::new();
    push_char(&mut s, '{');
    let mut i: usize = 0;
    while i < subset.len()
        invariant
            i <= subset@.len(),
            s@ == seq!['{'] + joined_ids(subset@.take(i as int)),
        decreases subset@.len() - i,
    {
        let ghost before = s@;
        if i > 0 {
            push_char(&mut s, ',');
        }
        append_usize(&mut s, subset[i].0);
        proof {
            let t = subset@.take(i + 1);
            assert(t.drop_last() =~= subset@.take(i as int));
            assert(t.last() == subset@[i as int]);
            if i == 0 {
                assert(joined_ids(subset@.take(0)) =~= Seq::<char>::empty());
                assert(s@ =~= seq!['{'] + joined_ids(t));
            } else {
                assert(s@ =~= seq!['{'] + joined_ids(t));
            }
        }
        i += 1;
    }
    push_char(&mut s, '}');
    assert(subset@.take(subset@.len() as int) =~= subset@);
    s
}

/// The set of the identifiers of a list, as an increasing list.
pub fn vec_to_subset(vec: Vec<StateId>) -> (r: Vec<StateId>)
    ensures
        sorted_ids(r@),
        r@.to_set() == vec@.to_set(),
{
    let mut r: Vec<StateId> = Vec::new();
    let mut i: usize = 0;
    while i < vec.len()
        invariant
            i <= vec@.len(),
            sorted_ids(r@),
            r@.to_set() == vec@.take(i as int).to_set(),
        decreases vec@.len() - i,
    {
        let x = vec[i];
        assert(vec@.take(i + 1) =~= vec@.take(i as int).push(x));
        proof { vec@.take(i as int).lemma_push_to_set_commute(x); }
        if !contains_state(&r, x) {
            insert_sorted(&mut r, x);
        } else {
            assert(r@.to_set().contains(x));
        }
        assert(r@.to_set() =~= vec@.take(i + 1).to_set());
        i += 1;
    }
    assert(vec@.take(vec@.len() as int) =~= vec@);
    r
}

/// A state outside the table reaches nothing but itself by empty transitions; the closure of
/// a set is that of its members in the table together with its other members.
pub proof fn lemma_closure_split(g: Seq<State>, from: Set<StateId>, valid: Set<StateId>, t: StateId)
    requires
        valid == from.filter(|x: StateId| x.0 < g.len()),
    ensures
        eps_reach(g, from, t) <==> (eps_reach(g, valid, t) || (from.contains(t) && t.0 >= g.len())),
{
    if eps_reach(g, from, t) {
        let p = choose|p: Seq<StateId>| #[trigger] eps_path(g, p) && from.contains(p[0]) && p.last() == t;
        if p[0].0 >= g.len() {
            if p.len() > 1 {
                assert(eps_step(g, p[0], p[1]));
            }
        } else {
            assert(valid.contains(p[0]));
        }
    }
    if eps_reach(g, valid, t) {
        let p = choose|p: Seq<StateId>| #[trigger] eps_path(g, p) && valid.contains(p[0]) && p.last() == t;
        assert(from.contains(p[0]));
    }
    if from.contains(t) && t.0 >= g.len() {
        let p = seq![t];
        assert(eps_path(g, p));
    }
}

/// The states reached from `states` by empty transitions (possibly none), as an increasing
/// list; a state outside the table is kept and not followed.
pub fn epsilon_closure(states: &Vec<StateId>, nfa_states: &Vec<State>) -> (c: Vec<StateId>)
    requires
        states_wf(nfa_states@),
    ensures
        sorted_ids(c@),
        c@.to_set() == eps_closure(nfa_states@, states@.to_set()),
        (forall|i: int| 0 <= i < states@.len() ==> (#[trigger] states@[i]).0 < nfa_states@.len())
            ==> (forall|i: int| 0 <= i < c@.len() ==> (#[trigger] c@[i]).0 < nfa_states@.len()),
{
    let ghost g = nfa_states@;
    let n = nfa_states.len();
    let mut valid: Vec<StateId> = Vec::new();
    let mut outside: Vec<StateId> = Vec::new();
    let mut i: usize = 0;
    while i < states.len()
        invariant
            n == g.len(),
            i <= states@.len(),
            sorted_ids(outside@),
            forall|k: int| 0 <= k < valid@.len() ==> (#[trigger] valid@[k]).0 < n,
            valid@.to_set() == states@.take(i as int).to_set().filter(|x: StateId| x.0 < g.len()),
            outside@.to_set() == states@.take(i as int).to_set().filter(|x: StateId| x.0 >= g.len()),
        decreases states@.len() - i,
    {
        let x = states[i];
        assert(states@.take(i + 1) =~= states@.take(i as int).push(x));
        proof { states@.take(i as int).lemma_push_to_set_commute(x); }
        if x.0 < n {
            proof { valid@.lemma_push_to_set_commute(x); }
            valid.push(x);
        } else if !contains_state(&outside, x) {
            insert_sorted(&mut outside, x);
        } else {
            assert(outside@.to_set().contains(x));
        }
        assert(valid@.to_set() =~= states@.take(i + 1).to_set().filter(|x: StateId| x.0 < g.len()));
        assert(outside@.to_set() =~= states@.take(i + 1).to_set().filter(|x: StateId| x.0 >= g.len()));
        i += 1;
    }
    assert(states@.take(states@.len() as int) =~= states@);
    let mut c = closure_of(nfa_states, &valid);
    let ghost from = states@.to_set();
    let ghost vset = valid@.to_set();
    let mut j: usize = 0;
    while j < outside.len()
        invariant
            n == g.len(),
            j <= outside@.len(),
            sorted_ids(c@),
            sorted_ids(outside@),
            outside@.to_set() == from.filter(|x: StateId| x.0 >= g.len()),
            c@.to_set() == eps_closure(g, vset) + outside@.take(j as int).to_set(),
            forall|k: int| 0 <= k < c@.len() ==> (#[trigger] c@[k]).0 < n || outside@.take(j as int).contains(c@[k]),
        decreases outside@.len() - j,
    {
        let y = outside[j];
        assert(outside@.take(j + 1) =~= outside@.take(j as int).push(y));
        assert(outside@.to_set().contains(y));
        assert(y.0 >= n);
        proof {
            if c@.contains(y) {
                let k = choose|k: int| 0 <= k < c@.len() && c@[k] == y;
                let q = choose|q: int| 0 <= q < j && outside@[q] == y;
                assert(outside@[q].0 < outside@[j as int].0);
            }
        }
        let ghost cb = c@;
        proof { outside@.take(j as int).lemma_push_to_set_commute(y); }
        insert_sorted(&mut c, y);
        assert forall|k: int| 0 <= k < c@.len() implies (#[trigger] c@[k]).0 < n || outside@.take(j + 1).contains(c@[k]) by {
            if c@[k] != y {
                assert(cb.contains(c@[k]));
                let k2 = choose|k2: int| 0 <= k2 < cb.len() && cb[k2] == c@[k];
                if cb[k2].0 >= n {
                    let q = choose|q: int| 0 <= q < j && outside@.take(j as int)[q] == cb[k2];
                    assert(outside@.take(j + 1)[q] == cb[k2]);
                }
            } else {
                assert(outside@.take(j + 1)[j as int] == y);
            }
        }
        assert(c@.to_set() =~= eps_closure(g, vset) + outside@.take(j + 1).to_set());
        j += 1;
    }
    proof {
        assert(outside@.take(outside@.len() as int) =~= outside@);
        if forall|i: int| 0 <= i < states@.len() ==> (#[trigger] states@[i]).0 < n {
            if outside@.len() > 0 {
                assert(outside@.to_set().contains(outside@[0]));
                assert(from.contains(outside@[0]));
                let q = choose|q: int| 0 <= q < states@.len() && states@[q] == outside@[0];
                assert(states@[q].0 < n);
            }
        }
        assert(vset == from.filter(|x: StateId| x.0 < g.len())) by {
            assert(vset =~= from.filter(|x: StateId| x.0 < g.len()));
        }
        assert forall|t: StateId| c@.to_set().contains(t) <==> eps_closure(g, from).contains(t) by {
            lemma_closure_split(g, from, vset, t);
        }
        assert(c@.to_set() =~= eps_closure(g, from));
    }
    c
}

/// The states reached from `states` by one transition on `symbol`, as an increasing list; a
/// state outside the table has no transitions.
pub fn move_on_symbol(states: &Vec<StateId>, symbol: &RegexChar, nfa_states: &Vec<State>) -> (m: Vec<StateId>)
    requires
        states_wf(nfa_states@),
    ensures
        sorted_ids(m@),
        m@.to_set() == move_set(nfa_states@, states@.to_set(), *symbol),
        forall|i: int| 0 <= i < m@.len() ==> (#[trigger] m@[i]).0 < nfa_states@.len(),
{
    let ghost g = nfa_states@;
    let n = nfa_states.len();
    let mut valid: Vec<StateId> = Vec::new();
    let mut i: usize = 0;
    while i < states.len()
        invariant
            n == g.len(),
            i <= states@.len(),
            forall|k: int| 0 <= k < valid@.len() ==> (#[trigger] valid@[k]).0 < n,
            valid@.to_set() == states@.take(i as int).to_set().filter(|x: StateId| x.0 < g.len()),
        decreases states@.len() - i,
    {
        let x = states[i];
        assert(states@.take(i + 1) =~= states@.take(i as int).push(x));
        proof { states@.take(i as int).lemma_push_to_set_commute(x); }
        if x.0 < n {
            proof { valid@.lemma_push_to_set_commute(x); }
            valid.push(x);
        }
        assert(valid@.to_set() =~= states@.take(i + 1).to_set().filter(|x: StateId| x.0 < g.len()));
        i += 1;
    }
    assert(states@.take(states@.len() as int) =~= states@);
    let m = move_of(nfa_states, &valid, *symbol);
    assert(m@.to_set() =~= move_set(g, states@.to_set(), *symbol));
    m
}

} // verus!
