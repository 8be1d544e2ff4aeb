//! FIRST and FOLLOW sets and the LL(1) parse table of a grammar.

use vstd::prelude::*;
use crate::parser::grammar::Production;
use crate::parser::utils::{is_terminal, is_terminal_spec, is_lhs};

verus! {

/// For each symbol, its FIRST set.
pub type FirstSets = Vec<(String, Vec<String>)>;

/// For each nonterminal, its FOLLOW set.
pub type FollowSets = Vec<(String, Vec<String>)>;

/// For each nonterminal and each lookahead terminal, the right-hand side to expand.
pub type LL1Table = Vec<(String, Vec<(String, Vec<String>)>)>;

/// The strings of a list, as plain character sequences.
pub open spec fn views(v: Seq<String>) -> Seq<Seq<char>> {
    v.map_values(|s: String| s@)
}

/// The set recorded for `key` (its first entry), as plain strings; empty if there is none.
pub open spec fn set_at(sets: Seq<(String, Vec<String>)>, key: Seq<char>) -> Set<Seq<char>>
    decreases sets.len(),
{
    if sets.len() == 0 {
        Set::empty()
    } else if sets[0].0@ == key {
        views(sets[0].1@).to_set()
    } else {
        set_at(sets.subrange(1, sets.len() as int), key)
    }
}

/// The sets as a function from symbols to sets of strings.
pub open spec fn sets_fn(sets: Seq<(String, Vec<String>)>) -> spec_fn(Seq<char>) -> Set<Seq<char>> {
    |k: Seq<char>| set_at(sets, k)
}

/// Some entry is recorded for `key`.
pub open spec fn has_key(sets: Seq<(String, Vec<String>)>, key: Seq<char>) -> bool {
    exists|i: int| 0 <= i < sets.len() && (#[trigger] sets[i]).0@ == key
}

/// No two entries share a key.
pub open spec fn keys_distinct(sets: Seq<(String, Vec<String>)>) -> bool {
    forall|i: int, j: int| 0 <= i < j < sets.len() ==> (#[trigger] sets[i]).0@ != (#[trigger] sets[j]).0@
}

/// No set lists a string twice.
pub open spec fn sets_nodup(sets: Seq<(String, Vec<String>)>) -> bool {
    forall|i: int| 0 <= i < sets.len() ==> views((#[trigger] sets[i]).1@).no_duplicates()
}

/// The symbol occurs in some production, on either side.
pub open spec fn grammar_symbol(productions: Seq<Production>, k: Seq<char>) -> bool {
    is_lhs(productions, k) || exists|q: int, j: int| 0 <= q < productions.len() && 0 <= j < productions[q].rhs@.len()
        && (#[trigger] productions[q].rhs@[j])@ == k
}

/// Each of the first `j` symbols of `rhs` has `ε` in its set.
pub open spec fn nullable_prefix(rhs: Seq<String>, f: spec_fn(Seq<char>) -> Set<Seq<char>>, j: int) -> bool {
    forall|m: int| 0 <= m < j ==> #[trigger] f(rhs[m]@).contains("ε"@)
}

/// The FIRST rules of one production hold of `f`: what a symbol after a prefix that may be
/// empty can start with, other than `ε`, the left-hand side can start with; and if the whole
/// right-hand side may be empty, so may the left-hand side.
pub open spec fn first_rule_holds(p: Production, f: spec_fn(Seq<char>) -> Set<Seq<char>>) -> bool {
    &&& forall|j: int, t: Seq<char>| 0 <= j < p.rhs@.len() && nullable_prefix(p.rhs@, f, j)
        && #[trigger] f(p.rhs@[j]@).contains(t) && t != "ε"@ ==> f(p.lhs@).contains(t)
    &&& nullable_prefix(p.rhs@, f, p.rhs@.len() as int) ==> f(p.lhs@).contains("ε"@)
}

/// The FIRST rules hold of `f`: each terminal of the grammar (`ε` among them, where it
/// occurs) starts with itself, and the rules of every production hold.
pub open spec fn first_closed(productions: Seq<Production>, f: spec_fn(Seq<char>) -> Set<Seq<char>>) -> bool {
    &&& forall|k: Seq<char>| #[trigger] grammar_symbol(productions, k) && is_terminal_spec(productions, k) ==> f(k).contains(k)
    &&& forall|q: int| 0 <= q < productions.len() ==> #[trigger] first_rule_holds(productions[q], f)
}

/// Each set recorded in `sets` is contained in the corresponding set of `f`.
pub open spec fn sets_within(sets: Seq<(String, Vec<String>)>, f: spec_fn(Seq<char>) -> Set<Seq<char>>) -> bool {
    forall|i: int, e: int| 0 <= i < sets.len() && 0 <= e < sets[i].1@.len()
        ==> f(sets[i].0@).contains(#[trigger] sets[i].1@[e]@)
}

/// With distinct keys, the set of an entry's key is that entry's set.
pub proof fn lemma_set_at_index(sets: Seq<(String, Vec<String>)>, i: int)
    requires
        keys_distinct(sets),
        0 <= i < sets.len(),
    ensures
        set_at(sets, sets[i].0@) == views(sets[i].1@).to_set(),
    decreases sets.len(),
{
    if i > 0 {
        let rest = sets.subrange(1, sets.len() as int);
        assert(sets[0].0@ != sets[i].0@);
        assert(rest[i - 1] == sets[i]);
        lemma_set_at_index(rest, i - 1);
    }
}

/// Without an entry for `key`, its set is empty.
pub proof fn lemma_set_at_missing(sets: Seq<(String, Vec<String>)>, key: Seq<char>)
    requires
        !has_key(sets, key),
    ensures
        set_at(sets, key) == Set::<Seq<char>>::empty(),
    decreases sets.len(),
{
    if sets.len() > 0 {
        let rest = sets.subrange(1, sets.len() as int);
        assert(!has_key(rest, key)) by {
            if has_key(rest, key) {
                let i = choose|i: int| 0 <= i < rest.len() && (#[trigger] rest[i]).0@ == key;
                assert(sets[i + 1] == rest[i]);
            }
        }
        lemma_set_at_missing(rest, key);
    }
}

/// The recorded sets, looked up, are contained in `f` when each entry's set is.
pub proof fn lemma_within_lookup(sets: Seq<(String, Vec<String>)>, f: spec_fn(Seq<char>) -> Set<Seq<char>>)
    requires
        keys_distinct(sets),
        sets_within(sets, f),
    ensures
        forall|k: Seq<char>| #[trigger] set_at(sets, k).subset_of(f(k)),
{
    assert forall|k: Seq<char>| #[trigger] set_at(sets, k).subset_of(f(k)) by {
        if has_key(sets, k) {
            let i = choose|i: int| 0 <= i < sets.len() && (#[trigger] sets[i]).0@ == k;
            lemma_set_at_index(sets, i);
            assert forall|t: Seq<char>| set_at(sets, k).contains(t) implies f(k).contains(t) by {
                let e = choose|e: int| 0 <= e < views(sets[i].1@).len() && views(sets[i].1@)[e] == t;
                assert(sets[i].1@[e]@ == t);
            }
        } else {
            lemma_set_at_missing(sets, k);
        }
    }
}

/// The position of the entry for `key`, if any.
pub fn find_key(sets: &Vec<(String, Vec<String>)>, key: &String) -> (r: Option<usize>)
    ensures
        match r {
            None => !has_key(sets@, key@),
            Some(i) => i < sets@.len() && sets@[i as int].0@ == key@
                && forall|j: int| 0 <= j < i ==> (#[trigger] sets@[j]).0@ != key@,
        },
{
    let mut i: usize = 0;
    while i < sets.len()
        invariant
            i <= sets@.len(),
            forall|j: int| 0 <= j < i ==> (#[trigger] sets@[j]).0@ != key@,
        decreases sets@.len() - i,
    {
        if sets[i].0 == *key {
            return Some(i);
        }
        i += 1;
    }
    None
}

/// Whether a list of strings holds `x`.
pub fn contains_string(v: &Vec<String>, x: &String) -> (b: bool)
    ensures
        b == views(v@).contains(x@),
{
    let mut i: usize = 0;
    while i < v.len()
        invariant
            i <= v@.len(),
            forall|j: int| 0 <= j < i ==> (#[trigger] v@[j])@ != x@,
        decreases v@.len() - i,
    {
        if v[i] == *x {
            assert(views(v@)[i as int] == x@);
            return true;
        }
        i += 1;
    }
    assert forall|j: int| 0 <= j < views(v@).len() implies views(v@)[j] != x@ by {
        assert(views(v@)[j] == v@[j]@);
    }
    false
}

/// A copy of a list of strings.
pub fn copy_strings(v: &Vec<String>) -> (r: Vec<String>)
    ensures
        views(r@) == views(v@),
{
    let mut r: Vec<String> = Vec::new();
    let mut i: usize = 0;
    while i < v.len()
        invariant
            i <= v@.len(),
            r@.len() == i,
            views(r@) == views(v@.take(i as int)),
        decreases v@.len() - i,
    {
        let ghost before = r@;
        let c = v[i].clone();
        r.push(c);
        assert forall|j: int| 0 <= j < r@.len() implies views(r@)[j] == views(v@.take(i + 1))[j] by {
            if j < i {
                assert(r@[j] == before[j]);
                assert(views(before)[j] == views(v@.take(i as int))[j]);
            }
        }
        assert(views(r@) =~= views(v@.take(i + 1)));
        i += 1;
    }
    assert(v@.take(v@.len() as int) =~= v@);
    r
}

/// Adds an entry with an empty set for `key` unless there is one.
fn ensure_key(sets: &mut Vec<(String, Vec<String>)>, key: &String)
    requires
        keys_distinct(old(sets)@),
    ensures
        keys_distinct(final(sets)@),
        has_key(final(sets)@, key@),
        final(sets)@ == old(sets)@ || (
            final(sets)@.len() == old(sets)@.len() + 1
            && final(sets)@.drop_last() == old(sets)@
            && final(sets)@.last().0@ == key@
            && final(sets)@.last().1@.len() == 0),
{
    match find_key(sets, key) {
        Some(i) => {},
        None => {
            let ghost before = sets@;
            sets.push((key.clone(), Vec::new()));
            assert(sets@.drop_last() =~= before);
            assert forall|i: int, j: int| 0 <= i < j < sets@.len() implies
                (#[trigger] sets@[i]).0@ != (#[trigger] sets@[j]).0@ by {
                if j < before.len() {
                    assert(sets@[i] == before[i]);
                    assert(sets@[j] == before[j]);
                } else {
                    assert(sets@[i] == before[i]);
                }
            }
            assert(sets@[before.len() as int].0@ == key@);
        },
    }
}

/// The position of the entry for `key`, which exists.
fn key_index(sets: &Vec<(String, Vec<String>)>, key: &String) -> (i: usize)
    requires
        has_key(sets@, key@),
    ensures
        i < sets@.len(),
        sets@[i as int].0@ == key@,
{
    let mut i: usize = 0;
    while i < sets.len()
        invariant
            i <= sets@.len(),
            has_key(sets@, key@),
            forall|j: int| 0 <= j < i ==> (#[trigger] sets@[j]).0@ != key@,
        decreases sets@.len() - i,
    {
        if sets[i].0 == *key {
            return i;
        }
        i += 1;
    }
    proof {
        let j = choose|j: int| 0 <= j < sets@.len() && (#[trigger] sets@[j]).0@ == key@;
    }
    0
}

/// Each set of `b` starts with the set of `a` at the same position, under the same key.
pub open spec fn sets_grown(a: Seq<(String, Vec<String>)>, b: Seq<(String, Vec<String>)>) -> bool {
    &&& a.len() == b.len()
    &&& forall|i: int| 0 <= i < a.len() ==> (#[trigger] b[i]).0 == a[i].0
        && a[i].1@.len() <= b[i].1@.len() && b[i].1@.subrange(0, a[i].1@.len() as int) == a[i].1@
}

/// Sets that only grew still hold what they held.
pub proof fn lemma_grown_lookup(a: Seq<(String, Vec<String>)>, b: Seq<(String, Vec<String>)>, k: Seq<char>)
    requires
        keys_distinct(a),
        sets_grown(a, b),
    ensures
        set_at(a, k).subset_of(set_at(b, k)),
{
    assert(keys_distinct(b)) by {
        assert forall|i: int, j: int| 0 <= i < j < b.len() implies (#[trigger] b[i]).0@ != (#[trigger] b[j]).0@ by {
            assert(a[i].0@ != a[j].0@);
        }
    }
    if has_key(a, k) {
        let i = choose|i: int| 0 <= i < a.len() && (#[trigger] a[i]).0@ == k;
        lemma_set_at_index(a, i);
        lemma_set_at_index(b, i);
        assert forall|t: Seq<char>| set_at(a, k).contains(t) implies set_at(b, k).contains(t) by {
            let e = choose|e: int| 0 <= e < views(a[i].1@).len() && views(a[i].1@)[e] == t;
            assert(b[i].1@.subrange(0, a[i].1@.len() as int)[e] == a[i].1@[e]);
            assert(views(b[i].1@)[e] == t);
        }
    } else {
        lemma_set_at_missing(a, k);
    }
}

/// One application of the FIRST rules of production `q` to the sets, all of whose strings lie
/// in `u`; whether a set grew.
fn first_step(first: &mut Vec<(String, Vec<String>)>, productions: &[Production], q: usize, Ghost(u): Ghost<Set<Seq<char>>>) -> (grew: bool)
    requires
        q < productions@.len(),
        keys_distinct(old(first)@),
        sets_nodup(old(first)@),
        sets_in(old(first)@, u),
        u.contains("ε"@),
        has_key(old(first)@, productions@[q as int].lhs@),
        forall|j: int| 0 <= j < productions@[q as int].rhs@.len()
            ==> has_key(old(first)@, (#[trigger] productions@[q as int].rhs@[j])@),
        forall|f: spec_fn(Seq<char>) -> Set<Seq<char>>| first_closed(productions@, f) ==> sets_within(old(first)@, f),
    ensures
        sets_grown(old(first)@, final(first)@),
        keys_distinct(final(first)@),
        sets_nodup(final(first)@),
        sets_in(final(first)@, u),
        grew ==> exists|i: int| 0 <= i < old(first)@.len() && (#[trigger] old(first)@[i]).1@.len() < final(first)@[i].1@.len(),
        !grew ==> final(first)@ == old(first)@ && first_rule_holds(productions@[q as int], sets_fn(final(first)@)),
        forall|f: spec_fn(Seq<char>) -> Set<Seq<char>>| first_closed(productions@, f) ==> sets_within(final(first)@, f),
{
    let ghost g = old(first)@;
    let ghost p = productions@[q as int];
    let lhs = &productions[q].lhs;
    let rhs = &productions[q].rhs;
    let li = key_index(first, lhs);
    proof {
        lemma_set_at_index(g, li as int);
    }
    let eps = String::from_str("ε");
    let mut can_be_empty = true;
    let mut tokens: Vec<String> = Vec::new();
    let mut stop = false;
    let mut j: usize = 0;
    while !stop && j < rhs.len()
        invariant
            first@ == g,
            *rhs == p.rhs,
            p == productions@[q as int],
            q < productions@.len(),
            eps@ == "ε"@,
            keys_distinct(g),
            sets_in(g, u),
            li < g.len(),
            g[li as int].0@ == p.lhs@,
            set_at(g, p.lhs@) == views(g[li as int].1@).to_set(),
            forall|j2: int| 0 <= j2 < p.rhs@.len() ==> has_key(g, (#[trigger] p.rhs@[j2])@),
            forall|f: spec_fn(Seq<char>) -> Set<Seq<char>>| first_closed(productions@, f) ==> sets_within(g, f),
            j <= rhs@.len(),
            can_be_empty == !stop,
            nullable_prefix(p.rhs@, sets_fn(g), j as int),
            stop ==> j < rhs@.len() && !set_at(g, p.rhs@[j as int]@).contains("ε"@),
            views(tokens@).no_duplicates(),
            forall|e: int| 0 <= e < tokens@.len() ==> (#[trigger] tokens@[e])@ != "ε"@
                && !set_at(g, p.lhs@).contains(tokens@[e]@) && u.contains(tokens@[e]@),
            forall|f: spec_fn(Seq<char>) -> Set<Seq<char>>| first_closed(productions@, f) ==>
                forall|e: int| 0 <= e < tokens@.len() ==> f(p.lhs@).contains(#[trigger] tokens@[e]@),
            forall|j2: int, t: Seq<char>| 0 <= j2 < (if stop { j + 1 } else { j as int }) && t != "ε"@
                && #[trigger] set_at(g, p.rhs@[j2]@).contains(t)
                ==> set_at(g, p.lhs@).contains(t) || views(tokens@).contains(t),
        decreases rhs@.len() - j + (if stop { 0int } else { 1int }),
    {
        let si = key_index(first, &rhs[j]);
        proof {
            lemma_set_at_index(g, si as int);
        }
        let mut e: usize = 0;
        while e < first[si].1.len()
            invariant
                first@ == g,
                *rhs == p.rhs,
                p == productions@[q as int],
                q < productions@.len(),
                eps@ == "ε"@,
                keys_distinct(g),
                sets_in(g, u),
                li < g.len(),
                si < g.len(),
                j < rhs@.len(),
                g[si as int].0@ == p.rhs@[j as int]@,
                g[li as int].0@ == p.lhs@,
                set_at(g, p.lhs@) == views(g[li as int].1@).to_set(),
                set_at(g, p.rhs@[j as int]@) == views(g[si as int].1@).to_set(),
                nullable_prefix(p.rhs@, sets_fn(g), j as int),
                forall|f: spec_fn(Seq<char>) -> Set<Seq<char>>| first_closed(productions@, f) ==> sets_within(g, f),
                e <= g[si as int].1@.len(),
                views(tokens@).no_duplicates(),
                forall|e2: int| 0 <= e2 < tokens@.len() ==> (#[trigger] tokens@[e2])@ != "ε"@
                    && !set_at(g, p.lhs@).contains(tokens@[e2]@) && u.contains(tokens@[e2]@),
                forall|f: spec_fn(Seq<char>) -> Set<Seq<char>>| first_closed(productions@, f) ==>
                    forall|e2: int| 0 <= e2 < tokens@.len() ==> f(p.lhs@).contains(#[trigger] tokens@[e2]@),
                forall|e2: int| 0 <= e2 < e && (#[trigger] g[si as int].1@[e2])@ != "ε"@
                    ==> set_at(g, p.lhs@).contains(g[si as int].1@[e2]@) || views(tokens@).contains(g[si as int].1@[e2]@),
                forall|j2: int, t: Seq<char>| 0 <= j2 < j && t != "ε"@
                    && #[trigger] set_at(g, p.rhs@[j2]@).contains(t)
                    ==> set_at(g, p.lhs@).contains(t) || views(tokens@).contains(t),
            decreases g[si as int].1@.len() - e,
        {
            let ghost tk = tokens@;
            let in_lhs = contains_string(&first[li].1, &first[si].1[e]);
            let in_tokens = contains_string(&tokens, &first[si].1[e]);
            if !(first[si].1[e] == eps) && !in_lhs && !in_tokens {
                let t = first[si].1[e].clone();
                tokens.push(t);
                proof {
                    let tv = g[si as int].1@[e as int]@;
                    assert(views(tokens@) =~= views(tk).push(tv));
                    assert(u.contains(tv));
                    assert(views(g[li as int].1@).to_set().contains(tv) == views(g[li as int].1@).contains(tv));
                    assert forall|f: spec_fn(Seq<char>) -> Set<Seq<char>>| first_closed(productions@, f) implies
                        f(p.lhs@).contains(tv) by {
                        lemma_within_lookup(g, f);
                        assert(views(g[si as int].1@)[e as int] == tv);
                        assert(set_at(g, p.rhs@[j as int]@).contains(tv));
                        assert forall|m: int| 0 <= m < j implies #[trigger] f(p.rhs@[m]@).contains("ε"@) by {
                            assert(sets_fn(g)(p.rhs@[m]@).contains("ε"@));
                            assert(set_at(g, p.rhs@[m]@).subset_of(f(p.rhs@[m]@)));
                        }
                        assert(first_rule_holds(productions@[q as int], f));
                        assert(set_at(g, p.rhs@[j as int]@).subset_of(f(p.rhs@[j as int]@)));
                        assert(f(p.rhs@[j as int]@).contains(tv));
                        assert(nullable_prefix(p.rhs@, f, j as int));
                        assert(tv != "ε"@);
                    }
                    assert forall|e2: int| 0 <= e2 < tokens@.len() implies (#[trigger] tokens@[e2])@ != "ε"@
                        && !set_at(g, p.lhs@).contains(tokens@[e2]@) && u.contains(tokens@[e2]@) by {
                        if e2 < tk.len() { assert(tokens@[e2] == tk[e2]); }
                    }
                    assert forall|f: spec_fn(Seq<char>) -> Set<Seq<char>>| first_closed(productions@, f) implies
                        forall|e2: int| 0 <= e2 < tokens@.len() ==> f(p.lhs@).contains(#[trigger] tokens@[e2]@) by {
                        assert forall|e2: int| 0 <= e2 < tokens@.len() implies f(p.lhs@).contains(#[trigger] tokens@[e2]@) by {
                            if e2 < tk.len() { assert(tokens@[e2] == tk[e2]); }
                        }
                    }
                    assert forall|e2: int| 0 <= e2 < e + 1 && (#[trigger] g[si as int].1@[e2])@ != "ε"@ implies
                        set_at(g, p.lhs@).contains(g[si as int].1@[e2]@) || views(tokens@).contains(g[si as int].1@[e2]@) by {
                        if e2 < e && views(tk).contains(g[si as int].1@[e2]@) {
                            let x = choose|x: int| 0 <= x < views(tk).len() && views(tk)[x] == g[si as int].1@[e2]@;
                            assert(views(tokens@)[x] == views(tk)[x]);
                        }
                        if e2 == e {
                            assert(views(tokens@)[tk.len() as int] == tv);
                        }
                    }
                    assert forall|j2: int, t: Seq<char>| 0 <= j2 < j && t != "ε"@
                        && #[trigger] set_at(g, p.rhs@[j2]@).contains(t) implies
                        set_at(g, p.lhs@).contains(t) || views(tokens@).contains(t) by {
                        if views(tk).contains(t) {
                            let x = choose|x: int| 0 <= x < views(tk).len() && views(tk)[x] == t;
                            assert(views(tokens@)[x] == views(tk)[x]);
                        }
                    }
                }
            } else {
                proof {
                    assert forall|e2: int| 0 <= e2 < e + 1 && (#[trigger] g[si as int].1@[e2])@ != "ε"@ implies
                        set_at(g, p.lhs@).contains(g[si as int].1@[e2]@) || views(tokens@).contains(g[si as int].1@[e2]@) by {
                        if e2 == e {
                            assert(views(g[li as int].1@).to_set().contains(g[si as int].1@[e2]@) == views(g[li as int].1@).contains(g[si as int].1@[e2]@));
                        }
                    }
                }
            }
            e += 1;
        }
        proof {
            assert forall|j2: int, t: Seq<char>| 0 <= j2 < j + 1 && t != "ε"@
                && #[trigger] set_at(g, p.rhs@[j2]@).contains(t) implies
                set_at(g, p.lhs@).contains(t) || views(tokens@).contains(t) by {
                if j2 == j {
                    let e2 = choose|e2: int| 0 <= e2 < views(g[si as int].1@).len() && views(g[si as int].1@)[e2] == t;
                    assert(g[si as int].1@[e2]@ == t);
                }
            }
        }
        if !contains_string(&first[si].1, &eps) {
            can_be_empty = false;
            stop = true;
        } else {
            j += 1;
        }
    }
    let old_size = first[li].1.len();
    if tokens.len() > 0 {
        let mut k: usize = 0;
        while k < tokens.len()
            invariant
                k <= tokens@.len(),
                li < g.len(),
                first@.len() == g.len(),
                forall|i: int| 0 <= i < g.len() && i != li ==> #[trigger] first@[i] == g[i],
                first@[li as int].0 == g[li as int].0,
                first@[li as int].1@.len() == g[li as int].1@.len() + k,
                views(first@[li as int].1@) == views(g[li as int].1@) + views(tokens@.take(k as int)),
                first@[li as int].1@.subrange(0, g[li as int].1@.len() as int) == g[li as int].1@,
            decreases tokens@.len() - k,
        {
            let ghost before = first@;
            let t = tokens[k].clone();
            assert(t@ == tokens@[k as int]@);
            first[li].1.push(t);
            proof {
                assert(tokens@.take(k + 1) =~= tokens@.take(k as int).push(tokens@[k as int]));
                assert(views(tokens@.take(k + 1)) =~= views(tokens@.take(k as int)).push(tokens@[k as int]@));
                assert(views(first@[li as int].1@) =~= views(before[li as int].1@).push(t@));
                assert(views(first@[li as int].1@) =~= views(g[li as int].1@) + views(tokens@.take(k + 1)));
                assert(first@[li as int].1@.subrange(0, g[li as int].1@.len() as int)
                    =~= before[li as int].1@.subrange(0, g[li as int].1@.len() as int));
            }
            k += 1;
        }
    }
    proof {
        assert(tokens@.take(tokens@.len() as int) =~= tokens@);
        lemma_set_at_index(g, li as int);
        // the strings after the tokens are added: still without repeats
        let old_v = views(g[li as int].1@);
        let tv = views(tokens@);
        assert forall|x: int, y: int| 0 <= x < y < (old_v + tv).len() implies (old_v + tv)[x] != (old_v + tv)[y] by {
            if y >= old_v.len() {
                if x >= old_v.len() {
                } else {
                    assert(tokens@[y - old_v.len()]@ == tv[y - old_v.len()]);
                    assert(old_v.to_set().contains(old_v[x]));
                }
            }
        }
    }
    let mut pushed_eps = false;
    if can_be_empty {
        if !contains_string(&first[li].1, &eps) {
            let ghost before = first@;
            first[li].1.push(eps);
            pushed_eps = true;
            proof {
                assert(views(first@[li as int].1@) =~= views(before[li as int].1@).push("ε"@));
                assert(first@[li as int].1@.subrange(0, g[li as int].1@.len() as int)
                    =~= before[li as int].1@.subrange(0, g[li as int].1@.len() as int));
            }
        }
    }
    let grew = first[li].1.len() > old_size;
    proof {
        let fin = first@;
        assert forall|i: int| 0 <= i < g.len() implies (#[trigger] fin[i]).0 == g[i].0
            && g[i].1@.len() <= fin[i].1@.len() && fin[i].1@.subrange(0, g[i].1@.len() as int) == g[i].1@ by {
            if i != li {
                assert(fin[i].1@.subrange(0, g[i].1@.len() as int) =~= g[i].1@);
            }
        }
        assert(sets_grown(g, fin));
        assert(keys_distinct(fin)) by {
            assert forall|i: int, j2: int| 0 <= i < j2 < fin.len() implies (#[trigger] fin[i]).0@ != (#[trigger] fin[j2]).0@ by {
                assert(g[i].0@ != g[j2].0@);
            }
        }
        assert(sets_nodup(fin)) by {
            assert forall|i: int| 0 <= i < fin.len() implies views((#[trigger] fin[i]).1@).no_duplicates() by {
                if i != li {
                    assert(fin[i] == g[i]);
                }
            }
        }
        assert(sets_in(fin, u)) by {
            assert forall|i: int, e: int| 0 <= i < fin.len() && 0 <= e < fin[i].1@.len() implies u.contains(#[trigger] fin[i].1@[e]@) by {
                if i != li {
                    assert(fin[i] == g[i]);
                } else if e < g[li as int].1@.len() {
                    assert(fin[i].1@[e] == fin[i].1@.subrange(0, g[li as int].1@.len() as int)[e]);
                } else if e < g[li as int].1@.len() + tokens@.len() {
                    assert(views(fin[i].1@)[e] == views(tokens@)[e - g[li as int].1@.len()]);
                } else {
                    assert(views(fin[i].1@)[e] == "ε"@);
                }
            }
        }
        assert forall|f: spec_fn(Seq<char>) -> Set<Seq<char>>| first_closed(productions@, f) implies sets_within(fin, f) by {
            assert forall|i: int, e: int| 0 <= i < fin.len() && 0 <= e < fin[i].1@.len() implies
                f(fin[i].0@).contains(#[trigger] fin[i].1@[e]@) by {
                if i != li {
                    assert(fin[i] == g[i]);
                } else if e < g[li as int].1@.len() {
                    assert(fin[i].1@[e] == fin[i].1@.subrange(0, g[li as int].1@.len() as int)[e]);
                } else if e < g[li as int].1@.len() + tokens@.len() {
                    assert(views(fin[i].1@)[e] == views(tokens@)[e - g[li as int].1@.len()]);
                    assert(f(p.lhs@).contains(tokens@[e - g[li as int].1@.len()]@));
                } else {
                    assert(views(fin[i].1@)[e] == "ε"@);
                    lemma_within_lookup(g, f);
                    assert forall|m: int| 0 <= m < p.rhs@.len() implies #[trigger] f(p.rhs@[m]@).contains("ε"@) by {
                        assert(sets_fn(g)(p.rhs@[m]@).contains("ε"@));
                        assert(set_at(g, p.rhs@[m]@).subset_of(f(p.rhs@[m]@)));
                    }
                    assert(first_rule_holds(productions@[q as int], f));
                }
            }
        }
        if grew {
            assert(g[li as int].1@.len() < fin[li as int].1@.len());
        } else {
            assert(tokens@.len() == 0);
            assert(!pushed_eps);
            assert(fin == g);
            let f = sets_fn(g);
            assert forall|j2: int, t: Seq<char>| 0 <= j2 < p.rhs@.len() && nullable_prefix(p.rhs@, f, j2)
                && #[trigger] f(p.rhs@[j2]@).contains(t) && t != "ε"@ implies f(p.lhs@).contains(t) by {
                if stop && j2 > j {
                    assert(f(p.rhs@[j as int]@).contains("ε"@));
                }
                assert(set_at(g, p.rhs@[j2]@).contains(t));
            }
            if nullable_prefix(p.rhs@, f, p.rhs@.len() as int) {
                if stop {
                    assert(f(p.rhs@[j as int]@).contains("ε"@));
                }
                assert(views(g[li as int].1@).contains("ε"@));
            }
            assert(first_rule_holds(p, f));
        }
    }
    grew
}

/// The FIRST sets of the grammar's symbols: the least sets (see `first_closed`) with an entry
/// for every symbol that occurs in a production. A terminal's set is the terminal itself
/// (exactly that, for a symbol no production defines); a nonterminal's holds the terminals its derivations can start with, and `ε` when it can
/// derive the empty string.
pub fn compute_first(productions: &[Production]) -> (first: FirstSets)
    ensures
        keys_distinct(first@),
        sets_nodup(first@),
        forall|k: Seq<char>| #[trigger] has_key(first@, k) <==> grammar_symbol(productions@, k),
        first_closed(productions@, sets_fn(first@)),
        forall|f: spec_fn(Seq<char>) -> Set<Seq<char>>| first_closed(productions@, f)
            ==> forall|k: Seq<char>| #[trigger] set_at(first@, k).subset_of(f(k)),
        forall|k: Seq<char>| #[trigger] grammar_symbol(productions@, k) && !is_lhs(productions@, k)
            ==> set_at(first@, k) == set![k],
{
    let ghost prods = productions@;
    let mut first: Vec<(String, Vec<String>)> = Vec::new();
    let mut q: usize = 0;
    while q < productions.len()
        invariant
            prods == productions@,
            q <= prods.len(),
            keys_distinct(first@),
            forall|i: int| 0 <= i < first@.len() ==> (#[trigger] first@[i]).1@.len() == 0,
            forall|k: Seq<char>| #[trigger] has_key(first@, k) ==> grammar_symbol(prods, k),
            forall|q2: int| 0 <= q2 < q ==> has_key(first@, (#[trigger] prods[q2]).lhs@),
            forall|q2: int, j: int| 0 <= q2 < q && 0 <= j < prods[q2].rhs@.len()
                ==> has_key(first@, (#[trigger] prods[q2].rhs@[j])@),
        decreases prods.len() - q,
    {
        let ghost before = first@;
        ensure_key(&mut first, &productions[q].lhs);
        proof {
            assert(prods[q as int].lhs@ == productions@[q as int].lhs@);
            assert(is_lhs(prods, prods[q as int].lhs@));
            assert forall|k: Seq<char>| #[trigger] has_key(first@, k) implies grammar_symbol(prods, k) by {
                if has_key(before, k) {
                } else {
                    assert(k == prods[q as int].lhs@) by {
                        let i = choose|i: int| 0 <= i < first@.len() && (#[trigger] first@[i]).0@ == k;
                        if i < before.len() { assert(first@[i] == before[i]); }
                    }
                }
            }
            assert forall|k: Seq<char>| has_key(before, k) implies #[trigger] has_key(first@, k) by {
                let i = choose|i: int| 0 <= i < before.len() && (#[trigger] before[i]).0@ == k;
                if first@ != before { assert(first@[i] == before[i]); }
            }
            assert forall|i: int| 0 <= i < first@.len() implies (#[trigger] first@[i]).1@.len() == 0 by {
                if i < before.len() && first@ != before { assert(first@[i] == before[i]); }
            }
        }
        let rhs = &productions[q].rhs;
        let mut j: usize = 0;
        while j < rhs.len()
            invariant
                prods == productions@,
                q < prods.len(),
                *rhs == prods[q as int].rhs,
                j <= rhs@.len(),
                keys_distinct(first@),
                forall|i: int| 0 <= i < first@.len() ==> (#[trigger] first@[i]).1@.len() == 0,
                forall|k: Seq<char>| #[trigger] has_key(first@, k) ==> grammar_symbol(prods, k),
                forall|q2: int| 0 <= q2 <= q ==> has_key(first@, (#[trigger] prods[q2]).lhs@),
                forall|q2: int, j2: int| 0 <= q2 < q && 0 <= j2 < prods[q2].rhs@.len()
                    ==> has_key(first@, (#[trigger] prods[q2].rhs@[j2])@),
                forall|j2: int| 0 <= j2 < j ==> has_key(first@, (#[trigger] prods[q as int].rhs@[j2])@),
            decreases rhs@.len() - j,
        {
            let ghost before = first@;
            ensure_key(&mut first, &rhs[j]);
            proof {
                assert(prods[q as int].rhs@[j as int]@ == rhs@[j as int]@);
                assert forall|k: Seq<char>| #[trigger] has_key(first@, k) implies grammar_symbol(prods, k) by {
                    if has_key(before, k) {
                    } else {
                        assert(k == rhs@[j as int]@) by {
                            let i = choose|i: int| 0 <= i < first@.len() && (#[trigger] first@[i]).0@ == k;
                            if i < before.len() { assert(first@[i] == before[i]); }
                        }
                        assert(prods[q as int].rhs@[j as int]@ == k);
                    }
                }
                assert forall|k: Seq<char>| has_key(before, k) implies #[trigger] has_key(first@, k) by {
                    let i = choose|i: int| 0 <= i < before.len() && (#[trigger] before[i]).0@ == k;
                    if first@ != before { assert(first@[i] == before[i]); }
                }
                assert forall|i: int| 0 <= i < first@.len() implies (#[trigger] first@[i]).1@.len() == 0 by {
                    if i < before.len() && first@ != before { assert(first@[i] == before[i]); }
                }
            }
            j += 1;
        }
        q += 1;
    }
    proof {
        assert forall|k: Seq<char>| grammar_symbol(prods, k) implies #[trigger] has_key(first@, k) by {
            if is_lhs(prods, k) {
                let q2 = choose|q2: int| 0 <= q2 < prods.len() && (#[trigger] prods[q2]).lhs@ == k;
            } else {
                let (q2, j2) = choose|q2: int, j2: int| 0 <= q2 < prods.len() && 0 <= j2 < prods[q2].rhs@.len()
                    && (#[trigger] prods[q2].rhs@[j2])@ == k;
            }
        }
    }
    // each terminal starts with itself
    let ghost keys0 = first@;
    let mut i: usize = 0;
    while i < first.len()
        invariant
            prods == productions@,
            i <= first@.len(),
            first@.len() == keys0.len(),
            keys_distinct(keys0),
            forall|x: int| 0 <= x < keys0.len() ==> (#[trigger] first@[x]).0 == keys0[x].0,
            forall|x: int| 0 <= x < keys0.len() ==> (#[trigger] keys0[x]).1@.len() == 0,
            forall|x: int| 0 <= x < i ==> views((#[trigger] first@[x]).1@) == (if is_terminal_spec(prods, first@[x].0@) {
                seq![first@[x].0@] } else { Seq::<Seq<char>>::empty() }),
            forall|x: int| i <= x < keys0.len() ==> (#[trigger] first@[x]).1@.len() == 0,
        decreases first@.len() - i,
    {
        let term = is_terminal(first[i].0.as_str(), productions);
        if term {
            let k = first[i].0.clone();
            let ghost before = first@;
            first[i].1.push(k);
            proof {
                assert forall|x: int| 0 <= x < keys0.len() && x != i implies #[trigger] first@[x] == before[x] by {}
                assert(views(first@[i as int].1@) =~= seq![first@[i as int].0@]);
            }
        } else {
            proof {
                assert(views(first@[i as int].1@) =~= Seq::<Seq<char>>::empty());
            }
        }
        i += 1;
    }
    proof {
        assert forall|k: Seq<char>| #[trigger] has_key(first@, k) <==> has_key(keys0, k) by {
            if has_key(first@, k) {
                let x = choose|x: int| 0 <= x < first@.len() && (#[trigger] first@[x]).0@ == k;
                assert(keys0[x].0 == first@[x].0);
            }
            if has_key(keys0, k) {
                let x = choose|x: int| 0 <= x < keys0.len() && (#[trigger] keys0[x]).0@ == k;
                assert(keys0[x].0 == first@[x].0);
            }
        }
        assert(keys_distinct(first@)) by {
            assert forall|x: int, y: int| 0 <= x < y < first@.len() implies (#[trigger] first@[x]).0@ != (#[trigger] first@[y]).0@ by {
                assert(keys0[x].0@ != keys0[y].0@);
            }
        }
        assert(sets_nodup(first@)) by {
            assert forall|x: int| 0 <= x < first@.len() implies views((#[trigger] first@[x]).1@).no_duplicates() by {}
        }
        assert forall|f: spec_fn(Seq<char>) -> Set<Seq<char>>| first_closed(prods, f) implies sets_within(first@, f) by {
            assert forall|x: int, e: int| 0 <= x < first@.len() && 0 <= e < first@[x].1@.len() implies
                f(first@[x].0@).contains(#[trigger] first@[x].1@[e]@) by {
                assert(views(first@[x].1@)[e] == first@[x].1@[e]@);
                assert(has_key(first@, first@[x].0@));
                assert(grammar_symbol(prods, first@[x].0@));
            }
        }
        assert forall|k: Seq<char>| #[trigger] grammar_symbol(prods, k) && is_terminal_spec(prods, k) implies set_at(first@, k).contains(k) by {
            assert(has_key(first@, k));
            let x = choose|x: int| 0 <= x < first@.len() && (#[trigger] first@[x]).0@ == k;
            lemma_set_at_index(first@, x);
            assert(views(first@[x].1@)[0] == k);
        }
        lemma_universe(first@);
    }
    let ghost u = universe(first@).insert("ε"@);
    proof {
        lemma_universe(first@);
        assert(sets_in(first@, u));
        assert forall|x: int| 0 <= x < first@.len() implies (#[trigger] first@[x]).1@.len() <= u.len() by {
            assert forall|e: int| 0 <= e < views(first@[x].1@).len() implies u.contains(#[trigger] views(first@[x].1@)[e]) by {
                assert(views(first@[x].1@)[e] == first@[x].1@[e]@);
            }
            lemma_nodup_bounded(views(first@[x].1@), u);
        }
        assert forall|x: int| 0 <= x < first@.len() implies (#[trigger] first@[x]).1@.len() <= first@[x].1@.len() by {}
        lemma_slack(first@, first@, u.len());
    }
    let mut changed = true;
    while changed
        invariant
            prods == productions@,
            keys_distinct(first@),
            sets_nodup(first@),
            u.finite(),
            u.contains("ε"@),
            sets_in(first@, u),
            forall|k: Seq<char>| #[trigger] has_key(first@, k) <==> grammar_symbol(prods, k),
            forall|k: Seq<char>| #[trigger] grammar_symbol(prods, k) && is_terminal_spec(prods, k) ==> set_at(first@, k).contains(k),
            forall|f: spec_fn(Seq<char>) -> Set<Seq<char>>| first_closed(prods, f) ==> sets_within(first@, f),
            !changed ==> first_closed(prods, sets_fn(first@)),
            slack(first@, u.len()) >= 0,
        decreases 2 * slack(first@, u.len()) + (if changed { 1int } else { 0int }),
    {
        changed = false;
        let ghost pass_start = first@;
        proof {
            assert(sets_grown(pass_start, first@)) by {
                assert forall|x: int| 0 <= x < pass_start.len() implies (#[trigger] first@[x]).0 == pass_start[x].0
                    && pass_start[x].1@.len() <= first@[x].1@.len()
                    && first@[x].1@.subrange(0, pass_start[x].1@.len() as int) == pass_start[x].1@ by {
                    assert(first@[x].1@.subrange(0, pass_start[x].1@.len() as int) =~= pass_start[x].1@);
                }
            }
        }
        let mut q: usize = 0;
        while q < productions.len()
            invariant
                prods == productions@,
                q <= prods.len(),
                keys_distinct(pass_start),
                keys_distinct(first@),
                sets_nodup(first@),
                u.finite(),
                u.contains("ε"@),
                sets_in(first@, u),
                sets_grown(pass_start, first@),
                forall|k: Seq<char>| #[trigger] has_key(first@, k) <==> grammar_symbol(prods, k),
                forall|k: Seq<char>| #[trigger] grammar_symbol(prods, k) && is_terminal_spec(prods, k) ==> set_at(first@, k).contains(k),
                forall|f: spec_fn(Seq<char>) -> Set<Seq<char>>| first_closed(prods, f) ==> sets_within(first@, f),
                changed ==> exists|x: int| 0 <= x < pass_start.len() && (#[trigger] pass_start[x]).1@.len() < first@[x].1@.len(),
                !changed ==> first@ == pass_start,
                !changed ==> forall|q2: int| 0 <= q2 < q ==> #[trigger] first_rule_holds(prods[q2], sets_fn(first@)),
            decreases prods.len() - q,
        {
            let ghost before = first@;
            proof {
                assert(has_key(first@, prods[q as int].lhs@)) by {
                    assert(is_lhs(prods, prods[q as int].lhs@));
                }
                assert forall|j: int| 0 <= j < prods[q as int].rhs@.len()
                    implies has_key(first@, (#[trigger] prods[q as int].rhs@[j])@) by {
                    assert(grammar_symbol(prods, prods[q as int].rhs@[j]@));
                }
            }
            let grew = first_step(&mut first, productions, q, Ghost(u));
            proof {
                lemma_grown_trans(pass_start, before, first@);
                assert forall|k: Seq<char>| #[trigger] has_key(first@, k) <==> has_key(before, k) by {
                    if has_key(first@, k) {
                        let x = choose|x: int| 0 <= x < first@.len() && (#[trigger] first@[x]).0@ == k;
                        assert(before[x].0 == first@[x].0);
                    }
                    if has_key(before, k) {
                        let x = choose|x: int| 0 <= x < before.len() && (#[trigger] before[x]).0@ == k;
                        assert(before[x].0 == first@[x].0);
                    }
                }
                assert forall|k: Seq<char>| #[trigger] grammar_symbol(prods, k) && is_terminal_spec(prods, k) implies set_at(first@, k).contains(k) by {
                    lemma_grown_lookup(before, first@, k);
                }
                if grew {
                    let x = choose|x: int| 0 <= x < before.len() && (#[trigger] before[x]).1@.len() < first@[x].1@.len();
                    assert(pass_start[x].1@.len() <= before[x].1@.len());
                }
                if changed {
                    let x = choose|x: int| 0 <= x < pass_start.len() && (#[trigger] pass_start[x]).1@.len() < before[x].1@.len();
                    assert(before[x].1@.len() <= first@[x].1@.len());
                }
            }
            if grew {
                changed = true;
            }
            q += 1;
        }
        proof {
            assert forall|x: int| 0 <= x < pass_start.len() implies (#[trigger] pass_start[x]).1@.len() <= first@[x].1@.len() by {}
            lemma_slack(pass_start, first@, u.len());
            assert forall|x: int| 0 <= x < first@.len() implies (#[trigger] first@[x]).1@.len() <= u.len() by {
                assert forall|e: int| 0 <= e < views(first@[x].1@).len() implies u.contains(#[trigger] views(first@[x].1@)[e]) by {
                    assert(views(first@[x].1@)[e] == first@[x].1@[e]@);
                }
                lemma_nodup_bounded(views(first@[x].1@), u);
            }
        }
    }
    proof {
        assert forall|f: spec_fn(Seq<char>) -> Set<Seq<char>>| first_closed(prods, f)
            implies forall|k: Seq<char>| #[trigger] set_at(first@, k).subset_of(f(k)) by {
            lemma_within_lookup(first@, f);
        }
        assert forall|k: Seq<char>| #[trigger] grammar_symbol(prods, k) && !is_lhs(prods, k)
            implies set_at(first@, k) == set![k] by {
            lemma_least_first_of_terminal(prods, first@, k);
        }
    }
    first
}

/// In the least sets closed under the FIRST rules, a symbol of the grammar that no
/// production defines starts with itself alone.
proof fn lemma_least_first_of_terminal(prods: Seq<Production>, sets: Seq<(String, Vec<String>)>, k: Seq<char>)
    requires
        first_closed(prods, sets_fn(sets)),
        forall|f: spec_fn(Seq<char>) -> Set<Seq<char>>| first_closed(prods, f)
            ==> forall|j: Seq<char>| #[trigger] set_at(sets, j).subset_of(f(j)),
        grammar_symbol(prods, k),
        !is_lhs(prods, k),
    ensures
        set_at(sets, k) == set![k],
{
    let f = sets_fn(sets);
    let f2 = |j: Seq<char>| if grammar_symbol(prods, j) && !is_lhs(prods, j) { set![j] } else { set_at(sets, j) };
    assert forall|j: Seq<char>| #[trigger] f2(j).subset_of(f(j)) by {
        if grammar_symbol(prods, j) && !is_lhs(prods, j) {
            assert(is_terminal_spec(prods, j));
            assert(f(j).contains(j));
        }
    }
    assert forall|j: Seq<char>| #[trigger] grammar_symbol(prods, j) && is_terminal_spec(prods, j)
        implies f2(j).contains(j) by {
        if is_lhs(prods, j) {
            assert(f(j).contains(j));
        }
    }
    assert forall|q: int| 0 <= q < prods.len() implies #[trigger] first_rule_holds(prods[q], f2) by {
        let p = prods[q];
        assert(is_lhs(prods, p.lhs@));
        assert(first_rule_holds(p, f));
        assert forall|j: int, t: Seq<char>| 0 <= j < p.rhs@.len() && nullable_prefix(p.rhs@, f2, j)
            && #[trigger] f2(p.rhs@[j]@).contains(t) && t != "ε"@ implies f2(p.lhs@).contains(t) by {
            assert forall|m: int| 0 <= m < j implies #[trigger] f(p.rhs@[m]@).contains("ε"@) by {
                assert(f2(p.rhs@[m]@).contains("ε"@));
                assert(f2(p.rhs@[m]@).subset_of(f(p.rhs@[m]@)));
            }
            assert(f2(p.rhs@[j]@).subset_of(f(p.rhs@[j]@)));
            assert(f(p.rhs@[j]@).contains(t));
        }
        if nullable_prefix(p.rhs@, f2, p.rhs@.len() as int) {
            assert forall|m: int| 0 <= m < p.rhs@.len() implies #[trigger] f(p.rhs@[m]@).contains("ε"@) by {
                assert(f2(p.rhs@[m]@).contains("ε"@));
                assert(f2(p.rhs@[m]@).subset_of(f(p.rhs@[m]@)));
            }
            assert(nullable_prefix(p.rhs@, f, p.rhs@.len() as int));
        }
    }
    assert(first_closed(prods, f2));
    assert(set_at(sets, k).subset_of(f2(k)));
    assert(is_terminal_spec(prods, k));
    assert(set_at(sets, k).contains(k));
    assert(set_at(sets, k) =~= set![k]);
}

/// Growth twice over is growth.
pub proof fn lemma_grown_trans(a: Seq<(String, Vec<String>)>, b: Seq<(String, Vec<String>)>, c: Seq<(String, Vec<String>)>)
    requires
        sets_grown(a, b),
        sets_grown(b, c),
    ensures
        sets_grown(a, c),
{
    assert forall|i: int| 0 <= i < a.len() implies (#[trigger] c[i]).0 == a[i].0
        && a[i].1@.len() <= c[i].1@.len() && c[i].1@.subrange(0, a[i].1@.len() as int) == a[i].1@ by {
        assert(c[i].1@.subrange(0, a[i].1@.len() as int) =~= c[i].1@.subrange(0, b[i].1@.len() as int).subrange(0, a[i].1@.len() as int));
        assert(b[i].1@.subrange(0, a[i].1@.len() as int) == a[i].1@);
    }
}

/// What a sequence of symbols can start with, given the sets `f`: the strings other than `ε`
/// in the set of a symbol all of whose predecessors have `ε` in theirs, and `ε` itself when
/// every symbol has it (in particular for the empty sequence).
pub open spec fn first_of_seq(syms: Seq<String>, f: spec_fn(Seq<char>) -> Set<Seq<char>>) -> Set<Seq<char>> {
    Set::new(|t: Seq<char>|
        (t != "ε"@ && exists|j: int| 0 <= j < syms.len() && nullable_prefix(syms, f, j) && #[trigger] f(syms[j]@).contains(t))
        || (t == "ε"@ && nullable_prefix(syms, f, syms.len() as int)))
}

/// The strings other than `ε` that the sets of the first `j` symbols contribute.
pub open spec fn seq_prefix_firsts(syms: Seq<String>, f: spec_fn(Seq<char>) -> Set<Seq<char>>, j: int) -> Set<Seq<char>> {
    Set::new(|t: Seq<char>|
        t != "ε"@ && exists|j2: int| 0 <= j2 < j && nullable_prefix(syms, f, j2) && #[trigger] f(syms[j2]@).contains(t))
}

/// Adds to `result` the strings of `v` other than `ε` that it lacks.
fn add_non_eps(result: &mut Vec<String>, v: &Vec<String>)
    requires
        views(old(result)@).no_duplicates(),
    ensures
        views(final(result)@).no_duplicates(),
        views(final(result)@).to_set() == views(old(result)@).to_set() + views(v@).to_set().remove("ε"@),
        final(result)@.len() >= old(result)@.len(),
        final(result)@.len() == old(result)@.len() ==> final(result)@ == old(result)@,
{
    let eps = String::from_str("ε");
    let mut e: usize = 0;
    while e < v.len()
        invariant
            eps@ == "ε"@,
            e <= v@.len(),
            views(result@).no_duplicates(),
            views(result@).to_set() == views(old(result)@).to_set() + views(v@.take(e as int)).to_set().remove("ε"@),
            result@.len() >= old(result)@.len(),
            result@.len() == old(result)@.len() ==> result@ == old(result)@,
        decreases v@.len() - e,
    {
        let ghost before = result@;
        assert(views(v@.take(e + 1)) =~= views(v@.take(e as int)).push(v@[e as int]@));
        proof {
            views(v@.take(e as int)).lemma_push_to_set_commute(v@[e as int]@);
        }
        if !(v[e] == eps) && !contains_string(result, &v[e]) {
            result.push(v[e].clone());
            proof {
                assert(views(result@) =~= views(before).push(v@[e as int]@));
                views(before).lemma_push_to_set_commute(v@[e as int]@);
                assert forall|a: int, b: int| 0 <= a < b < views(result@).len()
                    implies views(result@)[a] != views(result@)[b] by {
                    if b == views(before).len() {
                        assert(views(result@)[a] == views(before)[a]);
                    } else {
                        assert(views(result@)[a] == views(before)[a]);
                        assert(views(result@)[b] == views(before)[b]);
                    }
                }
            }
        }
        assert(views(result@).to_set() =~= views(old(result)@).to_set() + views(v@.take(e + 1)).to_set().remove("ε"@));
        e += 1;
    }
    assert(v@.take(v@.len() as int) =~= v@);
}

/// What a sequence of symbols can start with (see `first_of_seq`), each string once.
pub fn compute_first_of_sequence(symbols: &[String], first: &FirstSets, productions: &[Production]) -> (r: Vec<String>)
    requires
        keys_distinct(first@),
    ensures
        views(r@).no_duplicates(),
        views(r@).to_set() == first_of_seq(symbols@, sets_fn(first@)),
{
    let ghost f = sets_fn(first@);
    let ghost syms = symbols@;
    let eps = String::from_str("ε");
    let mut result: Vec<String> = Vec::new();
    if symbols.len() == 0 {
        result.push(eps);
        assert(views(result@) =~= seq!["ε"@]);
        assert(views(result@).to_set() =~= first_of_seq(syms, f)) by {
            assert(views(result@).to_set().contains("ε"@)) by { assert(views(result@)[0] == "ε"@); }
        }
        return result;
    }
    assert(views(result@).to_set() =~= seq_prefix_firsts(syms, f, 0));
    let mut j: usize = 0;
    let mut stop = false;
    while !stop && j < symbols.len()
        invariant
            syms == symbols@,
            f == sets_fn(first@),
            keys_distinct(first@),
            eps@ == "ε"@,
            j <= syms.len(),
            views(result@).no_duplicates(),
            nullable_prefix(syms, f, j as int),
            !stop ==> views(result@).to_set() == seq_prefix_firsts(syms, f, j as int),
            stop ==> j < syms.len() && !f(syms[j as int]@).contains("ε"@)
                && views(result@).to_set() == seq_prefix_firsts(syms, f, j + 1),
        decreases syms.len() - j + (if stop { 0int } else { 1int }),
    {
        let ghost before = views(result@).to_set();
        match find_key(first, &symbols[j]) {
            Some(si) => {
                proof {
                    lemma_set_at_index(first@, si as int);
                }
                add_non_eps(&mut result, &first[si].1);
                assert(views(result@).to_set() =~= seq_prefix_firsts(syms, f, j + 1)) by {
                    assert forall|t: Seq<char>| seq_prefix_firsts(syms, f, j + 1).contains(t)
                        implies views(result@).to_set().contains(t) by {
                        let j2 = choose|j2: int| 0 <= j2 < j + 1 && nullable_prefix(syms, f, j2) && #[trigger] f(syms[j2]@).contains(t);
                        if j2 < j {
                            assert(seq_prefix_firsts(syms, f, j as int).contains(t));
                        }
                    }
                    assert forall|t: Seq<char>| views(result@).to_set().contains(t)
                        implies seq_prefix_firsts(syms, f, j + 1).contains(t) by {
                        if !before.contains(t) {
                            assert(f(syms[j as int]@) == views(first@[si as int].1@).to_set());
                            assert(f(syms[j as int]@).contains(t));
                            assert(t != "ε"@);
                        } else {
                            let j2 = choose|j2: int| 0 <= j2 < j && nullable_prefix(syms, f, j2) && #[trigger] f(syms[j2]@).contains(t);
                        }
                    }
                }
                if !contains_string(&first[si].1, &eps) {
                    stop = true;
                } else {
                    j += 1;
                }
            },
            None => {
                proof {
                    lemma_set_at_missing(first@, syms[j as int]@);
                    assert(seq_prefix_firsts(syms, f, j + 1) =~= seq_prefix_firsts(syms, f, j as int)) by {
                        assert forall|t: Seq<char>| seq_prefix_firsts(syms, f, j + 1).contains(t)
                            implies seq_prefix_firsts(syms, f, j as int).contains(t) by {
                            let j2 = choose|j2: int| 0 <= j2 < j + 1 && nullable_prefix(syms, f, j2) && #[trigger] f(syms[j2]@).contains(t);
                            if j2 == j {
                                assert(f(syms[j2]@) == Set::<Seq<char>>::empty());
                            }
                        }
                    }
                }
                stop = true;
            },
        }
    }
    if !stop {
        let ghost before = result@;
        proof {
            assert(!views(result@).contains("ε"@)) by {
                if views(result@).contains("ε"@) {
                    assert(views(result@).to_set().contains("ε"@));
                }
            }
        }
        result.push(eps);
        proof {
            assert(views(result@) =~= views(before).push("ε"@));
            views(before).lemma_push_to_set_commute("ε"@);
            assert(views(result@).to_set() =~= first_of_seq(syms, f)) by {
                assert forall|t: Seq<char>| first_of_seq(syms, f).contains(t) implies views(result@).to_set().contains(t) by {
                    if t != "ε"@ {
                        let j2 = choose|j2: int| 0 <= j2 < syms.len() && nullable_prefix(syms, f, j2) && #[trigger] f(syms[j2]@).contains(t);
                        assert(seq_prefix_firsts(syms, f, j as int).contains(t));
                    }
                }
            }
            assert forall|a: int, b: int| 0 <= a < b < views(result@).len()
                implies views(result@)[a] != views(result@)[b] by {
                if b == views(before).len() {
                    assert(views(result@)[a] == views(before)[a]);
                    assert(views(before).contains(views(before)[a]));
                } else {
                    assert(views(result@)[a] == views(before)[a]);
                    assert(views(result@)[b] == views(before)[b]);
                }
            }
        }
    } else {
        proof {
            assert(views(result@).to_set() =~= first_of_seq(syms, f)) by {
                assert forall|t: Seq<char>| first_of_seq(syms, f).contains(t) implies views(result@).to_set().contains(t) by {
                    if t != "ε"@ {
                        let j2 = choose|j2: int| 0 <= j2 < syms.len() && nullable_prefix(syms, f, j2) && #[trigger] f(syms[j2]@).contains(t);
                        if j2 > j {
                            assert(f(syms[j as int]@).contains("ε"@));
                        }
                        assert(seq_prefix_firsts(syms, f, j + 1).contains(t));
                    } else {
                        assert(f(syms[j as int]@).contains("ε"@));
                    }
                }
            }
        }
    }
    result
}

/// Adds to `result` the strings of `v` that it lacks.
fn add_all(result: &mut Vec<String>, v: &Vec<String>)
    requires
        views(old(result)@).no_duplicates(),
    ensures
        views(final(result)@).no_duplicates(),
        views(final(result)@).to_set() == views(old(result)@).to_set() + views(v@).to_set(),
        final(result)@.len() >= old(result)@.len(),
        final(result)@.len() == old(result)@.len() ==> final(result)@ == old(result)@,
{
    let mut e: usize = 0;
    while e < v.len()
        invariant
            e <= v@.len(),
            views(result@).no_duplicates(),
            views(result@).to_set() == views(old(result)@).to_set() + views(v@.take(e as int)).to_set(),
            result@.len() >= old(result)@.len(),
            result@.len() == old(result)@.len() ==> result@ == old(result)@,
        decreases v@.len() - e,
    {
        let ghost before = result@;
        assert(views(v@.take(e + 1)) =~= views(v@.take(e as int)).push(v@[e as int]@));
        proof {
            views(v@.take(e as int)).lemma_push_to_set_commute(v@[e as int]@);
        }
        if !contains_string(result, &v[e]) {
            result.push(v[e].clone());
            proof {
                assert(views(result@) =~= views(before).push(v@[e as int]@));
                views(before).lemma_push_to_set_commute(v@[e as int]@);
                assert forall|a: int, b: int| 0 <= a < b < views(result@).len()
                    implies views(result@)[a] != views(result@)[b] by {
                    if b == views(before).len() {
                        assert(views(result@)[a] == views(before)[a]);
                    } else {
                        assert(views(result@)[a] == views(before)[a]);
                        assert(views(result@)[b] == views(before)[b]);
                    }
                }
            }
        }
        assert(views(result@).to_set() =~= views(old(result)@).to_set() + views(v@.take(e + 1)).to_set());
        e += 1;
    }
    assert(v@.take(v@.len() as int) =~= v@);
}

/// The FOLLOW rule of the symbol at position `i` of production `p`, given the FIRST sets `f`:
/// what follows it in `p` can start with, other than `ε`, follows it; and if what follows it
/// may be empty, whatever follows the left-hand side follows it.
pub open spec fn follow_rule(p: Production, i: int, f: spec_fn(Seq<char>) -> Set<Seq<char>>, g: spec_fn(Seq<char>) -> Set<Seq<char>>) -> bool {
    let fb = first_of_seq(p.rhs@.subrange(i + 1, p.rhs@.len() as int), f);
    &&& forall|t: Seq<char>| #[trigger] fb.contains(t) && t != "ε"@ ==> g(p.rhs@[i]@).contains(t)
    &&& fb.contains("ε"@) ==> g(p.lhs@).subset_of(g(p.rhs@[i]@))
}

/// The FOLLOW rules hold of `g`: `EOF` follows the start symbol, and the rule of every
/// nonterminal occurrence in a right-hand side holds.
pub open spec fn follow_closed(
    productions: Seq<Production>,
    f: spec_fn(Seq<char>) -> Set<Seq<char>>,
    g: spec_fn(Seq<char>) -> Set<Seq<char>>,
    start: Seq<char>,
) -> bool {
    &&& g(start).contains("EOF"@)
    &&& forall|q: int, i: int| 0 <= q < productions.len() && 0 <= i < productions[q].rhs@.len()
        && !is_terminal_spec(productions, productions[q].rhs@[i]@) ==> #[trigger] follow_rule(productions[q], i, f, g)
}

/// `EOF` and every string in the given sets.
pub open spec fn universe(sets: Seq<(String, Vec<String>)>) -> Set<Seq<char>>
    decreases sets.len(),
{
    if sets.len() == 0 {
        set!["EOF"@]
    } else {
        universe(sets.drop_last()) + views(sets.last().1@).to_set()
    }
}

/// The universe is finite and holds every set's strings.
pub proof fn lemma_universe(sets: Seq<(String, Vec<String>)>)
    ensures
        universe(sets).finite(),
        universe(sets).contains("EOF"@),
        forall|i: int, e: int| 0 <= i < sets.len() && 0 <= e < sets[i].1@.len()
            ==> universe(sets).contains(#[trigger] sets[i].1@[e]@),
        forall|k: Seq<char>| #[trigger] set_at(sets, k).subset_of(universe(sets)),
    decreases sets.len(),
{
    if sets.len() > 0 {
        let s0 = sets.drop_last();
        lemma_universe(s0);
        assert forall|i: int, e: int| 0 <= i < sets.len() && 0 <= e < sets[i].1@.len()
            implies universe(sets).contains(#[trigger] sets[i].1@[e]@) by {
            if i < sets.len() - 1 {
                assert(s0[i] == sets[i]);
                assert(universe(s0).contains(s0[i].1@[e]@));
            } else {
                assert(views(sets.last().1@)[e] == sets[i].1@[e]@);
            }
        }
    } else {
        assert(set!["EOF"@].contains("EOF"@));
    }
    assert forall|k: Seq<char>| #[trigger] set_at(sets, k).subset_of(universe(sets)) by {
        lemma_set_at_within_universe(sets, k);
    }
}

/// A looked-up set lies within the universe.
pub proof fn lemma_set_at_within_universe(sets: Seq<(String, Vec<String>)>, k: Seq<char>)
    requires
        forall|i: int, e: int| 0 <= i < sets.len() && 0 <= e < sets[i].1@.len()
            ==> universe(sets).contains(#[trigger] sets[i].1@[e]@),
    ensures
        set_at(sets, k).subset_of(universe(sets)),
{
    assert forall|t: Seq<char>| set_at(sets, k).contains(t) implies universe(sets).contains(t) by {
        lemma_set_at_member(sets, k, t);
    }
}

/// A member of a looked-up set is a member of some entry's set.
pub proof fn lemma_set_at_member(sets: Seq<(String, Vec<String>)>, k: Seq<char>, t: Seq<char>)
    requires
        set_at(sets, k).contains(t),
    ensures
        exists|i: int, e: int| 0 <= i < sets.len() && 0 <= e < sets[i].1@.len() && (#[trigger] sets[i].1@[e])@ == t,
    decreases sets.len(),
{
    if sets.len() > 0 {
        if sets[0].0@ == k {
            let e = choose|e: int| 0 <= e < views(sets[0].1@).len() && views(sets[0].1@)[e] == t;
            assert(sets[0].1@[e]@ == t);
        } else {
            let rest = sets.subrange(1, sets.len() as int);
            lemma_set_at_member(rest, k, t);
            let (i, e) = choose|i: int, e: int| 0 <= i < rest.len() && 0 <= e < rest[i].1@.len() && (#[trigger] rest[i].1@[e])@ == t;
            assert(sets[i + 1] == rest[i]);
            assert(sets[i + 1].1@[e]@ == t);
        }
    }
}

/// The room left in the sets if each may hold `u` strings.
pub open spec fn slack(sets: Seq<(String, Vec<String>)>, u: nat) -> int
    decreases sets.len(),
{
    if sets.len() == 0 {
        0
    } else {
        slack(sets.drop_last(), u) + (u - sets.last().1@.len())
    }
}

/// Sets that only grow leave no more room, and less when one of them grows.
pub proof fn lemma_slack(a: Seq<(String, Vec<String>)>, b: Seq<(String, Vec<String>)>, u: nat)
    requires
        a.len() == b.len(),
        forall|i: int| 0 <= i < a.len() ==> (#[trigger] a[i]).1@.len() <= b[i].1@.len(),
    ensures
        slack(b, u) <= slack(a, u),
        (exists|i: int| 0 <= i < a.len() && (#[trigger] a[i]).1@.len() < b[i].1@.len()) ==> slack(b, u) < slack(a, u),
        (forall|i: int| 0 <= i < b.len() ==> (#[trigger] b[i]).1@.len() <= u) ==> slack(b, u) >= 0,
    decreases a.len(),
{
    if a.len() > 0 {
        let a0 = a.drop_last();
        let b0 = b.drop_last();
        assert forall|i: int| 0 <= i < a0.len() implies (#[trigger] a0[i]).1@.len() <= b0[i].1@.len() by {
            assert(a0[i] == a[i]);
            assert(b0[i] == b[i]);
        }
        lemma_slack(a0, b0, u);
        if exists|i: int| 0 <= i < a.len() && (#[trigger] a[i]).1@.len() < b[i].1@.len() {
            let i = choose|i: int| 0 <= i < a.len() && (#[trigger] a[i]).1@.len() < b[i].1@.len();
            if i < a.len() - 1 {
                assert(a0[i] == a[i]);
                assert(b0[i] == b[i]);
            }
        }
        if forall|i: int| 0 <= i < b.len() ==> (#[trigger] b[i]).1@.len() <= u {
            assert forall|i: int| 0 <= i < b0.len() implies (#[trigger] b0[i]).1@.len() <= u by {
                assert(b0[i] == b[i]);
            }
            assert(b[b.len() - 1].1@.len() <= u);
        }
    }
}

/// A list without repeats drawn from a finite set is no longer than the set.
pub proof fn lemma_nodup_bounded(v: Seq<Seq<char>>, u: Set<Seq<char>>)
    requires
        u.finite(),
        v.no_duplicates(),
        forall|e: int| 0 <= e < v.len() ==> u.contains(#[trigger] v[e]),
    ensures
        v.len() <= u.len(),
{
    v.unique_seq_to_set();
    assert(v.to_set().subset_of(u));
    vstd::set_lib::lemma_len_subset(v.to_set(), u);
}

/// Two lists of sets with the same keys and the same strings, entry by entry.
pub open spec fn same_sets(a: Seq<(String, Vec<String>)>, b: Seq<(String, Vec<String>)>) -> bool {
    &&& a.len() == b.len()
    &&& forall|j: int| 0 <= j < a.len() ==> (#[trigger] a[j]).0@ == b[j].0@ && views(a[j].1@) == views(b[j].1@)
}

/// Lists of sets that agree entry by entry look the same.
pub proof fn lemma_same_sets(a: Seq<(String, Vec<String>)>, b: Seq<(String, Vec<String>)>)
    requires
        same_sets(a, b),
    ensures
        forall|k: Seq<char>| #[trigger] set_at(a, k) == set_at(b, k),
        sets_fn(a) == sets_fn(b),
{
    assert forall|k: Seq<char>| #[trigger] set_at(a, k) == set_at(b, k) by {
        lemma_same_sets_at(a, b, k);
    }
    assert(sets_fn(a) =~= sets_fn(b));
}

proof fn lemma_same_sets_at(a: Seq<(String, Vec<String>)>, b: Seq<(String, Vec<String>)>, k: Seq<char>)
    requires
        same_sets(a, b),
    ensures
        set_at(a, k) == set_at(b, k),
    decreases a.len(),
{
    if a.len() > 0 {
        assert(a[0].0@ == b[0].0@ && views(a[0].1@) == views(b[0].1@));
        let ra = a.subrange(1, a.len() as int);
        let rb = b.subrange(1, b.len() as int);
        assert forall|j: int| 0 <= j < ra.len() implies (#[trigger] ra[j]).0@ == rb[j].0@ && views(ra[j].1@) == views(rb[j].1@) by {
            assert(ra[j] == a[j + 1]);
            assert(rb[j] == b[j + 1]);
        }
        lemma_same_sets_at(ra, rb, k);
    }
}

/// The strings of `v` from position `lo` on.
fn strings_from(v: &Vec<String>, lo: usize) -> (r: Vec<String>)
    requires
        lo <= v@.len(),
    ensures
        r@ == v@.subrange(lo as int, v@.len() as int),
{
    let mut r: Vec<String> = Vec::new();
    let mut k: usize = lo;
    while k < v.len()
        invariant
            lo <= k <= v@.len(),
            r@ == v@.subrange(lo as int, k as int),
        decreases v@.len() - k,
    {
        r.push(v[k].clone());
        assert(r@ =~= v@.subrange(lo as int, k + 1));
        k += 1;
    }
    r
}

/// Every string in the sets lies in `u`.
pub open spec fn sets_in(sets: Seq<(String, Vec<String>)>, u: Set<Seq<char>>) -> bool {
    forall|i: int, e: int| 0 <= i < sets.len() && 0 <= e < sets[i].1@.len() ==> u.contains(#[trigger] sets[i].1@[e]@)
}

/// One application of the FOLLOW rule of position `i` of production `q`; whether a set grew.
fn follow_step(
    follow: &mut Vec<(String, Vec<String>)>,
    productions: &[Production],
    first: &FirstSets,
    q: usize,
    i: usize,
    Ghost(start): Ghost<Seq<char>>,
) -> (grew: bool)
    requires
        q < productions@.len(),
        i < productions@[q as int].rhs@.len(),
        keys_distinct(first@),
        keys_distinct(old(follow)@),
        sets_nodup(old(follow)@),
        forall|k: Seq<char>| #[trigger] has_key(old(follow)@, k) <==> is_lhs(productions@, k),
        sets_in(old(follow)@, universe(first@)),
        forall|g: spec_fn(Seq<char>) -> Set<Seq<char>>| follow_closed(productions@, sets_fn(first@), g, start)
            ==> sets_within(old(follow)@, g),
    ensures
        final(follow)@.len() == old(follow)@.len(),
        forall|j: int| 0 <= j < final(follow)@.len() ==> (#[trigger] final(follow)@[j]).0 == old(follow)@[j].0,
        forall|j: int| 0 <= j < final(follow)@.len() ==> (#[trigger] old(follow)@[j]).1@.len() <= final(follow)@[j].1@.len(),
        forall|j: int| 0 <= j < final(follow)@.len() ==> views((#[trigger] old(follow)@[j]).1@).to_set().subset_of(
            views(final(follow)@[j].1@).to_set()),
        keys_distinct(final(follow)@),
        sets_nodup(final(follow)@),
        sets_in(final(follow)@, universe(first@)),
        forall|g: spec_fn(Seq<char>) -> Set<Seq<char>>| follow_closed(productions@, sets_fn(first@), g, start)
            ==> sets_within(final(follow)@, g),
        grew ==> exists|j: int| 0 <= j < old(follow)@.len() && (#[trigger] old(follow)@[j]).1@.len() < final(follow)@[j].1@.len(),
        !grew ==> same_sets(final(follow)@, old(follow)@),
        !grew && !is_terminal_spec(productions@, productions@[q as int].rhs@[i as int]@)
            ==> follow_rule(productions@[q as int], i as int, sets_fn(first@), sets_fn(final(follow)@)),
{
    let ghost old_follow = follow@;
    let ghost p = productions@[q as int];
    let ghost f = sets_fn(first@);
    let rhs = &productions[q].rhs;
    let b = &rhs[i];
    if is_terminal(b.as_str(), productions) {
        return false;
    }
    let n = rhs.len();
    let beta = strings_from(rhs, i + 1);
    let first_beta = compute_first_of_sequence(beta.as_slice(), first, productions);
    proof {
        assert(has_key(follow@, b@));
        assert(has_key(follow@, p.lhs@)) by {
            assert(productions@[q as int].lhs@ == p.lhs@);
        }
        lemma_universe(first@);
    }
    let bi = key_index(follow, b);
    let li = key_index(follow, &productions[q].lhs);
    let before_len = follow[bi].1.len();
    let ghost fb = first_of_seq(beta@, f);
    assert(beta@ == p.rhs@.subrange(i + 1, p.rhs@.len() as int));
    add_non_eps(&mut follow[bi].1, &first_beta);
    let ghost mid = follow@;
    proof {
        assert forall|j: int| 0 <= j < mid.len() && j != bi implies #[trigger] mid[j] == old_follow[j] by {}
    }
    proof {
        assert forall|j: int| 0 <= j < mid.len() && j != bi implies #[trigger] mid[j] == old_follow[j] by {}
        assert(mid[bi as int].0 == old_follow[bi as int].0);
        assert(views(first_beta@).to_set() == fb);
        // what the first addition contributes lies in the universe and in every closed g
        assert forall|t: Seq<char>| fb.contains(t) && t != "ε"@ implies universe(first@).contains(t) by {
            let j2 = choose|j2: int| 0 <= j2 < beta@.len() && nullable_prefix(beta@, f, j2) && #[trigger] f(beta@[j2]@).contains(t);
            assert(set_at(first@, beta@[j2]@).subset_of(universe(first@)));
        }
        assert(sets_in(mid, universe(first@))) by {
            assert forall|j: int, e: int| 0 <= j < mid.len() && 0 <= e < mid[j].1@.len()
                implies universe(first@).contains(#[trigger] mid[j].1@[e]@) by {
                if j == bi {
                    assert(views(mid[j].1@).to_set().contains(views(mid[j].1@)[e]));
                    if !views(old_follow[j].1@).to_set().contains(mid[j].1@[e]@) {
                        assert(fb.contains(mid[j].1@[e]@));
                    } else {
                        let e2 = choose|e2: int| 0 <= e2 < views(old_follow[j].1@).len() && views(old_follow[j].1@)[e2] == mid[j].1@[e]@;
                        assert(old_follow[j].1@[e2]@ == mid[j].1@[e]@);
                    }
                } else {
                    assert(mid[j] == old_follow[j]);
                }
            }
        }
        assert forall|g: spec_fn(Seq<char>) -> Set<Seq<char>>| follow_closed(productions@, f, g, start)
            implies sets_within(mid, g) by {
            assert(follow_rule(productions@[q as int], i as int, f, g));
            assert(sets_within(old_follow, g));
            assert forall|j: int, e: int| 0 <= j < mid.len() && 0 <= e < mid[j].1@.len()
                implies g(mid[j].0@).contains(#[trigger] mid[j].1@[e]@) by {
                if j == bi {
                    assert(views(mid[j].1@).to_set().contains(views(mid[j].1@)[e]));
                    assert(mid[j].0@ == p.rhs@[i as int]@);
                    if !views(old_follow[j].1@).to_set().contains(mid[j].1@[e]@) {
                        assert(fb.remove("ε"@).contains(mid[j].1@[e]@));
                        assert(fb.contains(mid[j].1@[e]@));
                    } else {
                        let e2 = choose|e2: int| 0 <= e2 < views(old_follow[j].1@).len() && views(old_follow[j].1@)[e2] == mid[j].1@[e]@;
                        assert(old_follow[j].1@[e2]@ == mid[j].1@[e]@);
                    }
                } else {
                    assert(mid[j] == old_follow[j]);
                }
            }
        }
    }
    let first_beta2 = compute_first_of_sequence(beta.as_slice(), first, productions);
    let eps = String::from_str("ε");
    let mut added = false;
    if contains_string(&first_beta2, &eps) {
        let follow_lhs = copy_strings(&follow[li].1);
        add_all(&mut follow[bi].1, &follow_lhs);
        added = true;
        proof {
            let fin = follow@;
            assert(views(follow_lhs@) == views(mid[li as int].1@));
            assert forall|j: int| 0 <= j < fin.len() && j != bi implies #[trigger] fin[j] == mid[j] by {}
            assert(fin[bi as int].0 == mid[bi as int].0);
            assert(sets_in(fin, universe(first@))) by {
                assert forall|j: int, e: int| 0 <= j < fin.len() && 0 <= e < fin[j].1@.len()
                    implies universe(first@).contains(#[trigger] fin[j].1@[e]@) by {
                    if j == bi {
                        assert(views(fin[j].1@).to_set().contains(views(fin[j].1@)[e]));
                        if !views(mid[j].1@).to_set().contains(fin[j].1@[e]@) {
                            let e2 = choose|e2: int| 0 <= e2 < views(mid[li as int].1@).len() && views(mid[li as int].1@)[e2] == fin[j].1@[e]@;
                            assert(mid[li as int].1@[e2]@ == fin[j].1@[e]@);
                        } else {
                            let e2 = choose|e2: int| 0 <= e2 < views(mid[j].1@).len() && views(mid[j].1@)[e2] == fin[j].1@[e]@;
                            assert(mid[j].1@[e2]@ == fin[j].1@[e]@);
                        }
                    } else {
                        assert(fin[j] == mid[j]);
                    }
                }
            }
            assert forall|g: spec_fn(Seq<char>) -> Set<Seq<char>>| follow_closed(productions@, f, g, start)
                implies sets_within(fin, g) by {
                assert(follow_rule(productions@[q as int], i as int, f, g));
                assert(sets_within(mid, g));
                assert(fb.contains("ε"@));
                assert forall|j: int, e: int| 0 <= j < fin.len() && 0 <= e < fin[j].1@.len()
                    implies g(fin[j].0@).contains(#[trigger] fin[j].1@[e]@) by {
                    if j == bi {
                        assert(views(fin[j].1@).to_set().contains(views(fin[j].1@)[e]));
                        if !views(mid[j].1@).to_set().contains(fin[j].1@[e]@) {
                            let e2 = choose|e2: int| 0 <= e2 < views(mid[li as int].1@).len() && views(mid[li as int].1@)[e2] == fin[j].1@[e]@;
                            assert(mid[li as int].1@[e2]@ == fin[j].1@[e]@);
                            assert(g(p.lhs@).contains(fin[j].1@[e]@));
                        } else {
                            let e2 = choose|e2: int| 0 <= e2 < views(mid[j].1@).len() && views(mid[j].1@)[e2] == fin[j].1@[e]@;
                            assert(mid[j].1@[e2]@ == fin[j].1@[e]@);
                        }
                    } else {
                        assert(fin[j] == mid[j]);
                    }
                }
            }
        }
    }
    let grew = follow[bi].1.len() > before_len;
    proof {
        let fin = follow@;
        if !added {
            assert(fin == mid);
        }
        assert forall|j: int| 0 <= j < fin.len() && j != bi implies #[trigger] fin[j] == old_follow[j] by {
            assert(fin[j] == mid[j]);
        }
        assert forall|j: int| 0 <= j < fin.len() implies views((#[trigger] old_follow[j]).1@).to_set().subset_of(
            views(fin[j].1@).to_set()) by {
            if j != bi {
                assert(fin[j] == old_follow[j]);
            }
        }
        if !grew {
            assert(mid[bi as int].1@ == old_follow[bi as int].1@);
            assert(fin[bi as int].1@ == mid[bi as int].1@);
            assert(same_sets(fin, old_follow));
            lemma_set_at_index(fin, bi as int);
            lemma_set_at_index(fin, li as int);
            assert(b@ == p.rhs@[i as int]@);
            let g2 = sets_fn(fin);
            assert forall|t: Seq<char>| #[trigger] fb.contains(t) && t != "ε"@ implies g2(p.rhs@[i as int]@).contains(t) by {
                assert(views(mid[bi as int].1@).to_set().contains(t));
            }
            if fb.contains("ε"@) {
                assert(views(first_beta2@).contains("ε"@)) by {
                    assert(views(first_beta2@).to_set().contains("ε"@));
                }
                assert(added);
            }
        }
    }
    grew
}

/// The FOLLOW sets of the grammar's nonterminals, given FIRST sets: the least sets (see
/// `follow_closed`) with an entry for every left-hand side.
pub fn compute_follow(productions: &[Production], first: &FirstSets, start_symbol: &str) -> (follow: FollowSets)
    requires
        keys_distinct(first@),
        is_lhs(productions@, start_symbol@),
    ensures
        keys_distinct(follow@),
        sets_nodup(follow@),
        forall|k: Seq<char>| #[trigger] has_key(follow@, k) <==> is_lhs(productions@, k),
        follow_closed(productions@, sets_fn(first@), sets_fn(follow@), start_symbol@),
        forall|g: spec_fn(Seq<char>) -> Set<Seq<char>>| follow_closed(productions@, sets_fn(first@), g, start_symbol@)
            ==> forall|k: Seq<char>| #[trigger] set_at(follow@, k).subset_of(g(k)),
        forall|k: Seq<char>| !(#[trigger] set_at(follow@, k)).contains("ε"@),
{
    let ghost prods = productions@;
    let ghost f = sets_fn(first@);
    let ghost start = start_symbol@;
    let ghost u = universe(first@);
    proof {
        lemma_universe(first@);
    }
    let mut follow: Vec<(String, Vec<String>)> = Vec::new();
    let mut q: usize = 0;
    while q < productions.len()
        invariant
            prods == productions@,
            q <= prods.len(),
            keys_distinct(follow@),
            forall|i: int| 0 <= i < follow@.len() ==> (#[trigger] follow@[i]).1@.len() == 0,
            forall|k: Seq<char>| #[trigger] has_key(follow@, k) ==> is_lhs(prods, k),
            forall|q2: int| 0 <= q2 < q ==> has_key(follow@, (#[trigger] prods[q2]).lhs@),
        decreases prods.len() - q,
    {
        let ghost before = follow@;
        ensure_key(&mut follow, &productions[q].lhs);
        proof {
            assert(prods[q as int].lhs@ == productions@[q as int].lhs@);
            assert forall|k: Seq<char>| #[trigger] has_key(follow@, k) implies is_lhs(prods, k) by {
                if !has_key(before, k) {
                    let i = choose|i: int| 0 <= i < follow@.len() && (#[trigger] follow@[i]).0@ == k;
                    if i < before.len() { assert(follow@[i] == before[i]); }
                    assert(prods[q as int].lhs@ == k);
                }
            }
            assert forall|q2: int| 0 <= q2 <= q implies has_key(follow@, (#[trigger] prods[q2]).lhs@) by {
                if q2 < q && follow@ != before {
                    let i = choose|i: int| 0 <= i < before.len() && (#[trigger] before[i]).0@ == prods[q2].lhs@;
                    assert(follow@[i] == before[i]);
                }
            }
            assert forall|i: int| 0 <= i < follow@.len() implies (#[trigger] follow@[i]).1@.len() == 0 by {
                if i < before.len() && follow@ != before { assert(follow@[i] == before[i]); }
            }
        }
        q += 1;
    }
    proof {
        assert forall|k: Seq<char>| is_lhs(prods, k) implies #[trigger] has_key(follow@, k) by {
            let q2 = choose|q2: int| 0 <= q2 < prods.len() && (#[trigger] prods[q2]).lhs@ == k;
        }
    }
    let start_string = String::from_str(start_symbol);
    let si = key_index(&follow, &start_string);
    let ghost before_eof = follow@;
    follow[si].1.push(String::from_str("EOF"));
    proof {
        assert forall|j: int| 0 <= j < follow@.len() && j != si implies #[trigger] follow@[j] == before_eof[j] by {}
        assert(views(follow@[si as int].1@) =~= seq!["EOF"@]);
        assert(views(follow@[si as int].1@).contains("EOF"@)) by {
            assert(views(follow@[si as int].1@)[0] == "EOF"@);
        }
        assert forall|k: Seq<char>| #[trigger] has_key(follow@, k) <==> has_key(before_eof, k) by {
            if has_key(follow@, k) {
                let i = choose|i: int| 0 <= i < follow@.len() && (#[trigger] follow@[i]).0@ == k;
                assert(before_eof[i].0 == follow@[i].0);
            }
            if has_key(before_eof, k) {
                let i = choose|i: int| 0 <= i < before_eof.len() && (#[trigger] before_eof[i]).0@ == k;
                assert(before_eof[i].0 == follow@[i].0);
            }
        }
        assert forall|g: spec_fn(Seq<char>) -> Set<Seq<char>>| follow_closed(prods, f, g, start)
            implies sets_within(follow@, g) by {
            assert forall|i: int, e: int| 0 <= i < follow@.len() && 0 <= e < follow@[i].1@.len()
                implies g(follow@[i].0@).contains(#[trigger] follow@[i].1@[e]@) by {
                assert(i == si);
                assert(follow@[i].1@[e]@ == "EOF"@);
            }
        }
        assert(sets_in(follow@, u));
        assert(sets_nodup(follow@));
        lemma_slack(follow@, follow@, u.len());
    }
    let mut changed = true;
    while changed
        invariant
            prods == productions@,
            f == sets_fn(first@),
            u == universe(first@),
            u.finite(),
            keys_distinct(first@),
            keys_distinct(follow@),
            sets_nodup(follow@),
            sets_in(follow@, u),
            si < follow@.len(),
            follow@[si as int].0@ == start,
            views(follow@[si as int].1@).contains("EOF"@),
            forall|k: Seq<char>| #[trigger] has_key(follow@, k) <==> is_lhs(prods, k),
            forall|g: spec_fn(Seq<char>) -> Set<Seq<char>>| follow_closed(prods, f, g, start) ==> sets_within(follow@, g),
            !changed ==> forall|q2: int, i2: int| 0 <= q2 < prods.len() && 0 <= i2 < prods[q2].rhs@.len()
                && !is_terminal_spec(prods, prods[q2].rhs@[i2]@) ==> #[trigger] follow_rule(prods[q2], i2, f, sets_fn(follow@)),
            slack(follow@, u.len()) >= 0,
        decreases 2 * slack(follow@, u.len()) + (if changed { 1int } else { 0int }),
    {
        changed = false;
        let ghost pass_start = follow@;
        let mut q: usize = 0;
        while q < productions.len()
            invariant
                prods == productions@,
                f == sets_fn(first@),
                u == universe(first@),
                u.finite(),
                keys_distinct(first@),
                q <= prods.len(),
                keys_distinct(follow@),
                sets_nodup(follow@),
                sets_in(follow@, u),
                follow@.len() == pass_start.len(),
                si < follow@.len(),
                forall|j: int| 0 <= j < follow@.len() ==> (#[trigger] follow@[j]).0 == pass_start[j].0,
                forall|j: int| 0 <= j < follow@.len() ==> (#[trigger] pass_start[j]).1@.len() <= follow@[j].1@.len(),
                follow@[si as int].0@ == start,
                views(follow@[si as int].1@).contains("EOF"@),
                forall|k: Seq<char>| #[trigger] has_key(follow@, k) <==> is_lhs(prods, k),
                forall|g: spec_fn(Seq<char>) -> Set<Seq<char>>| follow_closed(prods, f, g, start) ==> sets_within(follow@, g),
                changed ==> exists|j: int| 0 <= j < pass_start.len() && (#[trigger] pass_start[j]).1@.len() < follow@[j].1@.len(),
                !changed ==> same_sets(follow@, pass_start),
                !changed ==> forall|q2: int, i2: int| 0 <= q2 < q && 0 <= i2 < prods[q2].rhs@.len()
                    && !is_terminal_spec(prods, prods[q2].rhs@[i2]@) ==> #[trigger] follow_rule(prods[q2], i2, f, sets_fn(follow@)),
            decreases prods.len() - q,
        {
            let rhs_len = productions[q].rhs.len();
            let mut i: usize = 0;
            while i < rhs_len
                invariant
                    prods == productions@,
                    f == sets_fn(first@),
                    u == universe(first@),
                    u.finite(),
                    keys_distinct(first@),
                    q < prods.len(),
                    rhs_len == prods[q as int].rhs@.len(),
                    i <= rhs_len,
                    keys_distinct(follow@),
                    sets_nodup(follow@),
                    sets_in(follow@, u),
                    follow@.len() == pass_start.len(),
                    si < follow@.len(),
                    forall|j: int| 0 <= j < follow@.len() ==> (#[trigger] follow@[j]).0 == pass_start[j].0,
                    forall|j: int| 0 <= j < follow@.len() ==> (#[trigger] pass_start[j]).1@.len() <= follow@[j].1@.len(),
                    follow@[si as int].0@ == start,
                    views(follow@[si as int].1@).contains("EOF"@),
                    forall|k: Seq<char>| #[trigger] has_key(follow@, k) <==> is_lhs(prods, k),
                    forall|g: spec_fn(Seq<char>) -> Set<Seq<char>>| follow_closed(prods, f, g, start) ==> sets_within(follow@, g),
                    changed ==> exists|j: int| 0 <= j < pass_start.len() && (#[trigger] pass_start[j]).1@.len() < follow@[j].1@.len(),
                    !changed ==> same_sets(follow@, pass_start),
                    !changed ==> forall|q2: int, i2: int| (0 <= q2 < q || (q2 == q && 0 <= i2 < i)) && 0 <= i2 < prods[q2].rhs@.len()
                        && !is_terminal_spec(prods, prods[q2].rhs@[i2]@) ==> #[trigger] follow_rule(prods[q2], i2, f, sets_fn(follow@)),
                decreases rhs_len - i,
            {
                let ghost before = follow@;
                let grew = follow_step(&mut follow, productions, first, q, i, Ghost(start));
                proof {
                    assert forall|k: Seq<char>| #[trigger] has_key(follow@, k) <==> has_key(before, k) by {
                        if has_key(follow@, k) {
                            let j = choose|j: int| 0 <= j < follow@.len() && (#[trigger] follow@[j]).0@ == k;
                            assert(before[j].0 == follow@[j].0);
                        }
                        if has_key(before, k) {
                            let j = choose|j: int| 0 <= j < before.len() && (#[trigger] before[j]).0@ == k;
                            assert(before[j].0 == follow@[j].0);
                        }
                    }
                    assert(views(before[si as int].1@).to_set().contains("EOF"@));
                    assert(views(follow@[si as int].1@).to_set().contains("EOF"@));
                    assert forall|j: int| 0 <= j < follow@.len() implies (#[trigger] pass_start[j]).1@.len() <= follow@[j].1@.len() by {
                        assert(before[j].1@.len() <= follow@[j].1@.len());
                    }
                    if grew {
                        let j = choose|j: int| 0 <= j < before.len() && (#[trigger] before[j]).1@.len() < follow@[j].1@.len();
                        assert(pass_start[j].1@.len() <= before[j].1@.len());
                    }
                    if changed {
                        let j = choose|j: int| 0 <= j < pass_start.len() && (#[trigger] pass_start[j]).1@.len() < before[j].1@.len();
                        assert(before[j].1@.len() <= follow@[j].1@.len());
                    }
                    if !changed && !grew {
                        lemma_same_sets(follow@, before);
                        assert(same_sets(follow@, pass_start)) by {
                            assert forall|j: int| 0 <= j < follow@.len() implies (#[trigger] follow@[j]).0@ == pass_start[j].0@
                                && views(follow@[j].1@) == views(pass_start[j].1@) by {
                                assert(follow@[j].0@ == before[j].0@ && views(follow@[j].1@) == views(before[j].1@));
                                assert(before[j].0@ == pass_start[j].0@ && views(before[j].1@) == views(pass_start[j].1@));
                            }
                        }
                    }
                }
                if grew {
                    changed = true;
                }
                i += 1;
            }
            q += 1;
        }
        proof {
            assert forall|j: int| 0 <= j < follow@.len() implies (#[trigger] follow@[j]).1@.len() <= u.len() by {
                assert forall|e: int| 0 <= e < views(follow@[j].1@).len() implies u.contains(#[trigger] views(follow@[j].1@)[e]) by {
                    assert(views(follow@[j].1@)[e] == follow@[j].1@[e]@);
                }
                lemma_nodup_bounded(views(follow@[j].1@), u);
            }
            lemma_slack(pass_start, follow@, u.len());
        }
    }
    proof {
        lemma_set_at_index(follow@, si as int);
        assert(sets_fn(follow@)(start).contains("EOF"@)) by {
            assert(views(follow@[si as int].1@).to_set().contains("EOF"@));
        }
        assert forall|g: spec_fn(Seq<char>) -> Set<Seq<char>>| follow_closed(prods, f, g, start)
            implies forall|k: Seq<char>| #[trigger] set_at(follow@, k).subset_of(g(k)) by {
            lemma_within_lookup(follow@, g);
        }
        assert forall|k: Seq<char>| !(#[trigger] set_at(follow@, k)).contains("ε"@) by {
            lemma_least_follow_no_eps(prods, f, follow@, start, k);
        }
    }
    follow
}

/// In the least sets closed under the FOLLOW rules, no set holds `ε`.
proof fn lemma_least_follow_no_eps(prods: Seq<Production>, f: spec_fn(Seq<char>) -> Set<Seq<char>>,
    sets: Seq<(String, Vec<String>)>, start: Seq<char>, k: Seq<char>)
    requires
        follow_closed(prods, f, sets_fn(sets), start),
        forall|g: spec_fn(Seq<char>) -> Set<Seq<char>>| follow_closed(prods, f, g, start)
            ==> forall|j: Seq<char>| #[trigger] set_at(sets, j).subset_of(g(j)),
    ensures
        !set_at(sets, k).contains("ε"@),
{
    let g = sets_fn(sets);
    let g2 = |j: Seq<char>| set_at(sets, j).remove("ε"@);
    assert("EOF"@ != "ε"@) by {
        reveal_strlit("EOF");
        reveal_strlit("ε");
        assert("EOF"@.len() == 3);
        assert("ε"@.len() == 1);
    }
    assert(g2(start).contains("EOF"@));
    assert forall|q: int, i: int| 0 <= q < prods.len() && 0 <= i < prods[q].rhs@.len()
        && !is_terminal_spec(prods, prods[q].rhs@[i]@) implies #[trigger] follow_rule(prods[q], i, f, g2) by {
        assert(follow_rule(prods[q], i, f, g));
        let p = prods[q];
        let fb = first_of_seq(p.rhs@.subrange(i + 1, p.rhs@.len() as int), f);
        assert forall|t: Seq<char>| #[trigger] fb.contains(t) && t != "ε"@ implies g2(p.rhs@[i]@).contains(t) by {
            assert(g(p.rhs@[i]@).contains(t));
        }
        if fb.contains("ε"@) {
            assert(g(p.lhs@).subset_of(g(p.rhs@[i]@)));
            assert(g2(p.lhs@).subset_of(g2(p.rhs@[i]@)));
        }
    }
    assert(follow_closed(prods, f, g2, start));
    assert(set_at(sets, k).subset_of(g2(k)));
}

/// The cells of a row: lookahead and right-hand side.
pub open spec fn cell_at(cells: Seq<(String, Vec<String>)>, t: Seq<char>) -> Option<Seq<Seq<char>>>
    decreases cells.len(),
{
    if cells.len() == 0 {
        None
    } else if cells[0].0@ == t {
        Some(views(cells[0].1@))
    } else {
        cell_at(cells.subrange(1, cells.len() as int), t)
    }
}

/// The right-hand side the table holds for nonterminal `a` and lookahead `t`, if any (first
/// row for `a`, first cell for `t`).
pub open spec fn table_cell(table: Seq<(String, Vec<(String, Vec<String>)>)>, a: Seq<char>, t: Seq<char>) -> Option<Seq<Seq<char>>>
    decreases table.len(),
{
    if table.len() == 0 {
        None
    } else if table[0].0@ == a {
        cell_at(table[0].1@, t)
    } else {
        table_cell(table.subrange(1, table.len() as int), a, t)
    }
}

/// The table has a row for `a`.
pub open spec fn has_row(table: Seq<(String, Vec<(String, Vec<String>)>)>, a: Seq<char>) -> bool {
    exists|r: int| 0 <= r < table.len() && (#[trigger] table[r]).0@ == a
}

/// Rows have distinct nonterminals, each row has cells, and cells in a row distinct lookaheads.
pub open spec fn table_wf(table: Seq<(String, Vec<(String, Vec<String>)>)>) -> bool {
    &&& forall|r1: int, r2: int| 0 <= r1 < r2 < table.len() ==> (#[trigger] table[r1]).0@ != (#[trigger] table[r2]).0@
    &&& forall|r: int| 0 <= r < table.len() ==> (#[trigger] table[r]).1@.len() > 0
    &&& forall|r: int| 0 <= r < table.len() ==> keys_distinct((#[trigger] table[r]).1@)
}

/// With distinct lookaheads, the cell for an entry's lookahead is that entry's.
pub proof fn lemma_cell_at_index(cells: Seq<(String, Vec<String>)>, c: int)
    requires
        keys_distinct(cells),
        0 <= c < cells.len(),
    ensures
        cell_at(cells, cells[c].0@) == Some(views(cells[c].1@)),
    decreases cells.len(),
{
    if c > 0 {
        let rest = cells.subrange(1, cells.len() as int);
        assert(cells[0].0@ != cells[c].0@);
        assert(rest[c - 1] == cells[c]);
        lemma_cell_at_index(rest, c - 1);
    }
}

/// Without an entry for `t`, there is no cell for it.
pub proof fn lemma_cell_at_missing(cells: Seq<(String, Vec<String>)>, t: Seq<char>)
    requires
        !has_key(cells, t),
    ensures
        cell_at(cells, t) is None,
    decreases cells.len(),
{
    if cells.len() > 0 {
        let rest = cells.subrange(1, cells.len() as int);
        assert(!has_key(rest, t)) by {
            if has_key(rest, t) {
                let i = choose|i: int| 0 <= i < rest.len() && (#[trigger] rest[i]).0@ == t;
                assert(cells[i + 1] == rest[i]);
            }
        }
        lemma_cell_at_missing(rest, t);
    }
}

/// With distinct rows, the cells for a row's nonterminal are that row's.
pub proof fn lemma_table_row(table: Seq<(String, Vec<(String, Vec<String>)>)>, r: int, t: Seq<char>)
    requires
        table_wf(table),
        0 <= r < table.len(),
    ensures
        table_cell(table, table[r].0@, t) == cell_at(table[r].1@, t),
    decreases table.len(),
{
    if r > 0 {
        let rest = table.subrange(1, table.len() as int);
        assert(table[0].0@ != table[r].0@);
        assert(rest[r - 1] == table[r]);
        assert(table_wf(rest)) by {
            assert forall|r1: int, r2: int| 0 <= r1 < r2 < rest.len() implies (#[trigger] rest[r1]).0@ != (#[trigger] rest[r2]).0@ by {
                assert(rest[r1] == table[r1 + 1]);
                assert(rest[r2] == table[r2 + 1]);
            }
            assert forall|r1: int| 0 <= r1 < rest.len() implies (#[trigger] rest[r1]).1@.len() > 0 && keys_distinct(rest[r1].1@) by {
                assert(rest[r1] == table[r1 + 1]);
            }
        }
        lemma_table_row(rest, r - 1, t);
    }
}

/// Without a row for `a`, there are no cells for it.
pub proof fn lemma_table_missing(table: Seq<(String, Vec<(String, Vec<String>)>)>, a: Seq<char>, t: Seq<char>)
    requires
        !has_row(table, a),
    ensures
        table_cell(table, a, t) is None,
    decreases table.len(),
{
    if table.len() > 0 {
        let rest = table.subrange(1, table.len() as int);
        assert(!has_row(rest, a)) by {
            if has_row(rest, a) {
                let r = choose|r: int| 0 <= r < rest.len() && (#[trigger] rest[r]).0@ == a;
                assert(table[r + 1] == rest[r]);
            }
        }
        lemma_table_missing(rest, a, t);
    }
}

/// The position of the row for `a`, if any.
pub fn find_row(table: &Vec<(String, Vec<(String, Vec<String>)>)>, a: &String) -> (r: Option<usize>)
    ensures
        match r {
            None => !has_row(table@, a@),
            Some(i) => i < table@.len() && table@[i as int].0@ == a@
                && forall|j: int| 0 <= j < i ==> (#[trigger] table@[j]).0@ != a@,
        },
{
    let mut i: usize = 0;
    while i < table.len()
        invariant
            i <= table@.len(),
            forall|j: int| 0 <= j < i ==> (#[trigger] table@[j]).0@ != a@,
        decreases table@.len() - i,
    {
        if table[i].0 == *a {
            return Some(i);
        }
        i += 1;
    }
    None
}

/// Sets the table's cell for `a` and `t` to `rhs`, adding the row or the cell if needed.
fn table_insert(table: &mut Vec<(String, Vec<(String, Vec<String>)>)>, a: &String, t: &String, rhs: &Vec<String>)
    requires
        table_wf(old(table)@),
    ensures
        table_wf(final(table)@),
        forall|a2: Seq<char>, t2: Seq<char>| #[trigger] table_cell(final(table)@, a2, t2)
            == if a2 == a@ && t2 == t@ { Some(views(rhs@)) } else { table_cell(old(table)@, a2, t2) },
        forall|a2: Seq<char>| #[trigger] has_row(final(table)@, a2) <==> has_row(old(table)@, a2) || a2 == a@,
{
    let ghost old_t = table@;
    let value = copy_strings(rhs);
    match find_row(table, a) {
        Some(r) => {
            let ghost old_row = table@[r as int].1@;
            match find_key(&table[r].1, t) {
                Some(c) => {
                    table[r].1.set(c, (t.clone(), value));
                    proof {
                        let nt = table@;
                        let nrow = nt[r as int].1@;
                        assert forall|j: int| 0 <= j < nt.len() && j != r implies #[trigger] nt[j] == old_t[j] by {}
                        assert(nt[r as int].0 == old_t[r as int].0);
                        assert(nrow == old_row.update(c as int, nrow[c as int]));
                        assert forall|c1: int, c2: int| 0 <= c1 < c2 < nrow.len() implies (#[trigger] nrow[c1]).0@ != (#[trigger] nrow[c2]).0@ by {
                            assert(old_row[c1].0@ != old_row[c2].0@);
                        }
                        assert(table_wf(nt)) by {
                            assert forall|r1: int, r2: int| 0 <= r1 < r2 < nt.len() implies (#[trigger] nt[r1]).0@ != (#[trigger] nt[r2]).0@ by {
                                assert(old_t[r1].0@ != old_t[r2].0@);
                            }
                        }
                        assert forall|a2: Seq<char>, t2: Seq<char>| #[trigger] table_cell(nt, a2, t2)
                            == if a2 == a@ && t2 == t@ { Some(views(rhs@)) } else { table_cell(old_t, a2, t2) } by {
                            if has_row(old_t, a2) {
                                let r2 = choose|r2: int| 0 <= r2 < old_t.len() && (#[trigger] old_t[r2]).0@ == a2;
                                lemma_table_row(old_t, r2, t2);
                                lemma_table_row(nt, r2, t2);
                                if r2 == r {
                                    if has_key(old_row, t2) {
                                        let c2 = choose|c2: int| 0 <= c2 < old_row.len() && (#[trigger] old_row[c2]).0@ == t2;
                                        lemma_cell_at_index(old_row, c2);
                                        lemma_cell_at_index(nrow, c2);
                                    } else {
                                        lemma_cell_at_missing(old_row, t2);
                                        assert(!has_key(nrow, t2)) by {
                                            if has_key(nrow, t2) {
                                                let c2 = choose|c2: int| 0 <= c2 < nrow.len() && (#[trigger] nrow[c2]).0@ == t2;
                                                assert(old_row[c2].0@ == nrow[c2].0@);
                                            }
                                        }
                                        lemma_cell_at_missing(nrow, t2);
                                    }
                                } else {
                                    assert(nt[r2] == old_t[r2]);
                                }
                            } else {
                                lemma_table_missing(old_t, a2, t2);
                                assert(!has_row(nt, a2)) by {
                                    if has_row(nt, a2) {
                                        let r2 = choose|r2: int| 0 <= r2 < nt.len() && (#[trigger] nt[r2]).0@ == a2;
                                        assert(old_t[r2].0@ == nt[r2].0@);
                                    }
                                }
                                lemma_table_missing(nt, a2, t2);
                            }
                        }
                        assert forall|a2: Seq<char>| #[trigger] has_row(nt, a2) <==> has_row(old_t, a2) || a2 == a@ by {
                            if has_row(nt, a2) {
                                let r2 = choose|r2: int| 0 <= r2 < nt.len() && (#[trigger] nt[r2]).0@ == a2;
                                assert(old_t[r2].0@ == nt[r2].0@);
                            }
                            if has_row(old_t, a2) {
                                let r2 = choose|r2: int| 0 <= r2 < old_t.len() && (#[trigger] old_t[r2]).0@ == a2;
                                assert(old_t[r2].0@ == nt[r2].0@);
                            }
                        }
                    }
                },
                None => {
                    table[r].1.push((t.clone(), value));
                    proof {
                        let nt = table@;
                        let nrow = nt[r as int].1@;
                        assert forall|j: int| 0 <= j < nt.len() && j != r implies #[trigger] nt[j] == old_t[j] by {}
                        assert(nt[r as int].0 == old_t[r as int].0);
                        assert(nrow.len() == old_row.len() + 1);
                        assert forall|c1: int| 0 <= c1 < old_row.len() implies #[trigger] nrow[c1] == old_row[c1] by {}
                        assert(nrow[old_row.len() as int].0@ == t@);
                        assert forall|c1: int, c2: int| 0 <= c1 < c2 < nrow.len() implies (#[trigger] nrow[c1]).0@ != (#[trigger] nrow[c2]).0@ by {
                            if c2 < old_row.len() {
                                assert(old_row[c1].0@ != old_row[c2].0@);
                            } else {
                                assert(old_row[c1].0@ != t@);
                            }
                        }
                        assert(table_wf(nt)) by {
                            assert forall|r1: int, r2: int| 0 <= r1 < r2 < nt.len() implies (#[trigger] nt[r1]).0@ != (#[trigger] nt[r2]).0@ by {
                                assert(old_t[r1].0@ != old_t[r2].0@);
                            }
                        }
                        assert forall|a2: Seq<char>, t2: Seq<char>| #[trigger] table_cell(nt, a2, t2)
                            == if a2 == a@ && t2 == t@ { Some(views(rhs@)) } else { table_cell(old_t, a2, t2) } by {
                            if has_row(old_t, a2) {
                                let r2 = choose|r2: int| 0 <= r2 < old_t.len() && (#[trigger] old_t[r2]).0@ == a2;
                                lemma_table_row(old_t, r2, t2);
                                lemma_table_row(nt, r2, t2);
                                if r2 == r {
                                    if t2 == t@ {
                                        lemma_cell_at_index(nrow, old_row.len() as int);
                                    } else if has_key(old_row, t2) {
                                        let c2 = choose|c2: int| 0 <= c2 < old_row.len() && (#[trigger] old_row[c2]).0@ == t2;
                                        lemma_cell_at_index(old_row, c2);
                                        lemma_cell_at_index(nrow, c2);
                                    } else {
                                        lemma_cell_at_missing(old_row, t2);
                                        assert(!has_key(nrow, t2)) by {
                                            if has_key(nrow, t2) {
                                                let c2 = choose|c2: int| 0 <= c2 < nrow.len() && (#[trigger] nrow[c2]).0@ == t2;
                                                if c2 < old_row.len() { assert(old_row[c2] == nrow[c2]); }
                                            }
                                        }
                                        lemma_cell_at_missing(nrow, t2);
                                    }
                                } else {
                                    assert(nt[r2] == old_t[r2]);
                                }
                            } else {
                                lemma_table_missing(old_t, a2, t2);
                                assert(!has_row(nt, a2)) by {
                                    if has_row(nt, a2) {
                                        let r2 = choose|r2: int| 0 <= r2 < nt.len() && (#[trigger] nt[r2]).0@ == a2;
                                        assert(old_t[r2].0@ == nt[r2].0@);
                                    }
                                }
                                lemma_table_missing(nt, a2, t2);
                            }
                        }
                        assert forall|a2: Seq<char>| #[trigger] has_row(nt, a2) <==> has_row(old_t, a2) || a2 == a@ by {
                            if has_row(nt, a2) {
                                let r2 = choose|r2: int| 0 <= r2 < nt.len() && (#[trigger] nt[r2]).0@ == a2;
                                assert(old_t[r2].0@ == nt[r2].0@);
                            }
                            if has_row(old_t, a2) {
                                let r2 = choose|r2: int| 0 <= r2 < old_t.len() && (#[trigger] old_t[r2]).0@ == a2;
                                assert(old_t[r2].0@ == nt[r2].0@);
                            }
                        }
                    }
                },
            }
        },
        None => {
            let mut cells: Vec<(String, Vec<String>)> = Vec::new();
            cells.push((t.clone(), value));
            table.push((a.clone(), cells));
            proof {
                let nt = table@;
                let n0 = old_t.len() as int;
                assert forall|j: int| 0 <= j < n0 implies #[trigger] nt[j] == old_t[j] by {}
                assert(nt[n0].0@ == a@);
                let nrow = nt[n0].1@;
                assert(nrow.len() == 1);
                assert(nrow[0].0@ == t@);
                assert(table_wf(nt)) by {
                    assert forall|r1: int, r2: int| 0 <= r1 < r2 < nt.len() implies (#[trigger] nt[r1]).0@ != (#[trigger] nt[r2]).0@ by {
                        if r2 < n0 {
                            assert(old_t[r1].0@ != old_t[r2].0@);
                        } else {
                            assert(old_t[r1].0@ != a@);
                        }
                    }
                    assert forall|r1: int| 0 <= r1 < nt.len() implies (#[trigger] nt[r1]).1@.len() > 0 && keys_distinct(nt[r1].1@) by {
                        if r1 < n0 { assert(nt[r1] == old_t[r1]); }
                    }
                }
                assert forall|a2: Seq<char>, t2: Seq<char>| #[trigger] table_cell(nt, a2, t2)
                    == if a2 == a@ && t2 == t@ { Some(views(rhs@)) } else { table_cell(old_t, a2, t2) } by {
                    if a2 == a@ {
                        lemma_table_row(nt, n0, t2);
                        lemma_table_missing(old_t, a2, t2);
                        if t2 == t@ {
                            lemma_cell_at_index(nrow, 0);
                        } else {
                            assert(!has_key(nrow, t2)) by {
                                if has_key(nrow, t2) {
                                    let c2 = choose|c2: int| 0 <= c2 < nrow.len() && (#[trigger] nrow[c2]).0@ == t2;
                                }
                            }
                            lemma_cell_at_missing(nrow, t2);
                        }
                    } else if has_row(old_t, a2) {
                        let r2 = choose|r2: int| 0 <= r2 < old_t.len() && (#[trigger] old_t[r2]).0@ == a2;
                        lemma_table_row(old_t, r2, t2);
                        lemma_table_row(nt, r2, t2);
                    } else {
                        lemma_table_missing(old_t, a2, t2);
                        assert(!has_row(nt, a2)) by {
                            if has_row(nt, a2) {
                                let r2 = choose|r2: int| 0 <= r2 < nt.len() && (#[trigger] nt[r2]).0@ == a2;
                                if r2 < n0 { assert(old_t[r2] == nt[r2]); }
                            }
                        }
                        lemma_table_missing(nt, a2, t2);
                    }
                }
                assert forall|a2: Seq<char>| #[trigger] has_row(nt, a2) <==> has_row(old_t, a2) || a2 == a@ by {
                    if has_row(nt, a2) {
                        let r2 = choose|r2: int| 0 <= r2 < nt.len() && (#[trigger] nt[r2]).0@ == a2;
                        if r2 < n0 { assert(old_t[r2] == nt[r2]); }
                    }
                    if has_row(old_t, a2) {
                        let r2 = choose|r2: int| 0 <= r2 < old_t.len() && (#[trigger] old_t[r2]).0@ == a2;
                        assert(old_t[r2] == nt[r2]);
                    }
                }
            }
        },
    }
}

/// Whether the entry `x` of a FIRST set puts lookahead `t` in a production's row: `x` itself
/// (other than `ε`), or, for `ε`, each lookahead in `follows`.
pub open spec fn covers(x: Seq<char>, follows: Set<Seq<char>>, t: Seq<char>) -> bool {
    (x != "ε"@ && t == x) || (x == "ε"@ && follows.contains(t))
}

/// Some of the first `e` entries covers `t`.
pub open spec fn covered_upto(xs: Seq<String>, e: int, follows: Set<Seq<char>>, t: Seq<char>) -> bool {
    exists|e2: int| 0 <= e2 < e && #[trigger] covers(xs[e2]@, follows, t)
}

/// Whether production `p` is entered on lookahead `t`: `t` (other than `ε`) can start its
/// right-hand side, or its right-hand side may be empty and `t` follows its left-hand side.
pub open spec fn selects(
    p: Production,
    f: spec_fn(Seq<char>) -> Set<Seq<char>>,
    g: spec_fn(Seq<char>) -> Set<Seq<char>>,
    t: Seq<char>,
) -> bool {
    let fs = first_of_seq(p.rhs@, f);
    (t != "ε"@ && fs.contains(t)) || (fs.contains("ε"@) && g(p.lhs@).contains(t))
}

/// The last of the first `n` productions for `a` entered on lookahead `t`.
pub open spec fn last_choice(
    productions: Seq<Production>,
    f: spec_fn(Seq<char>) -> Set<Seq<char>>,
    g: spec_fn(Seq<char>) -> Set<Seq<char>>,
    a: Seq<char>,
    t: Seq<char>,
    n: int,
) -> Option<int>
    decreases n,
{
    if n <= 0 {
        None
    } else if productions[n - 1].lhs@ == a && selects(productions[n - 1], f, g, t) {
        Some(n - 1)
    } else {
        last_choice(productions, f, g, a, t, n - 1)
    }
}

/// The cell the first `n` productions give for `a` and `t`: the right-hand side of the last
/// one entered.
pub open spec fn expected_cell(
    productions: Seq<Production>,
    f: spec_fn(Seq<char>) -> Set<Seq<char>>,
    g: spec_fn(Seq<char>) -> Set<Seq<char>>,
    a: Seq<char>,
    t: Seq<char>,
    n: int,
) -> Option<Seq<Seq<char>>> {
    match last_choice(productions, f, g, a, t, n) {
        Some(q) => Some(views(productions[q].rhs@)),
        None => None,
    }
}

/// Every row has some cell.
pub open spec fn rows_filled(table: Seq<(String, Vec<(String, Vec<String>)>)>) -> bool {
    forall|a: Seq<char>| #[trigger] has_row(table, a) ==> exists|t: Seq<char>| #[trigger] table_cell(table, a, t) is Some
}

/// Puts the production's right-hand side in its row for the lookaheads one entry of its FIRST
/// set covers (see `covers`).
fn add_entry(
    table: &mut Vec<(String, Vec<(String, Vec<String>)>)>,
    follow: &FollowSets,
    lhs: &String,
    rhs: &Vec<String>,
    x: &String,
)
    requires
        keys_distinct(follow@),
        table_wf(old(table)@),
        rows_filled(old(table)@),
    ensures
        table_wf(final(table)@),
        rows_filled(final(table)@),
        forall|a: Seq<char>, t: Seq<char>| #[trigger] table_cell(final(table)@, a, t) == if a == lhs@
            && covers(x@, set_at(follow@, lhs@), t) { Some(views(rhs@)) } else { table_cell(old(table)@, a, t) },
{
    let ghost gl = set_at(follow@, lhs@);
    let eps = String::from_str("ε");
    if *x == eps {
        match find_key(follow, lhs) {
            Some(fi) => {
                proof {
                    lemma_set_at_index(follow@, fi as int);
                }
                let fl = &follow[fi].1;
                let ghost t0 = table@;
                let mut k: usize = 0;
                while k < fl.len()
                    invariant
                        *fl == follow@[fi as int].1,
                        views(fl@).to_set() == gl,
                        k <= fl@.len(),
                        table_wf(table@),
                        rows_filled(table@),
                        forall|a: Seq<char>, t: Seq<char>| #[trigger] table_cell(table@, a, t) == if a == lhs@
                            && views(fl@.take(k as int)).contains(t) { Some(views(rhs@)) } else { table_cell(t0, a, t) },
                    decreases fl@.len() - k,
                {
                    let ghost before = table@;
                    table_insert(table, lhs, &fl[k], rhs);
                    proof {
                        assert(views(fl@.take(k + 1)) =~= views(fl@.take(k as int)).push(fl@[k as int]@));
                        assert forall|a: Seq<char>| #[trigger] has_row(table@, a) implies
                            exists|t: Seq<char>| #[trigger] table_cell(table@, a, t) is Some by {
                            if a == lhs@ {
                                assert(table_cell(table@, a, fl@[k as int]@) is Some);
                            } else {
                                let t = choose|t: Seq<char>| #[trigger] table_cell(before, a, t) is Some;
                                assert(table_cell(table@, a, t) is Some);
                            }
                        }
                        assert forall|a: Seq<char>, t: Seq<char>| #[trigger] table_cell(table@, a, t) == if a == lhs@
                            && views(fl@.take(k + 1)).contains(t) { Some(views(rhs@)) } else { table_cell(t0, a, t) } by {
                            let v1 = views(fl@.take(k + 1));
                            let v0 = views(fl@.take(k as int));
                            assert(v1[k as int] == fl@[k as int]@);
                            if a == lhs@ && v1.contains(t) && t != fl@[k as int]@ {
                                let i = choose|i: int| 0 <= i < v1.len() && v1[i] == t;
                                assert(v0[i] == t);
                            }
                            if v0.contains(t) {
                                let i = choose|i: int| 0 <= i < v0.len() && v0[i] == t;
                                assert(v1[i] == t);
                            }
                        }
                    }
                    k += 1;
                }
                proof {
                    assert(fl@.take(fl@.len() as int) =~= fl@);
                    assert forall|a: Seq<char>, t: Seq<char>| #[trigger] table_cell(table@, a, t) == if a == lhs@
                        && covers(x@, gl, t) { Some(views(rhs@)) } else { table_cell(t0, a, t) } by {
                        assert(views(fl@).contains(t) <==> gl.contains(t));
                    }
                }
            },
            None => {
                proof {
                    lemma_set_at_missing(follow@, lhs@);
                }
            },
        }
    } else {
        let ghost before = table@;
        table_insert(table, lhs, x, rhs);
        proof {
            assert forall|a: Seq<char>| #[trigger] has_row(table@, a) implies
                exists|t: Seq<char>| #[trigger] table_cell(table@, a, t) is Some by {
                if a == lhs@ {
                    assert(table_cell(table@, a, x@) is Some);
                } else {
                    let t = choose|t: Seq<char>| #[trigger] table_cell(before, a, t) is Some;
                    assert(table_cell(table@, a, t) is Some);
                }
            }
        }
    }
}

/// The LL(1) table: for each nonterminal and lookahead, the right-hand side of the last
/// production for it that the lookahead enters (see `selects`); a row exactly for the
/// nonterminals that have a cell.
pub fn build_ll1_table(productions: &[Production], first: &FirstSets, follow: &FollowSets) -> (table: LL1Table)
    requires
        keys_distinct(first@),
        keys_distinct(follow@),
    ensures
        table_wf(table@),
        forall|a: Seq<char>, t: Seq<char>| #[trigger] table_cell(table@, a, t)
            == expected_cell(productions@, sets_fn(first@), sets_fn(follow@), a, t, productions@.len() as int),
        forall|a: Seq<char>| #[trigger] has_row(table@, a) <==> exists|t: Seq<char>|
            #[trigger] table_cell(table@, a, t) is Some,
{
    let ghost prods = productions@;
    let ghost f = sets_fn(first@);
    let ghost g = sets_fn(follow@);
    let mut table: Vec<(String, Vec<(String, Vec<String>)>)> = Vec::new();
    let mut q: usize = 0;
    while q < productions.len()
        invariant
            prods == productions@,
            f == sets_fn(first@),
            g == sets_fn(follow@),
            keys_distinct(first@),
            keys_distinct(follow@),
            q <= prods.len(),
            table_wf(table@),
            rows_filled(table@),
            forall|a: Seq<char>, t: Seq<char>| #[trigger] table_cell(table@, a, t) == expected_cell(prods, f, g, a, t, q as int),
        decreases prods.len() - q,
    {
        let lhs = &productions[q].lhs;
        let rhs = &productions[q].rhs;
        let ghost p = prods[q as int];
        let first_set = compute_first_of_sequence(rhs.as_slice(), first, productions);
        let ghost fs = first_of_seq(p.rhs@, f);
        let ghost gl = g(p.lhs@);
        let mut e: usize = 0;
        while e < first_set.len()
            invariant
                prods == productions@,
                f == sets_fn(first@),
                g == sets_fn(follow@),
                keys_distinct(follow@),
                q < prods.len(),
                p == prods[q as int],
                *lhs == p.lhs,
                *rhs == p.rhs,
                gl == g(p.lhs@),
                views(first_set@).to_set() == fs,
                e <= first_set@.len(),
                table_wf(table@),
                rows_filled(table@),
                forall|a: Seq<char>, t: Seq<char>| #[trigger] table_cell(table@, a, t) == if a == p.lhs@
                    && covered_upto(first_set@, e as int, gl, t) { Some(views(p.rhs@)) } else {
                    expected_cell(prods, f, g, a, t, q as int) },
            decreases first_set@.len() - e,
        {
            add_entry(&mut table, follow, lhs, rhs, &first_set[e]);
            proof {
                assert forall|t: Seq<char>| covered_upto(first_set@, e + 1, gl, t) <==>
                    (covered_upto(first_set@, e as int, gl, t) || covers(first_set@[e as int]@, gl, t)) by {
                    if covered_upto(first_set@, e + 1, gl, t) {
                        let e2 = choose|e2: int| 0 <= e2 < e + 1 && #[trigger] covers(first_set@[e2]@, gl, t);
                    }
                }
            }
            e += 1;
        }
        proof {
            assert forall|a: Seq<char>, t: Seq<char>| #[trigger] table_cell(table@, a, t) == expected_cell(prods, f, g, a, t, q + 1) by {
                assert(covered_upto(first_set@, first_set@.len() as int, gl, t) <==> selects(p, f, g, t)) by {
                    if covered_upto(first_set@, first_set@.len() as int, gl, t) {
                        let e2 = choose|e2: int| 0 <= e2 < first_set@.len() && #[trigger] covers(first_set@[e2]@, gl, t);
                        assert(views(first_set@)[e2] == first_set@[e2]@);
                        assert(fs.contains(first_set@[e2]@));
                    }
                    if selects(p, f, g, t) {
                        if t != "ε"@ && fs.contains(t) {
                            let e2 = choose|e2: int| 0 <= e2 < views(first_set@).len() && views(first_set@)[e2] == t;
                            assert(covers(first_set@[e2]@, gl, t));
                        } else {
                            let e2 = choose|e2: int| 0 <= e2 < views(first_set@).len() && views(first_set@)[e2] == "ε"@;
                            assert(covers(first_set@[e2]@, gl, t));
                        }
                    }
                }
            }
        }
        q += 1;
    }
    proof {
        assert forall|a: Seq<char>| #[trigger] has_row(table@, a) <==> exists|t: Seq<char>|
            #[trigger] table_cell(table@, a, t) is Some by {
            if exists|t: Seq<char>| #[trigger] table_cell(table@, a, t) is Some {
                let t = choose|t: Seq<char>| #[trigger] table_cell(table@, a, t) is Some;
                if !has_row(table@, a) {
                    lemma_table_missing(table@, a, t);
                }
            }
        }
    }
    table
}

/// The cell for `t` is that of the first entry for `t`.
pub proof fn lemma_cell_at_first(cells: Seq<(String, Vec<String>)>, c: int, t: Seq<char>)
    requires
        0 <= c < cells.len(),
        cells[c].0@ == t,
        forall|j: int| 0 <= j < c ==> (#[trigger] cells[j]).0@ != t,
    ensures
        cell_at(cells, t) == Some(views(cells[c].1@)),
    decreases c,
{
    if c > 0 {
        let rest = cells.subrange(1, cells.len() as int);
        assert(cells[0].0@ != t);
        assert forall|j: int| 0 <= j < c - 1 implies (#[trigger] rest[j]).0@ != t by {
            assert(rest[j] == cells[j + 1]);
        }
        assert(rest[c - 1] == cells[c]);
        lemma_cell_at_first(rest, c - 1, t);
    }
}

/// The cells for `a` are those of the first row for `a`.
pub proof fn lemma_table_first(table: Seq<(String, Vec<(String, Vec<String>)>)>, r: int, a: Seq<char>, t: Seq<char>)
    requires
        0 <= r < table.len(),
        table[r].0@ == a,
        forall|j: int| 0 <= j < r ==> (#[trigger] table[j]).0@ != a,
    ensures
        table_cell(table, a, t) == cell_at(table[r].1@, t),
    decreases r,
{
    if r > 0 {
        let rest = table.subrange(1, table.len() as int);
        assert(table[0].0@ != a);
        assert forall|j: int| 0 <= j < r - 1 implies (#[trigger] rest[j]).0@ != a by {
            assert(rest[j] == table[j + 1]);
        }
        assert(rest[r - 1] == table[r]);
        lemma_table_first(rest, r - 1, a, t);
    }
}

} // verus!
