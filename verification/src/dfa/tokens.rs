//! The deterministic automaton of a set of token patterns recognises each pattern's
//! language: run over the characters of a text, it reaches a state whose set holds an
//! accepting state of a token's automaton exactly when the text is in that token's language,
//! and the token it reports is the matching one of least priority.

use vstd::prelude::*;
use crate::regex::node::RegexChar;
use crate::nfa::state::{StateId, State, edges_of};
use crate::nfa::builder::Graph;
use crate::nfa::closure::{eps_path, eps_closure, eps_closed, move_set, lemma_closed_contains_path};
use crate::nfa::simulator::{label_matches, lets_through, char_move};
use crate::nfa::language::{trace_ok, lemma_trace_cons, lemma_trace_concat, lemma_trace_split};
use crate::nfa::run_paths::{lemma_eps_path_trace, lemma_trace_eps_reach, lemma_closure_closed, lemma_step_complete};
use crate::dfa::run::{nfa_walk, dfa_walk, subset_dfa, lemma_dfa_follows_nfa};
use crate::dfa::dfa::{DFA, DFAState, names_unique, dstate_ok, best_accept, lemma_best_accept_least};
use crate::lexemes::extractor::named_accept;
use crate::nfa::join_nfa::JoinedNFA;
use crate::nfa::builder::{build_spec, tree_size, char_labels, class_labels, labelled, add_edge, add_from_all,
    add_pair_from_all};
use crate::regex::node::{RegexBinOp, RegexUnOp};
use crate::nfa::language::{plain, lang, lemma_build_lang, lemma_build_frame, lemma_add_edge, lemma_add_from_all,
    lemma_add_pair_from_all, lemma_plain_not_anchor};
use crate::regex::model::RegexTree;
use crate::nfa::nfa::NFA;
use crate::nfa::join_nfa::{states_before, offset_of, start_edges, shift_edges, lemma_states_before_mono, joined_from,
    AcceptInfo, accept_of, accepts_upto, accepts_before};

verus! {

/// Every transition is empty or on a literal character.
pub open spec fn literal_labels(g: Graph) -> bool {
    forall|x: int, k: int| 0 <= x < g.len() && 0 <= k < g[x].len() ==>
        (#[trigger] g[x][k]).0 is None || g[x][k].0 matches Some(RegexChar::Literal(_))
}

/// The symbols a text is read as: each character as a literal.
pub open spec fn literals_of(w: Seq<char>) -> Seq<RegexChar> {
    w.map_values(|c: char| literal(c))
}

/// A character as a literal symbol.
pub open spec fn literal(c: char) -> RegexChar {
    RegexChar::Literal(c)
}

/// Where every transition is empty or literal, moving on a character is moving on its
/// literal.
proof fn lemma_literal_move(g: Seq<State>, s: Set<StateId>, c: char)
    requires
        literal_labels(edges_of(g)),
    ensures
        char_move(g, s, c) == move_set(g, s, RegexChar::Literal(c)),
{
    let eg = edges_of(g);
    assert forall|t: StateId| char_move(g, s, c).contains(t) implies move_set(g, s, RegexChar::Literal(c)).contains(t) by {
        let s0 = choose|s0: StateId| s.contains(s0) && 0 <= s0.0 < g.len() && #[trigger] lets_through(g[s0.0 as int], c, t);
        let tr = g[s0.0 as int].transitions@;
        let k = choose|k: int| 0 <= k < tr.len() && (#[trigger] tr[k]).1 == t && label_matches(tr[k].0, c);
        assert(eg[s0.0 as int] == tr);
        assert(eg[s0.0 as int][k] == tr[k]);
        assert(tr[k] == (Some(RegexChar::Literal(c)), t));
        assert(g[s0.0 as int].has_edge(Some(RegexChar::Literal(c)), t));
    }
    assert forall|t: StateId| move_set(g, s, RegexChar::Literal(c)).contains(t) implies char_move(g, s, c).contains(t) by {
        let s0 = choose|s0: StateId| s.contains(s0) && 0 <= s0.0 < g.len() && #[trigger] g[s0.0 as int].has_edge(Some(RegexChar::Literal(c)), t);
        let tr = g[s0.0 as int].transitions@;
        let k = choose|k: int| 0 <= k < tr.len() && tr[k] == (Some(RegexChar::Literal(c)), t);
        assert(label_matches(tr[k].0, c));
        assert(lets_through(g[s0.0 as int], c, t));
    }
    assert(char_move(g, s, c) =~= move_set(g, s, RegexChar::Literal(c)));
}

/// Where every transition is empty or literal, walking the literals of a text from a closed
/// set reaches exactly the ends of the traces reading the text from the set.
pub proof fn lemma_walk_traces(g: Seq<State>, s: Set<StateId>, w: Seq<char>, q: StateId)
    requires
        literal_labels(edges_of(g)),
        eps_closed(g, s),
    ensures
        nfa_walk(g, s, literals_of(w)).contains(q) <==>
            exists|p: StateId, tr: Seq<int>| s.contains(p) && #[trigger] trace_ok(edges_of(g), p, w, q, tr),
    decreases w.len(),
{
    let eg = edges_of(g);
    if w.len() == 0 {
        assert(literals_of(w).len() == 0);
        if s.contains(q) {
            assert(trace_ok(eg, q, w, q, seq![]));
        }
        if exists|p: StateId, tr: Seq<int>| s.contains(p) && #[trigger] trace_ok(eg, p, w, q, tr) {
            let (p, tr) = choose|p: StateId, tr: Seq<int>| s.contains(p) && #[trigger] trace_ok(eg, p, w, q, tr);
            assert(w =~= Seq::<char>::empty());
            lemma_trace_eps_reach(g, p, q, tr);
            let pp = choose|pp: Seq<StateId>| #[trigger] eps_path(g, pp) && set![p].contains(pp[0]) && pp.last() == q;
            lemma_closed_contains_path(g, s, pp);
        }
    } else {
        let c = w[0];
        let rest = w.subrange(1, w.len() as int);
        let ls = literals_of(w);
        assert(ls[0] == literal(c));
        assert(ls.subrange(1, ls.len() as int) =~= literals_of(rest));
        let m = move_set(g, s, RegexChar::Literal(c));
        let s1 = eps_closure(g, m);
        assert(nfa_walk(g, s, ls) == nfa_walk(g, s1, literals_of(rest)));
        lemma_closure_closed(g, m);
        lemma_walk_traces(g, s1, rest, q);
        lemma_literal_move(g, s, c);
        assert(w =~= seq![c] + rest);
        if nfa_walk(g, s, ls).contains(q) {
            let (p1, t2) = choose|p: StateId, tr: Seq<int>| s1.contains(p) && #[trigger] trace_ok(eg, p, rest, q, tr);
            let pp = choose|pp: Seq<StateId>| #[trigger] eps_path(g, pp) && m.contains(pp[0]) && pp.last() == p1;
            let b = pp[0];
            let s0 = choose|s0: StateId| s.contains(s0) && 0 <= s0.0 < g.len() && #[trigger] g[s0.0 as int].has_edge(Some(RegexChar::Literal(c)), b);
            let tr0 = g[s0.0 as int].transitions@;
            let k = choose|k: int| 0 <= k < tr0.len() && tr0[k] == (Some(RegexChar::Literal(c)), b);
            assert(eg[s0.0 as int] == tr0);
            lemma_eps_path_trace(g, pp);
            let te = choose|tr: Seq<int>| #[trigger] trace_ok(eg, pp[0], seq![], pp.last(), tr);
            lemma_trace_concat(eg, b, seq![], p1, te, rest, q, t2);
            assert(Seq::<char>::empty() + rest =~= rest);
            assert(seq![c] + rest =~= w);
            assert(w.drop_first() =~= rest);
            assert(label_matches(Some(RegexChar::Literal(c)), w[0]));
            lemma_trace_cons(eg, s0, k, w, q, te + t2);
            assert(trace_ok(eg, s0, w, q, seq![k] + (te + t2)));
        }
        if exists|p: StateId, tr: Seq<int>| s.contains(p) && #[trigger] trace_ok(eg, p, w, q, tr) {
            let (p, tr) = choose|p: StateId, tr: Seq<int>| s.contains(p) && #[trigger] trace_ok(eg, p, w, q, tr);
            lemma_trace_split(eg, p, seq![c], rest, q, tr);
            let (mid, t1, t2) = choose|mid: StateId, t1: Seq<int>, t2: Seq<int>| #[trigger] trace_ok(eg, p, seq![c], mid, t1) && #[trigger] trace_ok(eg, mid, rest, q, t2);
            lemma_step_complete(g, s, p, c, mid, t1);
            assert(s1.contains(mid));
        }
    }
}

/// The states of automaton `k` fit below the end of the joined automaton.
proof fn lemma_region_fits(nfas: Seq<(NFA, String, usize)>, k: int)
    requires
        0 <= k < nfas.len(),
    ensures
        offset_of(nfas, k) + nfas[k].0.states@.len() <= 1 + states_before(nfas, nfas.len() as int),
        offset_of(nfas, k) + nfas[k].0.states@.len() == offset_of(nfas, k + 1),
{
    lemma_states_before_mono(nfas, k + 1, nfas.len() as int);
}

/// Two states of the joined automaton taken from automata `i` and `k` are the same only if
/// they come from the same automaton.
proof fn lemma_regions_apart(nfas: Seq<(NFA, String, usize)>, i: int, a: int, k: int, b: int)
    requires
        0 <= i < nfas.len(),
        0 <= k < nfas.len(),
        0 <= a < nfas[i].0.states@.len(),
        0 <= b < nfas[k].0.states@.len(),
        offset_of(nfas, i) + a == offset_of(nfas, k) + b,
    ensures
        i == k,
        a == b,
{
    if i < k {
        lemma_region_fits(nfas, i);
        lemma_states_before_mono(nfas, i + 1, k);
    } else if k < i {
        lemma_region_fits(nfas, k);
        lemma_states_before_mono(nfas, k + 1, i);
    }
}

/// Every state of the joined automaton but the start comes from some automaton.
proof fn lemma_region_cover(nfas: Seq<(NFA, String, usize)>, n: int, x: int)
    requires
        0 <= n <= nfas.len(),
        1 <= x < 1 + states_before(nfas, n),
    ensures
        exists|k: int| 0 <= k < n && offset_of(nfas, k) <= x && x < #[trigger] offset_of(nfas, k + 1),
    decreases n,
{
    if n > 0 {
        if x < 1 + states_before(nfas, n - 1) {
            lemma_region_cover(nfas, n - 1, x);
            let k = choose|k: int| 0 <= k < n - 1 && offset_of(nfas, k) <= x && x < #[trigger] offset_of(nfas, k + 1);
            assert(offset_of(nfas, k + 1) == offset_of(nfas, k + 1));
        } else {
            let k = n - 1;
            assert(k + 1 == n);
            assert(offset_of(nfas, k) <= x && x < offset_of(nfas, k + 1));
        }
    }
}

/// A trace through automaton `k` is, moved up, a trace through the joined automaton.
proof fn lemma_shift_trace(j: Seq<State>, nfas: Seq<(NFA, String, usize)>, k: int, p: StateId, w: Seq<char>, q: StateId, tr: Seq<int>)
    requires
        joined_from(j, StateId(0), nfas),
        0 <= k < nfas.len(),
        trace_ok(edges_of(nfas[k].0.states@), p, w, q, tr),
    ensures
        trace_ok(edges_of(j), StateId((offset_of(nfas, k) + p.0) as usize), w, StateId((offset_of(nfas, k) + q.0) as usize), tr),
    decreases tr.len(),
{
    let g = nfas[k].0.states@;
    let off = offset_of(nfas, k);
    lemma_region_fits(nfas, k);
    if tr.len() > 0 {
        let kk = tr[0];
        let eg = edges_of(g);
        let e = eg[p.0 as int][kk];
        assert(nfas[k].0.wf());
        assert(eg[p.0 as int] == g[p.0 as int].transitions@);
        assert(e.1.0 < g.len());
        let x = off + p.0;
        assert(j[x].transitions@ == shift_edges(g[p.0 as int].transitions@, off));
        assert(edges_of(j)[x][kk] == (e.0, StateId((e.1.0 + off) as usize)));
        match e.0 {
            None => lemma_shift_trace(j, nfas, k, e.1, w, q, tr.drop_first()),
            Some(_) => lemma_shift_trace(j, nfas, k, e.1, w.drop_first(), q, tr.drop_first()),
        }
    }
}

/// A trace through the joined automaton from a state of automaton `k` stays among its
/// states and is, moved down, a trace through automaton `k`.
proof fn lemma_unshift_trace(j: Seq<State>, nfas: Seq<(NFA, String, usize)>, k: int, p: StateId, w: Seq<char>, x: StateId, tr: Seq<int>)
    requires
        joined_from(j, StateId(0), nfas),
        0 <= k < nfas.len(),
        0 <= p.0 < nfas[k].0.states@.len(),
        trace_ok(edges_of(j), StateId((offset_of(nfas, k) + p.0) as usize), w, x, tr),
    ensures
        exists|q: StateId| 0 <= q.0 < nfas[k].0.states@.len() && x == StateId((offset_of(nfas, k) + q.0) as usize)
            && #[trigger] trace_ok(edges_of(nfas[k].0.states@), p, w, q, tr),
    decreases tr.len(),
{
    let g = nfas[k].0.states@;
    let eg = edges_of(g);
    let off = offset_of(nfas, k);
    lemma_region_fits(nfas, k);
    if tr.len() == 0 {
        assert(trace_ok(eg, p, w, p, tr));
    } else {
        let kk = tr[0];
        let xs = off + p.0;
        assert(j[xs].transitions@ == shift_edges(g[p.0 as int].transitions@, off));
        assert(edges_of(j)[xs] == j[xs].transitions@);
        assert(eg[p.0 as int] == g[p.0 as int].transitions@);
        let e = eg[p.0 as int][kk];
        assert(nfas[k].0.wf());
        assert(e.1.0 < g.len());
        assert(edges_of(j)[xs][kk] == (e.0, StateId((e.1.0 + off) as usize)));
        let w2 = if e.0 is None { w } else { w.drop_first() };
        lemma_unshift_trace(j, nfas, k, e.1, w2, x, tr.drop_first());
        let q = choose|q: StateId| 0 <= q.0 < g.len() && x == StateId((off + q.0) as usize)
            && #[trigger] trace_ok(eg, e.1, w2, q, tr.drop_first());
        assert(trace_ok(eg, p, w, q, tr));
    }
}

/// The joined automaton of automata whose transitions are empty or literal has only such
/// transitions.
pub proof fn lemma_joined_literal(j: Seq<State>, nfas: Seq<(NFA, String, usize)>)
    requires
        joined_from(j, StateId(0), nfas),
        forall|k: int| 0 <= k < nfas.len() ==> literal_labels(edges_of(#[trigger] nfas[k].0.states@)),
    ensures
        literal_labels(edges_of(j)),
{
    let ej = edges_of(j);
    assert forall|x: int, kk: int| 0 <= x < ej.len() && 0 <= kk < ej[x].len() implies
        (#[trigger] ej[x][kk]).0 is None || ej[x][kk].0 matches Some(RegexChar::Literal(_)) by {
        assert(ej[x] == j[x].transitions@);
        if x == 0 {
            assert(ej[0] == start_edges(nfas));
        } else {
            lemma_region_cover(nfas, nfas.len() as int, x);
            let k = choose|k: int| 0 <= k < nfas.len() && offset_of(nfas, k) <= x && x < #[trigger] offset_of(nfas, k + 1);
            lemma_region_fits(nfas, k);
            let i = x - offset_of(nfas, k);
            let g = nfas[k].0.states@;
            assert(j[offset_of(nfas, k) + i].transitions@ == shift_edges(g[i].transitions@, offset_of(nfas, k)));
            assert(edges_of(g)[i] == g[i].transitions@);
            assert(literal_labels(edges_of(g)));
            assert(ej[x][kk].0 == edges_of(g)[i][kk].0);
        }
    }
}

/// A trace through the joined automaton from its start to a state of automaton `k` is a
/// trace through automaton `k` from its start, and the other way round.
proof fn lemma_joined_start_trace(j: Seq<State>, nfas: Seq<(NFA, String, usize)>, k: int, w: Seq<char>, q: StateId)
    requires
        joined_from(j, StateId(0), nfas),
        0 <= k < nfas.len(),
        0 <= q.0 < nfas[k].0.states@.len(),
    ensures
        (exists|tr: Seq<int>| #[trigger] trace_ok(edges_of(j), StateId(0), w, StateId((offset_of(nfas, k) + q.0) as usize), tr))
            <==> (exists|tr: Seq<int>| #[trigger] trace_ok(edges_of(nfas[k].0.states@), nfas[k].0.start, w, q, tr)),
{
    let ej = edges_of(j);
    let eg = edges_of(nfas[k].0.states@);
    let off = offset_of(nfas, k);
    let x = StateId((off + q.0) as usize);
    lemma_region_fits(nfas, k);
    assert(ej[0] == start_edges(nfas));
    if exists|tr: Seq<int>| #[trigger] trace_ok(ej, StateId(0), w, x, tr) {
        let tr = choose|tr: Seq<int>| #[trigger] trace_ok(ej, StateId(0), w, x, tr);
        assert(tr.len() > 0);
        let i = tr[0];
        assert(ej[0][i] == (None::<RegexChar>, StateId((offset_of(nfas, i) + nfas[i].0.start.0) as usize)));
        assert(nfas[i].0.wf());
        lemma_region_fits(nfas, i);
        lemma_unshift_trace(j, nfas, i, nfas[i].0.start, w, x, tr.drop_first());
        let qi = choose|qi: StateId| 0 <= qi.0 < nfas[i].0.states@.len() && x == StateId((offset_of(nfas, i) + qi.0) as usize)
            && #[trigger] trace_ok(edges_of(nfas[i].0.states@), nfas[i].0.start, w, qi, tr.drop_first());
        lemma_regions_apart(nfas, i, qi.0 as int, k, q.0 as int);
        assert(qi == q);
        assert(trace_ok(eg, nfas[k].0.start, w, q, tr.drop_first()));
    }
    if exists|tr: Seq<int>| #[trigger] trace_ok(eg, nfas[k].0.start, w, q, tr) {
        let tr = choose|tr: Seq<int>| #[trigger] trace_ok(eg, nfas[k].0.start, w, q, tr);
        assert(nfas[k].0.wf());
        lemma_shift_trace(j, nfas, k, nfas[k].0.start, w, q, tr);
        assert(ej[0][k] == (None::<RegexChar>, StateId((off + nfas[k].0.start.0) as usize)));
        lemma_trace_cons(ej, StateId(0), k, w, x, tr);
        assert(trace_ok(ej, StateId(0), w, x, seq![k] + tr));
    }
}

/// Walking the literals of a text through the joined automaton from the closure of its start
/// reaches exactly the ends of the traces reading the text from its start.
proof fn lemma_walk_joined(j: Seq<State>, nfas: Seq<(NFA, String, usize)>, w: Seq<char>, x: StateId)
    requires
        joined_from(j, StateId(0), nfas),
        forall|k: int| 0 <= k < nfas.len() ==> literal_labels(edges_of(#[trigger] nfas[k].0.states@)),
    ensures
        nfa_walk(j, eps_closure(j, set![StateId(0)]), literals_of(w)).contains(x)
            <==> exists|tr: Seq<int>| #[trigger] trace_ok(edges_of(j), StateId(0), w, x, tr),
{
    let ej = edges_of(j);
    let s = eps_closure(j, set![StateId(0)]);
    lemma_joined_literal(j, nfas);
    lemma_closure_closed(j, set![StateId(0)]);
    lemma_walk_traces(j, s, w, x);
    if nfa_walk(j, s, literals_of(w)).contains(x) {
        let (p, t2) = choose|p: StateId, tr: Seq<int>| s.contains(p) && #[trigger] trace_ok(ej, p, w, x, tr);
        let pp = choose|pp: Seq<StateId>| #[trigger] eps_path(j, pp) && set![StateId(0)].contains(pp[0]) && pp.last() == p;
        lemma_eps_path_trace(j, pp);
        let t1 = choose|tr: Seq<int>| #[trigger] trace_ok(ej, pp[0], seq![], pp.last(), tr);
        lemma_trace_concat(ej, StateId(0), seq![], p, t1, w, x, t2);
        assert(Seq::<char>::empty() + w =~= w);
        assert(trace_ok(ej, StateId(0), w, x, t1 + t2));
    }
    if exists|tr: Seq<int>| #[trigger] trace_ok(ej, StateId(0), w, x, tr) {
        let one = seq![StateId(0)];
        assert(eps_path(j, one));
        assert(set![StateId(0)].contains(one[0]));
        assert(s.contains(StateId(0)));
    }
}

/// Walking the deterministic automaton over the literals of `w` ends in a state whose set
/// holds an accepting state of automaton `k`.
pub open spec fn reaches_token(dfa: DFA, nfas: Seq<(NFA, String, usize)>, k: int, w: Seq<char>) -> bool {
    match dfa_walk(dfa.transitions@, dfa.start@, literals_of(w)) {
        Some(name) => exists|i: int, a: StateId| #![trigger dfa.states@[i], nfas[k].0.accepts@.contains(a)]
            0 <= i < dfa.states@.len() && dfa.states@[i].0@ == name
            && nfas[k].0.accepts@.contains(a)
            && dfa.states@[i].1.nfa_subset@.contains(StateId((offset_of(nfas, k) + a.0) as usize)),
        None => false,
    }
}

/// The deterministic automaton built from the automata of token patterns recognises each
/// pattern: walking it over the characters of a text (as literals, the way lexemes are read)
/// ends in a state whose set holds an accepting state of token `k`'s automaton exactly when
/// the text is in the language of token `k`'s pattern. This holds for patterns that stand
/// only for literal characters (no `.` and no anchors).
pub proof fn lemma_dfa_recognizes_token(trees: Seq<RegexTree>, nfas: Seq<(NFA, String, usize)>, joined: JoinedNFA, dfa: DFA, k: int, w: Seq<char>)
    requires
        0 <= k < nfas.len(),
        built_literal(trees, nfas),
        joined_from(joined.states@, joined.start, nfas),
        subset_dfa(dfa, joined.states@, joined.accepts@, joined.start),
    ensures
        reaches_token(dfa, nfas, k, w) == lang(trees[k], w),
{
    lemma_built_literal(trees, nfas);
    let tree = trees[k];
    let j = joined.states@;
    let nk = nfas[k].0;
    let eg = edges_of(nk.states@);
    let off = offset_of(nfas, k);
    let ws = literals_of(w);
    let walk = nfa_walk(j, eps_closure(j, set![StateId(0)]), ws);
    let g0 = Seq::<Seq<crate::nfa::state::Edge>>::empty();
    assert(seq![] =~= g0);
    lemma_build_lang(tree, g0, w);
    lemma_dfa_follows_nfa(dfa, j, joined.accepts@, joined.start, ws);
    lemma_region_fits(nfas, k);
    assert(nk.wf());
    if reaches_token(dfa, nfas, k, w) {
        let name = dfa_walk(dfa.transitions@, dfa.start@, ws)->0;
        let (i, a) = choose|i: int, a: StateId| #![trigger dfa.states@[i], nk.accepts@.contains(a)]
            0 <= i < dfa.states@.len() && dfa.states@[i].0@ == name
            && nk.accepts@.contains(a) && dfa.states@[i].1.nfa_subset@.contains(StateId((off + a.0) as usize));
        let i0 = choose|i0: int| 0 <= i0 < dfa.states@.len() && (#[trigger] dfa.states@[i0]).0@ == name
            && dfa.states@[i0].1.nfa_subset@.to_set() == walk;
        if i != i0 {
            if i < i0 {
                assert(dfa.states@[i].0@ != dfa.states@[i0].0@);
            } else {
                assert(dfa.states@[i0].0@ != dfa.states@[i].0@);
            }
        }
        let x = StateId((off + a.0) as usize);
        assert(dfa.states@[i].1.nfa_subset@.to_set().contains(x));
        lemma_walk_joined(j, nfas, w, x);
        let ia = choose|ia: int| 0 <= ia < nk.accepts@.len() && nk.accepts@[ia] == a;
        lemma_joined_start_trace(j, nfas, k, w, a);
        let tr = choose|tr: Seq<int>| #[trigger] trace_ok(eg, nk.start, w, a, tr);
        assert(trace_ok(eg, nk.start, w, nk.accepts@[ia], tr));
    }
    if lang(tree, w) {
        let (ia, tr) = choose|ia: int, tr: Seq<int>| 0 <= ia < nk.accepts@.len() && #[trigger] trace_ok(eg, nk.start, w, nk.accepts@[ia], tr);
        let a = nk.accepts@[ia];
        let x = StateId((off + a.0) as usize);
        lemma_joined_start_trace(j, nfas, k, w, a);
        lemma_walk_joined(j, nfas, w, x);
        assert(walk.contains(x));
        match dfa_walk(dfa.transitions@, dfa.start@, ws) {
            Some(name) => {
                let i0 = choose|i0: int| 0 <= i0 < dfa.states@.len() && (#[trigger] dfa.states@[i0]).0@ == name
                    && dfa.states@[i0].1.nfa_subset@.to_set() == walk;
                assert(dfa.states@[i0].1.nfa_subset@.to_set().contains(x));
                assert(nk.accepts@.contains(a));
                assert(dfa.states@[i0].1.nfa_subset@.contains(x));
            },
            None => {
                assert(walk.is_empty());
            },
        }
    }
}

/// The accept information of automaton `k`: its token type and priority.
pub open spec fn info_of(nfas: Seq<(NFA, String, usize)>, k: int) -> AcceptInfo {
    AcceptInfo { token_type: nfas[k].1, priority: nfas[k].2 }
}

/// Looking a state up in two lists one after the other finds it in the first, else in the
/// second.
proof fn lemma_accept_of_concat(a: Seq<(StateId, AcceptInfo)>, b: Seq<(StateId, AcceptInfo)>, s: StateId)
    ensures
        accept_of(a + b, s) == (match accept_of(a, s) {
            Some(x) => Some(x),
            None => accept_of(b, s),
        }),
    decreases a.len(),
{
    if a.len() == 0 {
        assert(a + b =~= b);
    } else {
        assert((a + b)[0] == a[0]);
        assert((a + b).subrange(1, (a + b).len() as int) =~= a.subrange(1, a.len() as int) + b);
        lemma_accept_of_concat(a.subrange(1, a.len() as int), b, s);
    }
}

/// The accepting states of automaton `k` among its first `i` states carry its accept
/// information, and no other state is listed.
proof fn lemma_accept_of_upto(nfas: Seq<(NFA, String, usize)>, k: int, i: int, s: StateId)
    requires
        0 <= k < nfas.len(),
        0 <= i <= nfas[k].0.states@.len(),
        offset_of(nfas, k) + nfas[k].0.states@.len() <= usize::MAX,
    ensures
        accept_of(accepts_upto(nfas, k, i), s) == (if offset_of(nfas, k) <= s.0 < offset_of(nfas, k) + i
            && nfas[k].0.accepts@.contains(StateId((s.0 - offset_of(nfas, k)) as usize)) {
            Some(info_of(nfas, k))
        } else {
            None::<AcceptInfo>
        }),
    decreases i,
{
    let off = offset_of(nfas, k);
    if i > 0 {
        lemma_accept_of_upto(nfas, k, i - 1, s);
        let r = accepts_upto(nfas, k, i - 1);
        if nfas[k].0.accepts@.contains(StateId((i - 1) as usize)) {
            let e = (StateId((off + i - 1) as usize), info_of(nfas, k));
            assert(accepts_upto(nfas, k, i) == r.push(e));
            assert(r.push(e) =~= r + seq![e]);
            lemma_accept_of_concat(r, seq![e], s);
            let tail = seq![e];
            assert(tail.subrange(1, 1) =~= Seq::<(StateId, AcceptInfo)>::empty());
            assert(accept_of(Seq::<(StateId, AcceptInfo)>::empty(), s) is None);
            if s.0 == off + i - 1 {
                assert(StateId((s.0 - off) as usize) == StateId((i - 1) as usize));
            }
        } else {
            if s.0 == off + i - 1 {
                assert(StateId((s.0 - off) as usize) == StateId((i - 1) as usize));
            }
        }
    }
}

/// In the joined list, a state of automaton `k` carries `k`'s accept information exactly
/// when it is accepting there; the start state and states past the last automaton carry
/// none.
proof fn lemma_accept_of_before(nfas: Seq<(NFA, String, usize)>, n: int, k: int, x: int)
    requires
        0 <= n <= nfas.len(),
        1 + states_before(nfas, nfas.len() as int) <= usize::MAX,
        0 <= x <= usize::MAX,
    ensures
        (0 <= k < n && offset_of(nfas, k) <= x < offset_of(nfas, k + 1)) ==>
            accept_of(accepts_before(nfas, n), StateId(x as usize)) == (if nfas[k].0.accepts@.contains(StateId((x - offset_of(nfas, k)) as usize)) {
                Some(info_of(nfas, k))
            } else {
                None::<AcceptInfo>
            }),
        (x == 0 || x >= offset_of(nfas, n)) ==> accept_of(accepts_before(nfas, n), StateId(x as usize)) is None,
    decreases n,
{
    let s = StateId(x as usize);
    if n == 0 {
        assert(accepts_before(nfas, 0) =~= Seq::<(StateId, AcceptInfo)>::empty());
    } else {
        lemma_accept_of_before(nfas, n - 1, k, x);
        lemma_region_fits(nfas, n - 1);
        lemma_states_before_mono(nfas, n, nfas.len() as int);
        let a = accepts_before(nfas, n - 1);
        let b = accepts_upto(nfas, n - 1, nfas[n - 1].0.states@.len() as int);
        assert(accepts_before(nfas, n) == a + b);
        lemma_accept_of_concat(a, b, s);
        lemma_accept_of_upto(nfas, n - 1, nfas[n - 1].0.states@.len() as int, s);
        if 0 <= k < n - 1 && offset_of(nfas, k) <= x < offset_of(nfas, k + 1) {
            lemma_states_before_mono(nfas, k + 1, n - 1);
        }
    }
}

/// Labels that all stand for one literal character each.
pub open spec fn all_literal(labels: Seq<RegexChar>) -> bool {
    forall|i: int| 0 <= i < labels.len() ==> (#[trigger] labels[i]) matches RegexChar::Literal(_)
}

/// A tree whose characters and classes stand only for literal characters: no `.` and no
/// anchor.
pub open spec fn literal_tree(t: RegexTree) -> bool
    decreases t,
{
    match t {
        RegexTree::Char(c) => all_literal(char_labels(c)),
        RegexTree::Class(cm) => all_literal(class_labels(cm)),
        RegexTree::Group(e) => literal_tree(*e),
        RegexTree::UnOp(_, e) => literal_tree(*e),
        RegexTree::BinOp(_, l, r) => literal_tree(*l) && literal_tree(*r),
    }
}

/// A literal tree has no anchor.
proof fn lemma_literal_tree_plain(t: RegexTree)
    requires
        literal_tree(t),
    ensures
        plain(t),
    decreases t,
{
    match t {
        RegexTree::Char(c) => {
            let ls = char_labels(c);
            assert(!ls.contains(RegexChar::Start) && !ls.contains(RegexChar::End)) by {
                if ls.contains(RegexChar::Start) {
                    let i = choose|i: int| 0 <= i < ls.len() && ls[i] == RegexChar::Start;
                    assert(ls[i] matches RegexChar::Literal(_));
                }
                if ls.contains(RegexChar::End) {
                    let i = choose|i: int| 0 <= i < ls.len() && ls[i] == RegexChar::End;
                    assert(ls[i] matches RegexChar::Literal(_));
                }
            }
        },
        RegexTree::Class(cm) => {
            let ls = class_labels(cm);
            assert(!ls.contains(RegexChar::Start) && !ls.contains(RegexChar::End)) by {
                if ls.contains(RegexChar::Start) {
                    let i = choose|i: int| 0 <= i < ls.len() && ls[i] == RegexChar::Start;
                    assert(ls[i] matches RegexChar::Literal(_));
                }
                if ls.contains(RegexChar::End) {
                    let i = choose|i: int| 0 <= i < ls.len() && ls[i] == RegexChar::End;
                    assert(ls[i] matches RegexChar::Literal(_));
                }
            }
        },
        RegexTree::Group(e) => lemma_literal_tree_plain(*e),
        RegexTree::UnOp(_, e) => lemma_literal_tree_plain(*e),
        RegexTree::BinOp(_, l, r) => {
            lemma_literal_tree_plain(*l);
            lemma_literal_tree_plain(*r);
        },
    }
}

/// Adding empty transitions, or a new state without transitions, keeps a graph's
/// transitions empty or literal.
proof fn lemma_literal_grow(g: Graph, h: Graph)
    requires
        literal_labels(g),
        g.len() <= h.len(),
        forall|x: int| 0 <= x < g.len() ==> g[x].len() <= (#[trigger] h[x]).len(),
        forall|x: int, k: int| 0 <= x < g.len() && 0 <= k < g[x].len() ==> (#[trigger] h[x][k]) == g[x][k],
        forall|x: int, k: int| 0 <= x < h.len() && 0 <= k < h[x].len() && !(x < g.len() && k < g[x].len())
            ==> (#[trigger] h[x][k]).0 is None,
    ensures
        literal_labels(h),
{
    assert forall|x: int, k: int| 0 <= x < h.len() && 0 <= k < h[x].len() implies
        (#[trigger] h[x][k]).0 is None || h[x][k].0 matches Some(RegexChar::Literal(_)) by {
        if x < g.len() && k < g[x].len() {
            assert(h[x][k] == g[x][k]);
        }
    }
}

/// Building a literal tree adds only empty or literal transitions.
proof fn lemma_build_literal(t: RegexTree, g: Graph)
    requires
        literal_tree(t),
        literal_labels(g),
        g.len() + 3 * tree_size(t) <= usize::MAX,
    ensures
        literal_labels(build_spec(t, g).0),
    decreases t,
{
    lemma_literal_tree_plain(t);
    match t {
        RegexTree::Char(_) | RegexTree::Class(_) => {
            let labels = match t {
                RegexTree::Char(c) => char_labels(c),
                RegexTree::Class(cm) => class_labels(cm),
                _ => seq![],
            };
            let a = StateId((g.len() + 1) as usize);
            let h = g.push(labelled(labels, a)).push(seq![]);
            assert(build_spec(t, g).0 == h);
            assert forall|x: int, k: int| 0 <= x < h.len() && 0 <= k < h[x].len() implies
                (#[trigger] h[x][k]).0 is None || h[x][k].0 matches Some(RegexChar::Literal(_)) by {
                if x == g.len() {
                    assert(h[x] == labelled(labels, a));
                    assert(h[x][k] == (Some(labels[k]), a));
                    assert(labels[k] matches RegexChar::Literal(_));
                } else {
                    assert(h[x] == g[x]);
                }
            }
        },
        RegexTree::Group(e) => lemma_build_literal(*e, g),
        RegexTree::UnOp(op, e) => {
            lemma_build_literal(*e, g);
            lemma_build_frame(*e, g);
            let (g1, s, acc) = build_spec(*e, g);
            let st = StateId(g1.len() as usize);
            let gp = g1.push(seq![]);
            match op {
                RegexUnOp::Star => {
                    lemma_add_pair_from_all(gp, acc, (None, s), (None, st));
                    let g2 = add_pair_from_all(gp, acc, (None, s), (None, st));
                    lemma_add_edge(g2, st, (None, s));
                    let g3 = add_edge(g2, st, (None, s));
                    lemma_literal_grow(g1, g3);
                },
                RegexUnOp::Plus => {
                    lemma_add_from_all(g1, acc, (None, s));
                    lemma_literal_grow(g1, add_from_all(g1, acc, (None, s)));
                },
                RegexUnOp::Optional => {
                    lemma_add_edge(gp, st, (None, s));
                    lemma_literal_grow(g1, add_edge(gp, st, (None, s)));
                },
            }
        },
        RegexTree::BinOp(op, l, r) => {
            lemma_build_literal(*l, g);
            lemma_build_frame(*l, g);
            let (g1, s1, a1) = build_spec(*l, g);
            lemma_build_literal(*r, g1);
            lemma_build_frame(*r, g1);
            let (g2, s2, a2) = build_spec(*r, g1);
            match op {
                RegexBinOp::Or => {
                    let st = StateId(g2.len() as usize);
                    let gp = g2.push(seq![]);
                    lemma_add_edge(gp, st, (None, s1));
                    let gq = add_edge(gp, st, (None, s1));
                    lemma_add_edge(gq, st, (None, s2));
                    lemma_literal_grow(g2, add_edge(gq, st, (None, s2)));
                },
                RegexBinOp::Concat => {
                    lemma_plain_not_anchor(*l);
                    lemma_plain_not_anchor(*r);
                    assert forall|i: int| 0 <= i < a1.len() implies 0 <= (#[trigger] a1[i]).0 < g2.len() by {
                        assert(a1[i].0 < g1.len());
                    }
                    lemma_add_from_all(g2, a1, (None, s2));
                    lemma_literal_grow(g2, add_from_all(g2, a1, (None, s2)));
                },
            }
        },
    }
}

/// The automata of `nfas` are those built from the trees of `trees`, each a literal tree.
pub open spec fn built_literal(trees: Seq<RegexTree>, nfas: Seq<(NFA, String, usize)>) -> bool {
    &&& trees.len() == nfas.len()
    &&& forall|i: int| 0 <= i < trees.len() ==> literal_tree(#[trigger] trees[i])
        && 3 * tree_size(trees[i]) <= usize::MAX
        && (edges_of(nfas[i].0.states@), nfas[i].0.start, nfas[i].0.accepts@) == build_spec(trees[i], seq![])
}

/// The automata built from literal trees have only empty or literal transitions.
pub proof fn lemma_built_literal(trees: Seq<RegexTree>, nfas: Seq<(NFA, String, usize)>)
    requires
        built_literal(trees, nfas),
    ensures
        forall|i: int| 0 <= i < nfas.len() ==> literal_labels(edges_of(#[trigger] nfas[i].0.states@)) && plain(trees[i]),
{
    let g0 = Seq::<Seq<crate::nfa::state::Edge>>::empty();
    assert(seq![] =~= g0);
    assert forall|i: int| 0 <= i < nfas.len() implies literal_labels(edges_of(#[trigger] nfas[i].0.states@)) && plain(trees[i]) by {
        lemma_build_literal(trees[i], g0);
        lemma_literal_tree_plain(trees[i]);
    }
}

/// A state the joined automaton reaches over `w` and that carries accept information carries
/// that of a token whose pattern matches `w`.
proof fn lemma_member_token(trees: Seq<RegexTree>, nfas: Seq<(NFA, String, usize)>, j: Seq<State>, w: Seq<char>, x: StateId)
    requires
        built_literal(trees, nfas),
        joined_from(j, StateId(0), nfas),
        x.0 < j.len(),
        exists|tr: Seq<int>| #[trigger] trace_ok(edges_of(j), StateId(0), w, x, tr),
        accept_of(accepts_before(nfas, nfas.len() as int), x) is Some,
    ensures
        exists|k: int| 0 <= k < nfas.len() && #[trigger] lang(trees[k], w)
            && accept_of(accepts_before(nfas, nfas.len() as int), x) == Some(info_of(nfas, k)),
{
    let n = nfas.len() as int;
    lemma_built_literal(trees, nfas);
    lemma_accept_of_before(nfas, n, 0, x.0 as int);
    assert(x.0 != 0);
    lemma_region_cover(nfas, n, x.0 as int);
    let k = choose|k: int| 0 <= k < n && offset_of(nfas, k) <= x.0 && x.0 < #[trigger] offset_of(nfas, k + 1);
    lemma_region_fits(nfas, k);
    lemma_accept_of_before(nfas, n, k, x.0 as int);
    let off = offset_of(nfas, k);
    let a = StateId((x.0 - off) as usize);
    assert(x == StateId((off + a.0) as usize));
    lemma_joined_start_trace(j, nfas, k, w, a);
    let nk = nfas[k].0;
    let eg = edges_of(nk.states@);
    let tr = choose|tr: Seq<int>| #[trigger] trace_ok(eg, nk.start, w, a, tr);
    let ia = choose|ia: int| 0 <= ia < nk.accepts@.len() && nk.accepts@[ia] == a;
    assert(trace_ok(eg, nk.start, w, nk.accepts@[ia], tr));
    let g0 = Seq::<Seq<crate::nfa::state::Edge>>::empty();
    assert(seq![] =~= g0);
    lemma_build_lang(trees[k], g0, w);
    assert(lang(trees[k], w));
}

/// When token `k`'s pattern matches `w`, the joined automaton reaches over `w` a state
/// carrying `k`'s accept information.
proof fn lemma_token_member(trees: Seq<RegexTree>, nfas: Seq<(NFA, String, usize)>, j: Seq<State>, w: Seq<char>, k: int)
    requires
        built_literal(trees, nfas),
        joined_from(j, StateId(0), nfas),
        0 <= k < nfas.len(),
        lang(trees[k], w),
    ensures
        exists|x: StateId| #[trigger] nfa_walk(j, eps_closure(j, set![StateId(0)]), literals_of(w)).contains(x)
            && accept_of(accepts_before(nfas, nfas.len() as int), x) == Some(info_of(nfas, k)),
{
    let nk = nfas[k].0;
    let eg = edges_of(nk.states@);
    let off = offset_of(nfas, k);
    let g0 = Seq::<Seq<crate::nfa::state::Edge>>::empty();
    assert(seq![] =~= g0);
    lemma_built_literal(trees, nfas);
    lemma_build_lang(trees[k], g0, w);
    let (ia, tr) = choose|ia: int, tr: Seq<int>| 0 <= ia < nk.accepts@.len() && #[trigger] trace_ok(eg, nk.start, w, nk.accepts@[ia], tr);
    let a = nk.accepts@[ia];
    assert(nk.wf());
    lemma_region_fits(nfas, k);
    let x = StateId((off + a.0) as usize);
    lemma_joined_start_trace(j, nfas, k, w, a);
    lemma_walk_joined(j, nfas, w, x);
    lemma_accept_of_before(nfas, nfas.len() as int, k, x.0 as int);
    assert(StateId((x.0 - off) as usize) == a);
    assert(nk.accepts@.contains(a));
}

/// With distinct names, the accept information of the state named `name` is that of the state
/// at its position.
proof fn lemma_named_accept_at(states: Seq<(String, DFAState)>, i: int, name: Seq<char>)
    requires
        names_unique(states),
        0 <= i < states.len(),
        states[i].0@ == name,
    ensures
        named_accept(states, name) == states[i].1.accept,
    decreases i,
{
    if i > 0 {
        let rest = states.subrange(1, states.len() as int);
        assert(states[0].0@ != states[i].0@);
        assert forall|a: int, b: int| 0 <= a < b < rest.len() implies (#[trigger] rest[a]).0@ != (#[trigger] rest[b]).0@ by {
            assert(rest[a] == states[a + 1] && rest[b] == states[b + 1]);
        }
        assert(rest[i - 1] == states[i]);
        lemma_named_accept_at(rest, i - 1, name);
    }
}

/// The accept information the deterministic automaton reports after walking the literals of
/// `w`: that of the state the walk ends in, if it gets through.
pub open spec fn reported_accept(dfa: DFA, w: Seq<char>) -> Option<AcceptInfo> {
    match dfa_walk(dfa.transitions@, dfa.start@, literals_of(w)) {
        Some(name) => named_accept(dfa.states@, name),
        None => None,
    }
}

/// What the lexer's automaton reports after reading a text is decided by the token patterns:
/// it reports nothing exactly when no pattern matches the text; otherwise the token type and
/// priority of a token whose pattern matches, with a priority no larger than that of any
/// other matching token. This holds for patterns that stand only for literal characters (no
/// `.` and no anchors).
pub proof fn lemma_dfa_reports_best_token(trees: Seq<RegexTree>, nfas: Seq<(NFA, String, usize)>, joined: JoinedNFA, dfa: DFA, w: Seq<char>)
    requires
        built_literal(trees, nfas),
        joined_from(joined.states@, joined.start, nfas),
        joined.accepts@ == accepts_before(nfas, nfas.len() as int),
        subset_dfa(dfa, joined.states@, joined.accepts@, joined.start),
    ensures
        (reported_accept(dfa, w) is None) <==> (forall|k: int| 0 <= k < nfas.len() ==> !#[trigger] lang(trees[k], w)),
        reported_accept(dfa, w) is Some ==> exists|k: int| 0 <= k < nfas.len() && #[trigger] lang(trees[k], w)
            && reported_accept(dfa, w) == Some(info_of(nfas, k)),
        reported_accept(dfa, w) is Some ==> forall|k: int| 0 <= k < nfas.len() && #[trigger] lang(trees[k], w)
            ==> reported_accept(dfa, w).unwrap().priority <= nfas[k].2,
{
    lemma_built_literal(trees, nfas);
    let j = joined.states@;
    let acc = joined.accepts@;
    let ws = literals_of(w);
    let walk = nfa_walk(j, eps_closure(j, set![StateId(0)]), ws);
    lemma_dfa_follows_nfa(dfa, j, acc, joined.start, ws);
    match dfa_walk(dfa.transitions@, dfa.start@, ws) {
        Some(name) => {
            let i0 = choose|i0: int| 0 <= i0 < dfa.states@.len() && (#[trigger] dfa.states@[i0]).0@ == name
                && dfa.states@[i0].1.nfa_subset@.to_set() == walk;
            lemma_named_accept_at(dfa.states@, i0, name);
            let sub = dfa.states@[i0].1.nfa_subset@;
            assert(dstate_ok(j, acc, dfa.states@[i0]));
            reveal(dstate_ok);
            assert(reported_accept(dfa, w) == best_accept(sub, acc));
            lemma_best_accept_least(sub, acc);
            assert forall|k: int| 0 <= k < nfas.len() && #[trigger] lang(trees[k], w) implies
                exists|m: int| 0 <= m < sub.len() && accept_of(acc, #[trigger] sub[m]) == Some(info_of(nfas, k)) by {
                lemma_token_member(trees, nfas, j, w, k);
                let x = choose|x: StateId| #[trigger] walk.contains(x) && accept_of(acc, x) == Some(info_of(nfas, k));
                assert(sub.to_set().contains(x));
                let m = choose|m: int| 0 <= m < sub.len() && sub[m] == x;
                assert(accept_of(acc, sub[m]) == Some(info_of(nfas, k)));
            }
            assert forall|m: int| 0 <= m < sub.len() && (#[trigger] accept_of(acc, sub[m])) is Some implies
                exists|k: int| 0 <= k < nfas.len() && #[trigger] lang(trees[k], w)
                    && accept_of(acc, sub[m]) == Some(info_of(nfas, k)) by {
                let x = sub[m];
                assert(sub.to_set().contains(x));
                assert(walk.contains(x));
                lemma_walk_joined(j, nfas, w, x);
                assert(sub[m].0 < j.len());
                lemma_member_token(trees, nfas, j, w, x);
            }
            if reported_accept(dfa, w) is None {
                assert forall|k: int| 0 <= k < nfas.len() implies !#[trigger] lang(trees[k], w) by {
                    if lang(trees[k], w) {
                        let m = choose|m: int| 0 <= m < sub.len() && accept_of(acc, #[trigger] sub[m]) == Some(info_of(nfas, k));
                    }
                }
            } else {
                let m = choose|m: int| 0 <= m < sub.len() && #[trigger] accept_of(acc, sub[m]) == best_accept(sub, acc);
                let k = choose|k: int| 0 <= k < nfas.len() && #[trigger] lang(trees[k], w)
                    && accept_of(acc, sub[m]) == Some(info_of(nfas, k));
                assert forall|k2: int| 0 <= k2 < nfas.len() && #[trigger] lang(trees[k2], w) implies
                    reported_accept(dfa, w).unwrap().priority <= nfas[k2].2 by {
                    let m2 = choose|m2: int| 0 <= m2 < sub.len() && accept_of(acc, #[trigger] sub[m2]) == Some(info_of(nfas, k2));
                }
            }
        },
        None => {
            assert(walk.is_empty());
            assert forall|k: int| 0 <= k < nfas.len() implies !#[trigger] lang(trees[k], w) by {
                if lang(trees[k], w) {
                    lemma_token_member(trees, nfas, j, w, k);
                    let x = choose|x: StateId| #[trigger] walk.contains(x) && accept_of(acc, x) == Some(info_of(nfas, k));
                }
            }
        },
    }
}

} // verus!
