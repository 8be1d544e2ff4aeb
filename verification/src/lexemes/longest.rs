//! Longest match: the lexeme read from a position is the longest run of characters after
//! which the automaton reports a token, and where none is read no run from there gets a
//! report.

use vstd::prelude::*;
use crate::regex::node::RegexChar;
use crate::dfa::dfa::DFA;
use crate::dfa::run::{dfa_walk, subset_dfa};
use crate::dfa::dfa::{dedge_ok, subset_step};
use crate::dfa::tokens::{literals_of, literal, reported_accept, built_literal, info_of, lemma_built_literal,
    lemma_joined_literal, lemma_dfa_reports_best_token};
use crate::lexemes::extractor::{first_target, named_accept, munch, longest_match, next_col};
use crate::nfa::join_nfa::{AcceptInfo, JoinedNFA, joined_from, accepts_before};
use crate::nfa::nfa::NFA;
use crate::nfa::state::{StateId, State, edges_of};
use crate::nfa::closure::move_set;
use crate::nfa::run_paths::{no_edge_on, lemma_no_move};
use crate::nfa::language::lang;
use crate::regex::model::RegexTree;

verus! {

/// Walking one more symbol goes on from where the walk ended.
proof fn lemma_walk_push(trans: Seq<((String, RegexChar), String)>, n: Seq<char>, w: Seq<RegexChar>, c: RegexChar)
    ensures
        dfa_walk(trans, n, w.push(c)) == (match dfa_walk(trans, n, w) {
            Some(m) => first_target(trans, m, c),
            None => None,
        }),
    decreases w.len(),
{
    let wc = w.push(c);
    if w.len() == 0 {
        assert(wc[0] == c);
        assert(wc.subrange(1, wc.len() as int) =~= Seq::<RegexChar>::empty());
        assert(w =~= Seq::<RegexChar>::empty());
        match first_target(trans, n, c) {
            Some(next) => {
                assert(dfa_walk(trans, next, Seq::<RegexChar>::empty()) == Some(next));
            },
            None => {},
        }
    } else {
        assert(wc[0] == w[0]);
        assert(wc.subrange(1, wc.len() as int) =~= w.subrange(1, w.len() as int).push(c));
        match first_target(trans, n, w[0]) {
            Some(next) => lemma_walk_push(trans, next, w.subrange(1, w.len() as int), c),
            None => {},
        }
    }
}

/// The literals of a text one character longer.
proof fn lemma_literals_push(chars: Seq<char>, a: int, b: int)
    requires
        0 <= a <= b < chars.len(),
    ensures
        literals_of(chars.subrange(a, b + 1)) == literals_of(chars.subrange(a, b)).push(literal(chars[b])),
{
    assert(chars.subrange(a, b + 1) =~= chars.subrange(a, b).push(chars[b]));
    assert(literals_of(chars.subrange(a, b + 1)) =~= literals_of(chars.subrange(a, b)).push(literal(chars[b])));
}

/// Once the walk fails, reading further characters does not bring it back.
proof fn lemma_walk_stays_failed(dfa: DFA, chars: Seq<char>, index: int, a: int, e: int)
    requires
        0 <= index <= a <= e <= chars.len(),
        dfa_walk(dfa.transitions@, dfa.start@, literals_of(chars.subrange(index, a))) is None,
    ensures
        dfa_walk(dfa.transitions@, dfa.start@, literals_of(chars.subrange(index, e))) is None,
    decreases e - a,
{
    if e > a {
        lemma_walk_stays_failed(dfa, chars, index, a, e - 1);
        lemma_literals_push(chars, index, e - 1);
        lemma_walk_push(dfa.transitions@, dfa.start@, literals_of(chars.subrange(index, e - 1)), literal(chars[e - 1]));
    }
}

/// `best` is the last position below `i` after whose character, read from `index`, the
/// automaton reports a token, with that report; none if there is no such position.
pub open spec fn last_report(dfa: DFA, chars: Seq<char>, index: int, i: int, best: Option<(int, AcceptInfo, int)>) -> bool {
    match best {
        Some((e, acc, _)) => index <= e < i && reported_accept(dfa, chars.subrange(index, e + 1)) == Some(acc)
            && forall|e2: int| e < e2 < i ==> (#[trigger] reported_accept(dfa, chars.subrange(index, e2 + 1))) is None,
        None => forall|e2: int| index <= e2 < i ==> (#[trigger] reported_accept(dfa, chars.subrange(index, e2 + 1))) is None,
    }
}

/// Reading on keeps the last report, and stops where the walk fails or the text ends.
proof fn lemma_munch_reports(dfa: DFA, chars: Seq<char>, index: int, i: int, state: Seq<char>, col: int, best: Option<(int, AcceptInfo, int)>)
    requires
        0 <= index <= i <= chars.len(),
        dfa_walk(dfa.transitions@, dfa.start@, literals_of(chars.subrange(index, i))) == Some(state),
        last_report(dfa, chars, index, i, best),
    ensures
        ({
            let (stop, st, c, b) = munch(dfa, chars, i, state, col, best);
            &&& i <= stop <= chars.len()
            &&& dfa_walk(dfa.transitions@, dfa.start@, literals_of(chars.subrange(index, stop))) == Some(st)
            &&& last_report(dfa, chars, index, stop, b)
            &&& stop < chars.len() ==> first_target(dfa.transitions@, st, RegexChar::Literal(chars[stop])) is None
        }),
    decreases chars.len() - i,
{
    if i < chars.len() {
        lemma_literals_push(chars, index, i);
        lemma_walk_push(dfa.transitions@, dfa.start@, literals_of(chars.subrange(index, i)), literal(chars[i]));
        match first_target(dfa.transitions@, state, RegexChar::Literal(chars[i])) {
            Some(next) => {
                let text = chars.subrange(index, i + 1);
                assert(dfa_walk(dfa.transitions@, dfa.start@, literals_of(text)) == Some(next));
                assert(reported_accept(dfa, text) == named_accept(dfa.states@, next));
                let best2 = match named_accept(dfa.states@, next) {
                    Some(acc) => Some((i, acc, col)),
                    None => best,
                };
                assert(last_report(dfa, chars, index, i + 1, best2));
                lemma_munch_reports(dfa, chars, index, i + 1, next, next_col(col, chars[i]), best2);
            },
            None => {},
        }
    }
}

/// Without transitions on the end anchor, none is found.
proof fn lemma_no_end_target(trans: Seq<((String, RegexChar), String)>, n: Seq<char>)
    requires
        forall|k: int| 0 <= k < trans.len() ==> (#[trigger] trans[k]).0.1 != RegexChar::End,
    ensures
        first_target(trans, n, RegexChar::End) is None,
    decreases trans.len(),
{
    if trans.len() > 0 {
        let rest = trans.subrange(1, trans.len() as int);
        assert forall|k: int| 0 <= k < rest.len() implies (#[trigger] rest[k]).0.1 != RegexChar::End by {
            assert(rest[k] == trans[k + 1]);
        }
        assert(trans[0].0.1 != RegexChar::End);
        lemma_no_end_target(rest, n);
    }
}

/// Longest match: without transitions on the end anchor, the match found at `index` is the
/// last position after whose character, read from `index`, the automaton reports a token,
/// carrying that report, and no later position gets one; when no match is found, no
/// position from `index` on gets a report.
pub proof fn lemma_longest_match(dfa: DFA, chars: Seq<char>, index: int, column: int)
    requires
        0 <= index < chars.len(),
        forall|k: int| 0 <= k < dfa.transitions@.len() ==> (#[trigger] dfa.transitions@[k]).0.1 != RegexChar::End,
    ensures
        match longest_match(dfa, chars, index, column) {
            Some((end, acc, _)) => index <= end < chars.len()
                && reported_accept(dfa, chars.subrange(index, end + 1)) == Some(acc)
                && forall|e: int| end < e < chars.len() ==> (#[trigger] reported_accept(dfa, chars.subrange(index, e + 1))) is None,
            None => forall|e: int| index <= e < chars.len() ==> (#[trigger] reported_accept(dfa, chars.subrange(index, e + 1))) is None,
        },
{
    let trans = dfa.transitions@;
    assert(chars.subrange(index, index) =~= Seq::<char>::empty());
    assert(literals_of(Seq::<char>::empty()) =~= Seq::<RegexChar>::empty());
    assert(dfa_walk(trans, dfa.start@, Seq::<RegexChar>::empty()) == Some(dfa.start@));
    assert(last_report(dfa, chars, index, index, None));
    lemma_munch_reports(dfa, chars, index, index, dfa.start@, column, None);
    let (stop, st, c, b) = munch(dfa, chars, index, dfa.start@, column, None);
    lemma_no_end_target(trans, st);
    assert(longest_match(dfa, chars, index, column) == b);
    if stop < chars.len() {
        lemma_literals_push(chars, index, stop);
        lemma_walk_push(trans, dfa.start@, literals_of(chars.subrange(index, stop)), literal(chars[stop]));
        assert forall|e: int| stop <= e < chars.len() implies (#[trigger] reported_accept(dfa, chars.subrange(index, e + 1))) is None by {
            lemma_walk_stays_failed(dfa, chars, index, stop + 1, e + 1);
        }
    }
}

/// The subset construction over an automaton without transitions on the end anchor makes
/// none either.
proof fn lemma_dfa_no_end(dfa: DFA, g: Seq<State>, accepts: Seq<(StateId, AcceptInfo)>, start: StateId)
    requires
        subset_dfa(dfa, g, accepts, start),
        no_edge_on(edges_of(g), RegexChar::End),
    ensures
        forall|k: int| 0 <= k < dfa.transitions@.len() ==> (#[trigger] dfa.transitions@[k]).0.1 != RegexChar::End,
{
    assert forall|k: int| 0 <= k < dfa.transitions@.len() implies (#[trigger] dfa.transitions@[k]).0.1 != RegexChar::End by {
        let t = dfa.transitions@[k];
        assert(dedge_ok(g, dfa.states@, t));
        reveal(dedge_ok);
        let (i, j) = choose|i: int, j: int| #![trigger dfa.states@[i], dfa.states@[j]]
            0 <= i < dfa.states@.len() && 0 <= j < dfa.states@.len()
            && t.0.0@ == dfa.states@[i].0@ && t.1@ == dfa.states@[j].0@
            && !move_set(g, dfa.states@[i].1.nfa_subset@.to_set(), t.0.1).is_empty()
            && dfa.states@[j].1.nfa_subset@.to_set() == subset_step(g, dfa.states@[i].1.nfa_subset@, t.0.1);
        if t.0.1 == RegexChar::End {
            lemma_no_move(g, dfa.states@[i].1.nfa_subset@.to_set(), RegexChar::End);
        }
    }
}

/// The lexer finds, at each position, the longest match of the token patterns with the best
/// token: for patterns that stand only for literal characters, the lexeme read at `index` is
/// a run of characters that some pattern matches, reported with the token of least priority
/// among the patterns matching it, and no pattern matches any longer run from `index`; where
/// no lexeme is read, no pattern matches any run from `index`.
pub proof fn lemma_lexeme_is_longest_best_match(trees: Seq<RegexTree>, nfas: Seq<(NFA, String, usize)>, joined: JoinedNFA,
    dfa: DFA, chars: Seq<char>, index: int, column: int)
    requires
        built_literal(trees, nfas),
        joined_from(joined.states@, joined.start, nfas),
        joined.accepts@ == accepts_before(nfas, nfas.len() as int),
        subset_dfa(dfa, joined.states@, joined.accepts@, joined.start),
        0 <= index < chars.len(),
    ensures
        match longest_match(dfa, chars, index, column) {
            Some((end, acc, _)) => index <= end < chars.len()
                && (exists|k: int| 0 <= k < nfas.len() && #[trigger] lang(trees[k], chars.subrange(index, end + 1))
                    && acc == info_of(nfas, k))
                && (forall|k: int| 0 <= k < nfas.len() && #[trigger] lang(trees[k], chars.subrange(index, end + 1))
                    ==> acc.priority <= nfas[k].2)
                && (forall|e: int, k: int| end < e < chars.len() && 0 <= k < nfas.len()
                    ==> !#[trigger] lang(trees[k], chars.subrange(index, e + 1))),
            None => forall|e: int, k: int| index <= e < chars.len() && 0 <= k < nfas.len()
                ==> !#[trigger] lang(trees[k], chars.subrange(index, e + 1)),
        },
{
    lemma_built_literal(trees, nfas);
    lemma_joined_literal(joined.states@, nfas);
    assert(no_edge_on(edges_of(joined.states@), RegexChar::End));
    lemma_dfa_no_end(dfa, joined.states@, joined.accepts@, joined.start);
    lemma_longest_match(dfa, chars, index, column);
    match longest_match(dfa, chars, index, column) {
        Some((end, acc, _)) => {
            let text = chars.subrange(index, end + 1);
            lemma_dfa_reports_best_token(trees, nfas, joined, dfa, text);
            assert forall|e: int, k: int| end < e < chars.len() && 0 <= k < nfas.len()
                implies !#[trigger] lang(trees[k], chars.subrange(index, e + 1)) by {
                lemma_dfa_reports_best_token(trees, nfas, joined, dfa, chars.subrange(index, e + 1));
            }
        },
        None => {
            assert forall|e: int, k: int| index <= e < chars.len() && 0 <= k < nfas.len()
                implies !#[trigger] lang(trees[k], chars.subrange(index, e + 1)) by {
                lemma_dfa_reports_best_token(trees, nfas, joined, dfa, chars.subrange(index, e + 1));
            }
        },
    }
}

} // verus!
