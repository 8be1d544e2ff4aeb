//! Longest-match extraction of lexemes with a deterministic automaton.

use vstd::prelude::*;
use crate::regex::node::RegexChar;
use crate::nfa::join_nfa::AcceptInfo;
use crate::dfa::dfa::{DFA, DFAState};
use crate::lexemes::lexeme::Lexeme;
use crate::lexemes::error::LexicalError;
use crate::text::{chars_of, push_char, append_str, string_of_range};

verus! {

/// The target of the first transition leaving the state named `name` on `c`.
pub open spec fn first_target(trans: Seq<((String, RegexChar), String)>, name: Seq<char>, c: RegexChar) -> Option<Seq<char>>
    decreases trans.len(),
{
    if trans.len() == 0 {
        None
    } else if trans[0].0.0@ == name && trans[0].0.1 == c {
        Some(trans[0].1@)
    } else {
        first_target(trans.subrange(1, trans.len() as int), name, c)
    }
}

/// The accept information of the first state named `name`; none if there is no such state.
pub open spec fn named_accept(states: Seq<(String, DFAState)>, name: Seq<char>) -> Option<AcceptInfo>
    decreases states.len(),
{
    if states.len() == 0 {
        None
    } else if states[0].0@ == name {
        states[0].1.accept
    } else {
        named_accept(states.subrange(1, states.len() as int), name)
    }
}

/// Characters that separate lexemes: space, tab, line feed and carriage return.
pub open spec fn is_separator(c: char) -> bool {
    c == ' ' || c == '\t' || c == '\n' || c == '\r'
}

/// The column after a character: back to 1 after a line feed.
pub open spec fn next_col(col: int, c: char) -> int {
    if c == '\n' { 1 } else { col + 1 }
}

/// The line after a character.
pub open spec fn next_line(line: int, c: char) -> int {
    if c == '\n' { line + 1 } else { line }
}

/// Line and column after reading `cs` from line `line`, column `col`.
pub open spec fn advance(line: int, col: int, cs: Seq<char>) -> (int, int)
    decreases cs.len(),
{
    if cs.len() == 0 {
        (line, col)
    } else {
        let (l, c) = advance(line, col, cs.drop_last());
        (next_line(l, cs.last()), next_col(c, cs.last()))
    }
}

/// Reading on from position `i` in the state named `state`, at column `col`, for as long as
/// the characters have transitions: where the reading stops, the state and column there,
/// and the last position read into an accepting state, with that state's accept
/// information and the column of that position (`best` until one is found).
pub open spec fn munch(
    dfa: DFA,
    chars: Seq<char>,
    i: int,
    state: Seq<char>,
    col: int,
    best: Option<(int, AcceptInfo, int)>,
) -> (int, Seq<char>, int, Option<(int, AcceptInfo, int)>)
    decreases chars.len() - i,
{
    if 0 <= i < chars.len() {
        match first_target(dfa.transitions@, state, RegexChar::Literal(chars[i])) {
            Some(next) => {
                let best2 = match named_accept(dfa.states@, next) {
                    Some(acc) => Some((i, acc, col)),
                    None => best,
                };
                munch(dfa, chars, i + 1, next, next_col(col, chars[i]), best2)
            },
            None => (i, state, col, best),
        }
    } else {
        (i, state, col, best)
    }
}

/// The longest lexeme starting at `index` (at column `column`): its last position, its
/// accept information and the column reported for it. Where the reading stops at the end of
/// the text or at a line feed, an end-of-line transition into an accepting state gives the
/// match, ending just before that point.
pub open spec fn longest_match(dfa: DFA, chars: Seq<char>, index: int, column: int) -> Option<(int, AcceptInfo, int)> {
    let (stop, state, col, best) = munch(dfa, chars, index, dfa.start@, column, None);
    if stop == chars.len() || chars[stop] == '\n' {
        match first_target(dfa.transitions@, state, RegexChar::End) {
            Some(next) => match named_accept(dfa.states@, next) {
                Some(acc) => Some((stop - 1, acc, col)),
                None => best,
            },
            None => best,
        }
    } else {
        best
    }
}

/// Reading stops no earlier than it starts and within the text, and the positions recorded
/// lie between the start and the stop.
pub proof fn lemma_munch_bounds(
    dfa: DFA,
    chars: Seq<char>,
    i: int,
    state: Seq<char>,
    col: int,
    best: Option<(int, AcceptInfo, int)>,
    lo: int,
)
    requires
        0 <= lo <= i <= chars.len(),
        best matches Some(b) ==> lo <= b.0 < i,
    ensures
        i <= munch(dfa, chars, i, state, col, best).0 <= chars.len(),
        munch(dfa, chars, i, state, col, best).3 matches Some(b) ==> lo <= b.0 < munch(dfa, chars, i, state, col, best).0,
    decreases chars.len() - i,
{
    if 0 <= i < chars.len() {
        match first_target(dfa.transitions@, state, RegexChar::Literal(chars[i])) {
            Some(next) => {
                let best2 = match named_accept(dfa.states@, next) {
                    Some(acc) => Some((i, acc, col)),
                    None => best,
                };
                lemma_munch_bounds(dfa, chars, i + 1, next, next_col(col, chars[i]), best2, lo);
            },
            None => {},
        }
    }
}

/// A match starting at a character that is not a separator ends at or after it.
pub proof fn lemma_match_bounds(dfa: DFA, chars: Seq<char>, index: int, column: int)
    requires
        0 <= index < chars.len(),
        !is_separator(chars[index]),
    ensures
        longest_match(dfa, chars, index, column) matches Some(m) ==> index <= m.0 < chars.len(),
{
    lemma_munch_bounds(dfa, chars, index, dfa.start@, column, None, index);
}

/// The message for an unexpected character.
pub open spec fn error_message(c: char) -> Seq<char> {
    "Error léxico: carácter inesperado '"@ + seq![c] + "'."@
}

/// The lexemes and errors of the text from position `index` on, reading from line `line`,
/// column `column`: separators are skipped; otherwise the longest match becomes a lexeme
/// (token type, text, line, start column, and the reported column plus the match's length
/// less one as end column), or, when nothing matches, the character is reported as an error
/// and skipped.
pub open spec fn lex(dfa: DFA, chars: Seq<char>, index: int, line: int, column: int)
    -> (Seq<(Seq<char>, Seq<char>, int, int, int)>, Seq<(Seq<char>, int, int)>)
    decreases chars.len() - index,
{
    if index < 0 || index >= chars.len() {
        (seq![], seq![])
    } else if is_separator(chars[index]) {
        lex(dfa, chars, index + 1, next_line(line, chars[index]), next_col(column, chars[index]))
    } else {
        proof {
            lemma_match_bounds(dfa, chars, index, column);
        }
        match longest_match(dfa, chars, index, column) {
            Some((end, acc, col)) => {
                let text = chars.subrange(index, end + 1);
                let (l2, c2) = advance(line, column, text);
                let rest = lex(dfa, chars, end + 1, l2, c2);
                (seq![(acc.token_type@, text, line, column, col + (end - index))] + rest.0, rest.1)
            },
            None => {
                let rest = lex(dfa, chars, index + 1, next_line(line, chars[index]), next_col(column, chars[index]));
                (rest.0, seq![(error_message(chars[index]), line, column)] + rest.1)
            },
        }
    }
}

/// The position of the first transition leaving the state named `name` on `c`.
fn find_transition(dfa: &DFA, name: &String, c: RegexChar) -> (r: Option<usize>)
    ensures
        match r {
            None => first_target(dfa.transitions@, name@, c) is None,
            Some(k) => k < dfa.transitions@.len()
                && first_target(dfa.transitions@, name@, c) == Some(dfa.transitions@[k as int].1@),
        },
{
    let ghost all = dfa.transitions@;
    let mut i: usize = 0;
    assert(all.subrange(0, all.len() as int) =~= all);
    while i < dfa.transitions.len()
        invariant
            all == dfa.transitions@,
            i <= all.len(),
            first_target(all, name@, c) == first_target(all.subrange(i as int, all.len() as int), name@, c),
        decreases all.len() - i,
    {
        let ghost rest = all.subrange(i as int, all.len() as int);
        assert(rest[0] == all[i as int]);
        if dfa.transitions[i].0.0 == *name && dfa.transitions[i].0.1 == c {
            return Some(i);
        }
        assert(rest.subrange(1, rest.len() as int) =~= all.subrange(i + 1, all.len() as int));
        i += 1;
    }
    None
}

/// The accept information of the first state named `name`, if any.
fn state_accept(dfa: &DFA, name: &String) -> (r: Option<AcceptInfo>)
    ensures
        r == named_accept(dfa.states@, name@),
{
    let ghost all = dfa.states@;
    let mut i: usize = 0;
    assert(all.subrange(0, all.len() as int) =~= all);
    while i < dfa.states.len()
        invariant
            all == dfa.states@,
            i <= all.len(),
            named_accept(all, name@) == named_accept(all.subrange(i as int, all.len() as int), name@),
        decreases all.len() - i,
    {
        let ghost rest = all.subrange(i as int, all.len() as int);
        assert(rest[0] == all[i as int]);
        if dfa.states[i].0 == *name {
            return match &dfa.states[i].1.accept {
                Some(acc) => Some(acc.duplicate()),
                None => None,
            };
        }
        assert(rest.subrange(1, rest.len() as int) =~= all.subrange(i + 1, all.len() as int));
        i += 1;
    }
    None
}

/// The message reporting an unexpected character.
fn unexpected_message(c: char) -> (m: String)
    ensures
        m@ == error_message(c),
{
    let mut m = String::new();
    append_str(&mut m, "Error léxico: carácter inesperado '");
    push_char(&mut m, c);
    append_str(&mut m, "'.");
    assert(m@ =~= error_message(c));
    m
}

/// The views of a list of lexemes.
pub open spec fn lexeme_views(v: Seq<Lexeme>) -> Seq<(Seq<char>, Seq<char>, int, int, int)> {
    v.map_values(|l: Lexeme| l.view_tuple())
}

/// The views of a list of errors.
pub open spec fn error_views(v: Seq<LexicalError>) -> Seq<(Seq<char>, int, int)> {
    v.map_values(|e: LexicalError| e.view_tuple())
}

/// The view of a recorded match.
pub open spec fn match_view(m: Option<(usize, AcceptInfo, usize)>) -> Option<(int, AcceptInfo, int)> {
    match m {
        Some((e, a, c)) => Some((e as int, a, c as int)),
        None => None,
    }
}

/// Splits `text` into lexemes by longest match with `dfa` (see `lex`), reading from line 1,
/// column 1. The lexemes when no character went unmatched, the errors otherwise.
pub fn extract_lexemes(text: &str, dfa: &DFA) -> (r: Result<Vec<Lexeme>, Vec<LexicalError>>)
    requires
        text@.len() <= usize::MAX / 2,
    ensures
        match r {
            Ok(lexemes) => lex(*dfa, text@, 0, 1, 1).1.len() == 0
                && lexeme_views(lexemes@) == lex(*dfa, text@, 0, 1, 1).0,
            Err(errors) => lex(*dfa, text@, 0, 1, 1).1.len() > 0
                && error_views(errors@) == lex(*dfa, text@, 0, 1, 1).1,
        },
{
    let chars = chars_of(text);
    let ghost cs = chars@;
    let ghost d = *dfa;
    let ghost total = lex(d, cs, 0, 1, 1);
    let len = chars.len();
    let mut index: usize = 0;
    let mut line: usize = 1;
    let mut column: usize = 1;
    let mut lexemes: Vec<Lexeme> = Vec::new();
    let mut errors: Vec<LexicalError> = Vec::new();
    assert(lexeme_views(lexemes@) =~= Seq::<(Seq<char>, Seq<char>, int, int, int)>::empty());
    assert(error_views(errors@) =~= Seq::<(Seq<char>, int, int)>::empty());
    while index < len
        invariant
            cs == chars@,
            cs == text@,
            d == *dfa,
            total == lex(d, cs, 0, 1, 1),
            len == cs.len(),
            len <= usize::MAX / 2,
            index <= len,
            1 <= line <= index + 1,
            1 <= column <= index + 1,
            lexeme_views(lexemes@) + lex(d, cs, index as int, line as int, column as int).0 == total.0,
            error_views(errors@) + lex(d, cs, index as int, line as int, column as int).1 == total.1,
        decreases len - index,
    {
        let ghost index_start = index;
        while index < len && (chars[index] == ' ' || chars[index] == '\t' || chars[index] == '\n' || chars[index] == '\r')
            invariant
                cs == chars@,
                d == *dfa,
                total == lex(d, cs, 0, 1, 1),
                len == cs.len(),
                len <= usize::MAX / 2,
                index_start <= index <= len,
                1 <= line <= index + 1,
                1 <= column <= index + 1,
                lexeme_views(lexemes@) + lex(d, cs, index as int, line as int, column as int).0 == total.0,
                error_views(errors@) + lex(d, cs, index as int, line as int, column as int).1 == total.1,
            decreases len - index,
        {
            if chars[index] == '\n' {
                line += 1;
                column = 1;
            } else {
                column += 1;
            }
            index += 1;
        }
        if index < len {
            proof {
                lemma_munch_bounds(d, cs, index as int, d.start@, column as int, None, index as int);
            }
            let mut state_key = dfa.start.clone();
            let mut last_accept: Option<(usize, AcceptInfo, usize)> = None;
            let mut i: usize = index;
            let mut col: usize = column;
            let mut stuck = false;
            while !stuck && i < len
                invariant
                    cs == chars@,
                    d == *dfa,
                    len == cs.len(),
                    len <= usize::MAX / 2,
                    index < len,
                    index <= i <= len,
                    1 <= column <= index + 1,
                    1 <= col <= i + 1,
                    stuck ==> i < len,
                    match last_accept {
                        Some((e, _, c)) => index <= e < i && c <= e + 1,
                        None => true,
                    },
                    munch(d, cs, index as int, d.start@, column as int, None) == if stuck {
                        (i as int, state_key@, col as int, match_view(last_accept))
                    } else {
                        munch(d, cs, i as int, state_key@, col as int, match_view(last_accept))
                    },
                decreases len - i + (if stuck { 0int } else { 1int }),
            {
                let c = chars[i];
                match find_transition(dfa, &state_key, RegexChar::Literal(c)) {
                    Some(k) => {
                        state_key = dfa.transitions[k].1.clone();
                        match state_accept(dfa, &state_key) {
                            Some(acc) => {
                                last_accept = Some((i, acc, col));
                            },
                            None => {},
                        }
                        if c == '\n' {
                            col = 1;
                        } else {
                            col += 1;
                        }
                        i += 1;
                    },
                    None => {
                        stuck = true;
                    },
                }
            }
            if i == len || chars[i] == '\n' {
                match find_transition(dfa, &state_key, RegexChar::End) {
                    Some(k) => {
                        let next_key = dfa.transitions[k].1.clone();
                        match state_accept(dfa, &next_key) {
                            Some(acc) => {
                                last_accept = Some((i - 1, acc, col));
                            },
                            None => {},
                        }
                    },
                    None => {},
                }
            }
            assert(match last_accept {
                Some((e, _, _)) => index <= e < len,
                None => true,
            });
            let ghost l0 = line;
            let ghost c0 = column;
            let ghost i0 = index;
            assert(match_view(last_accept) == longest_match(d, cs, index as int, column as int));
            match last_accept {
                Some((end, acc, lcol)) => {
                    let value = string_of_range(&chars, index, end + 1);
                    let lexeme = Lexeme {
                        token_type: acc.token_type.clone(),
                        value,
                        line,
                        column_start: column,
                        column_end: lcol + (end - index),
                    };
                    lexemes.push(lexeme);
                    let mut k: usize = index;
                    while k <= end
                        invariant
                            cs == chars@,
                            index <= k <= end + 1,
                            end < len,
                            len == cs.len(),
                            len <= usize::MAX / 2,
                            1 <= line <= k + 1,
                            1 <= column <= k + 1,
                            (line as int, column as int) == advance(l0 as int, c0 as int, cs.subrange(index as int, k as int)),
                        decreases end + 1 - k,
                    {
                        assert(cs.subrange(index as int, k + 1).drop_last() =~= cs.subrange(index as int, k as int));
                        if chars[k] == '\n' {
                            line += 1;
                            column = 1;
                        } else {
                            column += 1;
                        }
                        k += 1;
                    }
                    index = end + 1;
                    proof {
                        assert(lexeme_views(lexemes@) =~= lexeme_views(lexemes@.drop_last()).push(lexemes@.last().view_tuple()));
                    }
                },
                None => {
                    errors.push(LexicalError { message: unexpected_message(chars[index]), line, column });
                    if chars[index] == '\n' {
                        line += 1;
                        column = 1;
                    } else {
                        column += 1;
                    }
                    index += 1;
                    proof {
                        assert(error_views(errors@) =~= error_views(errors@.drop_last()).push(errors@.last().view_tuple()));
                    }
                },
            }
        }
    }
    proof {
        assert(lexeme_views(lexemes@) + Seq::<(Seq<char>, Seq<char>, int, int, int)>::empty() =~= lexeme_views(lexemes@));
        assert(error_views(errors@) + Seq::<(Seq<char>, int, int)>::empty() =~= error_views(errors@));
    }
    if errors.len() == 0 {
        assert(error_views(errors@) =~= Seq::<(Seq<char>, int, int)>::empty());
        Ok(lexemes)
    } else {
        Err(errors)
    }
}

} // verus!
