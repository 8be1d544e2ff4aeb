//! Where the lexemes lie in the text: each is a stretch of the text, in order and without
//! overlap, and when no character went unmatched everything between them is separators.

use vstd::prelude::*;
use crate::dfa::dfa::DFA;
use crate::lexemes::extractor::{lex, longest_match, lemma_match_bounds, is_separator, next_line, next_col, advance};
use crate::lexemes::longest::lemma_longest_match;
use crate::dfa::tokens::reported_accept;
use crate::regex::node::RegexChar;

verus! {

/// The first and last positions of each lexeme of the text from position `index` on (see
/// `lex`), in order.
pub open spec fn lex_spans(dfa: DFA, chars: Seq<char>, index: int, line: int, column: int) -> Seq<(int, int)>
    decreases chars.len() - index,
{
    if index < 0 || index >= chars.len() {
        seq![]
    } else if is_separator(chars[index]) {
        lex_spans(dfa, chars, index + 1, next_line(line, chars[index]), next_col(column, chars[index]))
    } else {
        proof {
            lemma_match_bounds(dfa, chars, index, column);
        }
        match longest_match(dfa, chars, index, column) {
            Some((end, acc, col)) => {
                let (l2, c2) = advance(line, column, chars.subrange(index, end + 1));
                seq![(index, end)] + lex_spans(dfa, chars, end + 1, l2, c2)
            },
            None => lex_spans(dfa, chars, index + 1, next_line(line, chars[index]), next_col(column, chars[index])),
        }
    }
}

/// Position `p` lies in one of the stretches.
pub open spec fn covered(spans: Seq<(int, int)>, p: int) -> bool {
    exists|k: int| 0 <= k < spans.len() && (#[trigger] spans[k]).0 <= p <= spans[k].1
}

/// The stretches of the lexemes and what they say of the text from `index` on.
pub open spec fn spans_fit(
    chars: Seq<char>,
    index: int,
    spans: Seq<(int, int)>,
    lexemes: Seq<(Seq<char>, Seq<char>, int, int, int)>,
    errors: Seq<(Seq<char>, int, int)>,
) -> bool {
    &&& spans.len() == lexemes.len()
    &&& forall|k: int| 0 <= k < spans.len() ==> index <= (#[trigger] spans[k]).0 <= spans[k].1 < chars.len()
        && lexemes[k].1 == chars.subrange(spans[k].0, spans[k].1 + 1)
    &&& forall|k: int| 0 <= k < spans.len() - 1 ==> (#[trigger] spans[k]).1 < spans[k + 1].0
    &&& errors.len() == 0 ==> forall|p: int| index <= p < chars.len() && !covered(spans, p) ==> is_separator(#[trigger] chars[p])
}

/// Each lexeme is the stretch of the text between its first and last positions; the
/// stretches come in order without overlap, from `index` on; and when no character went
/// unmatched, every character outside them is a separator.
pub proof fn lemma_lexemes_cover_text(dfa: DFA, chars: Seq<char>, index: int, line: int, column: int)
    requires
        0 <= index,
    ensures
        spans_fit(chars, index, lex_spans(dfa, chars, index, line, column), lex(dfa, chars, index, line, column).0,
            lex(dfa, chars, index, line, column).1),
    decreases chars.len() - index,
{
    let spans = lex_spans(dfa, chars, index, line, column);
    let (lexemes, errors) = lex(dfa, chars, index, line, column);
    if index >= chars.len() {
    } else if is_separator(chars[index]) {
        let nl = next_line(line, chars[index]);
        let nc = next_col(column, chars[index]);
        lemma_lexemes_cover_text(dfa, chars, index + 1, nl, nc);
        assert forall|k: int| 0 <= k < spans.len() implies index <= (#[trigger] spans[k]).0 <= spans[k].1 < chars.len()
            && lexemes[k].1 == chars.subrange(spans[k].0, spans[k].1 + 1) by {
        }
    } else {
        lemma_match_bounds(dfa, chars, index, column);
        match longest_match(dfa, chars, index, column) {
            Some((end, acc, col)) => {
                let (l2, c2) = advance(line, column, chars.subrange(index, end + 1));
                lemma_lexemes_cover_text(dfa, chars, end + 1, l2, c2);
                let rs = lex_spans(dfa, chars, end + 1, l2, c2);
                let (rl, re) = lex(dfa, chars, end + 1, l2, c2);
                assert(spans == seq![(index, end)] + rs);
                assert(lexemes == seq![(acc.token_type@, chars.subrange(index, end + 1), line, column, col + (end - index))] + rl);
                assert(errors == re);
                assert forall|k: int| 0 <= k < spans.len() implies index <= (#[trigger] spans[k]).0 <= spans[k].1 < chars.len()
                    && lexemes[k].1 == chars.subrange(spans[k].0, spans[k].1 + 1) by {
                    if k > 0 {
                        assert(spans[k] == rs[k - 1]);
                        assert(lexemes[k] == rl[k - 1]);
                    }
                }
                assert forall|k: int| 0 <= k < spans.len() - 1 implies (#[trigger] spans[k]).1 < spans[k + 1].0 by {
                    if k > 0 {
                        assert(spans[k] == rs[k - 1]);
                        assert(spans[k + 1] == rs[k]);
                    } else {
                        assert(spans[1] == rs[0]);
                    }
                }
                if errors.len() == 0 {
                    assert forall|p: int| index <= p < chars.len() && !covered(spans, p) implies is_separator(#[trigger] chars[p]) by {
                        if p <= end {
                            assert(spans[0] == (index, end));
                            assert(covered(spans, p));
                        } else {
                            if covered(rs, p) {
                                let k = choose|k: int| 0 <= k < rs.len() && (#[trigger] rs[k]).0 <= p <= rs[k].1;
                                assert(spans[k + 1] == rs[k]);
                                assert(covered(spans, p));
                            }
                        }
                    }
                }
            },
            None => {
                let nl = next_line(line, chars[index]);
                let nc = next_col(column, chars[index]);
                lemma_lexemes_cover_text(dfa, chars, index + 1, nl, nc);
                assert(errors.len() > 0);
            },
        }
    }
}

/// The number of line feeds in `cs`.
pub open spec fn line_feeds(cs: Seq<char>) -> int
    decreases cs.len(),
{
    if cs.len() == 0 {
        0
    } else {
        line_feeds(cs.drop_last()) + if cs.last() == '\n' { 1int } else { 0int }
    }
}

/// Reading a text moves the line on by its line feeds.
proof fn lemma_advance_line(line: int, col: int, cs: Seq<char>)
    ensures
        advance(line, col, cs).0 == line + line_feeds(cs),
    decreases cs.len(),
{
    if cs.len() > 0 {
        lemma_advance_line(line, col, cs.drop_last());
    }
}

/// The line feeds of two texts one after the other.
proof fn lemma_line_feeds_concat(a: Seq<char>, b: Seq<char>)
    ensures
        line_feeds(a + b) == line_feeds(a) + line_feeds(b),
    decreases b.len(),
{
    if b.len() == 0 {
        assert(a + b =~= a);
    } else {
        assert((a + b).drop_last() =~= a + b.drop_last());
        lemma_line_feeds_concat(a, b.drop_last());
    }
}

/// Each lexeme of the text from `index` on, reading from line `line`, starts at a character
/// that is not a separator; its text is the longest one from there after which the automaton
/// reports a token, and that token's type is the lexeme's; and its line is `line` moved on by
/// the line feeds between `index` and its start.
pub open spec fn lexemes_read(dfa: DFA, chars: Seq<char>, index: int, line: int, spans: Seq<(int, int)>,
    lexemes: Seq<(Seq<char>, Seq<char>, int, int, int)>) -> bool {
    forall|k: int| 0 <= k < spans.len() ==> {
        &&& !is_separator(chars[(#[trigger] spans[k]).0])
        &&& reported_accept(dfa, chars.subrange(spans[k].0, spans[k].1 + 1)) matches Some(acc)
            && lexemes[k].0 == acc.token_type@
        &&& forall|e: int| spans[k].1 < e < chars.len()
            ==> (#[trigger] reported_accept(dfa, chars.subrange(spans[k].0, e + 1))) is None
        &&& lexemes[k].2 == line + line_feeds(chars.subrange(index, spans[k].0))
    }
}

/// With an automaton without end-of-line transitions, every lexeme of the text from `index`
/// on is read as `lexemes_read` says.
proof fn lemma_lexemes_read(dfa: DFA, chars: Seq<char>, index: int, line: int, column: int)
    requires
        0 <= index,
        forall|k: int| 0 <= k < dfa.transitions@.len() ==> (#[trigger] dfa.transitions@[k]).0.1 != RegexChar::End,
    ensures
        lexemes_read(dfa, chars, index, line, lex_spans(dfa, chars, index, line, column),
            lex(dfa, chars, index, line, column).0),
    decreases chars.len() - index,
{
    let spans = lex_spans(dfa, chars, index, line, column);
    let (lexemes, errors) = lex(dfa, chars, index, line, column);
    if index < chars.len() {
        let step = is_separator(chars[index]) || longest_match(dfa, chars, index, column) is None;
        if step {
            if !is_separator(chars[index]) {
                lemma_match_bounds(dfa, chars, index, column);
            }
            let nl = next_line(line, chars[index]);
            let nc = next_col(column, chars[index]);
            lemma_lexemes_read(dfa, chars, index + 1, nl, nc);
            assert(spans == lex_spans(dfa, chars, index + 1, nl, nc));
            assert(lexemes == lex(dfa, chars, index + 1, nl, nc).0);
            assert forall|k: int| 0 <= k < spans.len() implies
                lexemes[k].2 == line + line_feeds(chars.subrange(index, (#[trigger] spans[k]).0)) by {
                lemma_lexemes_cover_text(dfa, chars, index + 1, nl, nc);
                let s0 = spans[k].0;
                assert(index + 1 <= s0);
                let one = chars.subrange(index, index + 1);
                assert(chars.subrange(index, s0) =~= one + chars.subrange(index + 1, s0));
                lemma_line_feeds_concat(one, chars.subrange(index + 1, s0));
                assert(one.drop_last() =~= Seq::<char>::empty());
                assert(line_feeds(one.drop_last()) == 0);
                assert(one.last() == chars[index]);
                assert(line_feeds(one) == if chars[index] == '\n' { 1int } else { 0int });
                assert(lexemes[k].2 == nl + line_feeds(chars.subrange(index + 1, s0)));
            }
        } else {
            lemma_match_bounds(dfa, chars, index, column);
            lemma_longest_match(dfa, chars, index, column);
            let (end, acc, col) = longest_match(dfa, chars, index, column).unwrap();
            let text = chars.subrange(index, end + 1);
            let (l2, c2) = advance(line, column, text);
            lemma_lexemes_read(dfa, chars, end + 1, l2, c2);
            lemma_lexemes_cover_text(dfa, chars, end + 1, l2, c2);
            lemma_advance_line(line, column, text);
            let rs = lex_spans(dfa, chars, end + 1, l2, c2);
            let rl = lex(dfa, chars, end + 1, l2, c2).0;
            assert(spans == seq![(index, end)] + rs);
            assert(lexemes == seq![(acc.token_type@, text, line, column, col + (end - index))] + rl);
            assert forall|k: int| 0 <= k < spans.len() implies {
                &&& !is_separator(chars[(#[trigger] spans[k]).0])
                &&& reported_accept(dfa, chars.subrange(spans[k].0, spans[k].1 + 1)) matches Some(a)
                    && lexemes[k].0 == a.token_type@
                &&& forall|e: int| spans[k].1 < e < chars.len()
                    ==> (#[trigger] reported_accept(dfa, chars.subrange(spans[k].0, e + 1))) is None
                &&& lexemes[k].2 == line + line_feeds(chars.subrange(index, spans[k].0))
            } by {
                if k == 0 {
                    assert(chars.subrange(index, index) =~= Seq::<char>::empty());
                } else {
                    assert(spans[k] == rs[k - 1]);
                    assert(lexemes[k] == rl[k - 1]);
                    let s0 = rs[k - 1].0;
                    assert(chars.subrange(index, s0) =~= text + chars.subrange(end + 1, s0));
                    lemma_line_feeds_concat(text, chars.subrange(end + 1, s0));
                }
            }
        }
    }
}

/// The whole text read by the lexer, with an automaton without end-of-line transitions:
/// the lexemes are stretches of the text in order and without overlap; when no character
/// went unmatched everything between them is separators; each starts at a character that is
/// not a separator, is the longest text from there after which the automaton reports a
/// token, carries that token's type, and lies on the line reached by counting the line feeds
/// before it.
pub proof fn lemma_lex_whole_text(dfa: DFA, chars: Seq<char>, line: int, column: int)
    requires
        forall|k: int| 0 <= k < dfa.transitions@.len() ==> (#[trigger] dfa.transitions@[k]).0.1 != RegexChar::End,
    ensures
        spans_fit(chars, 0, lex_spans(dfa, chars, 0, line, column), lex(dfa, chars, 0, line, column).0,
            lex(dfa, chars, 0, line, column).1),
        lexemes_read(dfa, chars, 0, line, lex_spans(dfa, chars, 0, line, column), lex(dfa, chars, 0, line, column).0),
{
    lemma_lexemes_cover_text(dfa, chars, 0, line, column);
    lemma_lexemes_read(dfa, chars, 0, line, column);
}

} // verus!
