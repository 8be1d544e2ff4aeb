//! Grammar productions.

use vstd::prelude::*;
use crate::text::{is_white_space, is_whitespace, chars_of, string_of_range};
use crate::regex::scan::trim;
use crate::token_spec::{index_from, trim_range, find_char};
use crate::parser::ll1::views;

verus! {

/// A production `lhs -> rhs`; an empty right-hand side derives the empty string.
#[derive(Debug, Clone)]
pub struct Production {
    pub lhs: String,
    pub rhs: Vec<String>,
}

/// A production as plain values.
pub open spec fn production_model(p: Production) -> (Seq<char>, Seq<Seq<char>>) {
    (p.lhs@, views(p.rhs@))
}

/// The words of `s` from position `i` on (as `str::split_whitespace`), where `ws` is the start
/// of the word being read, or -1 between words, and `acc` the words read so far.
pub open spec fn words_acc(s: Seq<char>, i: int, ws: int, acc: Seq<Seq<char>>) -> Seq<Seq<char>>
    decreases s.len() - i,
{
    if i < 0 || i >= s.len() {
        if 0 <= ws <= s.len() { acc.push(s.subrange(ws, s.len() as int)) } else { acc }
    } else if is_white_space(s[i]) {
        words_acc(s, i + 1, -1, if 0 <= ws <= i { acc.push(s.subrange(ws, i)) } else { acc })
    } else {
        words_acc(s, i + 1, if ws >= 0 { ws } else { i }, acc)
    }
}

/// The words of `s`: its longest runs of characters other than white space, in order.
pub open spec fn words(s: Seq<char>) -> Seq<Seq<char>> {
    words_acc(s, 0, -1, seq![])
}

/// The pieces of `s` between bars from position `i` on (as `str::split('|')`), where `start`
/// begins the piece being read and `acc` holds the pieces read so far.
pub open spec fn pieces_acc(s: Seq<char>, i: int, start: int, acc: Seq<Seq<char>>) -> Seq<Seq<char>>
    decreases s.len() - i,
{
    if i < 0 || i >= s.len() {
        acc.push(s.subrange(start, s.len() as int))
    } else if s[i] == '|' {
        pieces_acc(s, i + 1, i + 1, acc.push(s.subrange(start, i)))
    } else {
        pieces_acc(s, i + 1, start, acc)
    }
}

/// The pieces of `s` between bars: one more than there are bars, empty ones included.
pub open spec fn pieces(s: Seq<char>) -> Seq<Seq<char>> {
    pieces_acc(s, 0, 0, seq![])
}

/// The first position at or after `i` where `->` starts.
pub open spec fn arrow_from(s: Seq<char>, i: int) -> Option<int>
    decreases s.len() - i,
{
    if i < 0 || i + 1 >= s.len() {
        None
    } else if s[i] == '-' && s[i + 1] == '>' {
        Some(i)
    } else {
        arrow_from(s, i + 1)
    }
}

/// A trimmed line that is skipped: empty, or a `//` comment.
pub open spec fn skipped_line(t: Seq<char>) -> bool {
    t.len() == 0 || (t.len() >= 2 && t[0] == '/' && t[1] == '/')
}

/// What one trimmed grammar line gives, after lines whose last left-hand side was `last`:
/// its productions and the left-hand side for the lines after it. `A -> x | y z` gives one
/// production of `A` per alternative (each the words of the alternative) and makes `A` the
/// last left-hand side; `| y z` gives one production of the last left-hand side; other lines
/// give nothing.
pub open spec fn grammar_line(t: Seq<char>, last: Seq<char>) -> (Seq<(Seq<char>, Seq<Seq<char>>)>, Seq<char>) {
    if skipped_line(t) {
        (seq![], last)
    } else {
        match arrow_from(t, 0) {
            Some(p) => {
                let lhs = trim(t.subrange(0, p));
                let alts = pieces(trim(t.subrange(p + 2, t.len() as int)));
                (alts.map_values(|alt: Seq<char>| (lhs, words(alt))), lhs)
            },
            None => match index_from(t, '|', 0) {
                Some(p) => (seq![(last, words(t.subrange(p + 1, t.len() as int)))], last),
                None => (seq![], last),
            },
        }
    }
}

/// The productions of a list of lines, in order, and the last left-hand side (empty at first).
pub open spec fn grammar_scan(lines: Seq<Seq<char>>) -> (Seq<(Seq<char>, Seq<Seq<char>>)>, Seq<char>)
    decreases lines.len(),
{
    if lines.len() == 0 {
        (seq![], seq![])
    } else {
        let (ps, last) = grammar_scan(lines.drop_last());
        let (more, next) = grammar_line(trim(lines.last()), last);
        (ps + more, next)
    }
}

/// The words of `cs[lo..hi]` (see `words`).
pub fn words_in(cs: &Vec<char>, lo: usize, hi: usize) -> (r: Vec<String>)
    requires
        lo <= hi <= cs@.len(),
    ensures
        views(r@) == words(cs@.subrange(lo as int, hi as int)),
{
    let ghost s = cs@.subrange(lo as int, hi as int);
    let mut out: Vec<String> = Vec::new();
    let mut in_word = false;
    let mut ws: usize = lo;
    let mut i: usize = lo;
    assert(views(out@) =~= Seq::<Seq<char>>::empty());
    while i < hi
        invariant
            lo <= i <= hi <= cs@.len(),
            s == cs@.subrange(lo as int, hi as int),
            in_word ==> lo <= ws < i,
            words(s) == words_acc(s, i - lo, if in_word { ws - lo } else { -1 }, views(out@)),
        decreases hi - i,
    {
        let ghost before = views(out@);
        assert(s[i - lo] == cs@[i as int]);
        if is_whitespace(cs[i]) {
            if in_word {
                let w = string_of_range(cs, ws, i);
                out.push(w);
                assert(s.subrange(ws - lo, i - lo) =~= cs@.subrange(ws as int, i as int));
                assert(views(out@) =~= before.push(s.subrange(ws - lo, i - lo)));
            }
            in_word = false;
        } else if !in_word {
            in_word = true;
            ws = i;
        }
        i += 1;
    }
    if in_word {
        let w = string_of_range(cs, ws, hi);
        let ghost before = views(out@);
        out.push(w);
        assert(s.subrange(ws - lo, s.len() as int) =~= cs@.subrange(ws as int, hi as int));
        assert(views(out@) =~= before.push(s.subrange(ws - lo, s.len() as int)));
    }
    out
}

/// The pieces of `cs[lo..hi]` between bars, as bounds (see `pieces`).
fn pieces_in(cs: &Vec<char>, lo: usize, hi: usize) -> (r: Vec<(usize, usize)>)
    requires
        lo <= hi <= cs@.len(),
    ensures
        forall|j: int| 0 <= j < r@.len() ==> lo <= (#[trigger] r@[j]).0 <= r@[j].1 <= hi,
        r@.map_values(|b: (usize, usize)| cs@.subrange(b.0 as int, b.1 as int)) == pieces(cs@.subrange(lo as int, hi as int)),
{
    let ghost s = cs@.subrange(lo as int, hi as int);
    let mut out: Vec<(usize, usize)> = Vec::new();
    let mut start: usize = lo;
    let mut i: usize = lo;
    assert(out@.map_values(|b: (usize, usize)| cs@.subrange(b.0 as int, b.1 as int)) =~= Seq::<Seq<char>>::empty());
    while i < hi
        invariant
            lo <= start <= i <= hi <= cs@.len(),
            s == cs@.subrange(lo as int, hi as int),
            forall|j: int| 0 <= j < out@.len() ==> lo <= (#[trigger] out@[j]).0 <= out@[j].1 <= hi,
            pieces(s) == pieces_acc(s, i - lo, start - lo,
                out@.map_values(|b: (usize, usize)| cs@.subrange(b.0 as int, b.1 as int))),
        decreases hi - i,
    {
        let ghost before = out@.map_values(|b: (usize, usize)| cs@.subrange(b.0 as int, b.1 as int));
        assert(s[i - lo] == cs@[i as int]);
        if cs[i] == '|' {
            out.push((start, i));
            assert(s.subrange(start - lo, i - lo) =~= cs@.subrange(start as int, i as int));
            assert(out@.map_values(|b: (usize, usize)| cs@.subrange(b.0 as int, b.1 as int))
                =~= before.push(s.subrange(start - lo, i - lo)));
            start = i + 1;
        }
        i += 1;
    }
    let ghost before = out@.map_values(|b: (usize, usize)| cs@.subrange(b.0 as int, b.1 as int));
    out.push((start, hi));
    assert(s.subrange(start - lo, s.len() as int) =~= cs@.subrange(start as int, hi as int));
    assert(out@.map_values(|b: (usize, usize)| cs@.subrange(b.0 as int, b.1 as int))
        =~= before.push(s.subrange(start - lo, s.len() as int)));
    out
}

/// The first position of `->` in `cs[lo..hi]`, if any.
fn find_arrow(cs: &Vec<char>, lo: usize, hi: usize) -> (r: Option<usize>)
    requires
        lo <= hi <= cs@.len(),
    ensures
        arrow_from(cs@.subrange(lo as int, hi as int), 0) == match r {
            Some(i) => Some(i - lo),
            None => None::<int>,
        },
        r matches Some(i) ==> lo <= i && i + 2 <= hi,
{
    let ghost t = cs@.subrange(lo as int, hi as int);
    let mut i: usize = lo;
    while i < hi && i + 1 < hi
        invariant
            lo <= i <= hi <= cs@.len(),
            t == cs@.subrange(lo as int, hi as int),
            arrow_from(t, 0) == arrow_from(t, i - lo),
        decreases hi - i,
    {
        assert(t[i - lo] == cs@[i as int] && t[i - lo + 1] == cs@[i + 1]);
        if cs[i] == '-' && cs[i + 1] == '>' {
            return Some(i);
        }
        i += 1;
    }
    None
}

/// The productions of one line (see `grammar_line`), appended to `out`; `last` becomes the
/// left-hand side for the lines after it.
fn grammar_line_into(line: &String, last: &mut String, out: &mut Vec<Production>)
    ensures
        out_model(final(out)@) == out_model(old(out)@) + grammar_line(trim(line@), old(last)@).0,
        final(last)@ == grammar_line(trim(line@), old(last)@).1,
{
    let cs = chars_of(line.as_str());
    let n = cs.len();
    let (a, b) = trim_range(&cs, 0, n);
    assert(cs@.subrange(0, n as int) =~= line@);
    let ghost t = cs@.subrange(a as int, b as int);
    if a == b || (b - a >= 2 && cs[a] == '/' && cs[a + 1] == '/') {
        assert(b - a >= 2 ==> t[0] == cs@[a as int] && t[1] == cs@[a + 1]);
        assert(out_model(out@) =~= out_model(out@) + Seq::<(Seq<char>, Seq<Seq<char>>)>::empty());
        return;
    }
    assert(t.len() >= 2 ==> t[0] == cs@[a as int] && t[1] == cs@[a + 1]);
    match find_arrow(&cs, a, b) {
        Some(p) => {
            let (la, lb) = trim_range(&cs, a, p);
            let (ra, rb) = trim_range(&cs, p + 2, b);
            assert(t.subrange(0, p - a) =~= cs@.subrange(a as int, p as int));
            assert(t.subrange(p - a + 2, t.len() as int) =~= cs@.subrange(p + 2, b as int));
            let lhs = string_of_range(&cs, la, lb);
            let alts = pieces_in(&cs, ra, rb);
            let ghost lhs_v = lhs@;
            let ghost alts_v = pieces(cs@.subrange(ra as int, rb as int));
            let ghost start = out_model(out@);
            let mut k: usize = 0;
            while k < alts.len()
                invariant
                    k <= alts@.len(),
                    lhs@ == lhs_v,
                    alts@.len() == alts_v.len(),
                    forall|j: int| 0 <= j < alts@.len() ==> ra <= (#[trigger] alts@[j]).0 <= alts@[j].1 <= rb,
                    forall|j: int| 0 <= j < alts@.len() ==> cs@.subrange((#[trigger] alts@[j]).0 as int, alts@[j].1 as int) == alts_v[j],
                    rb <= cs@.len(),
                    out_model(out@) == start + alts_v.take(k as int).map_values(|alt: Seq<char>| (lhs_v, words(alt))),
                decreases alts@.len() - k,
            {
                let (x, y) = alts[k];
                let rhs = words_in(&cs, x, y);
                let ghost before = out_model(out@);
                out.push(Production { lhs: lhs.clone(), rhs });
                assert(alts_v.take(k + 1) =~= alts_v.take(k as int).push(alts_v[k as int]));
                assert(out_model(out@) =~= before.push((lhs_v, words(alts_v[k as int]))));
                assert(alts_v.take(k + 1).map_values(|alt: Seq<char>| (lhs_v, words(alt)))
                    =~= alts_v.take(k as int).map_values(|alt: Seq<char>| (lhs_v, words(alt))).push((lhs_v, words(alts_v[k as int]))));
                k += 1;
            }
            assert(alts_v.take(alts_v.len() as int) =~= alts_v);
            *last = lhs;
        },
        None => {
            match find_char(&cs, '|', a, b) {
                Some(p) => {
                    assert(t.subrange(p - a + 1, t.len() as int) =~= cs@.subrange(p + 1, b as int));
                    let rhs = words_in(&cs, p + 1, b);
                    let ghost before = out_model(out@);
                    out.push(Production { lhs: last.clone(), rhs });
                    assert(out_model(out@) =~= before + seq![(old(last)@, words(t.subrange(p - a + 1, t.len() as int)))]);
                },
                None => {
                    assert(out_model(out@) =~= out_model(out@) + Seq::<(Seq<char>, Seq<Seq<char>>)>::empty());
                },
            }
        },
    }
}

/// Productions as plain values.
pub open spec fn out_model(ps: Seq<Production>) -> Seq<(Seq<char>, Seq<Seq<char>>)> {
    ps.map_values(|p: Production| production_model(p))
}

/// The productions that the lines of a grammar file give, in order (see `grammar_scan`).
pub fn parse_grammar(lines: &Vec<String>) -> (ps: Vec<Production>)
    ensures
        out_model(ps@) == grammar_scan(views(lines@)).0,
{
    let ghost lv = views(lines@);
    let mut ps: Vec<Production> = Vec::new();
    let mut last = String::new();
    let mut i: usize = 0;
    assert(lv.take(0) =~= Seq::<Seq<char>>::empty());
    assert(out_model(ps@) =~= Seq::<(Seq<char>, Seq<Seq<char>>)>::empty());
    while i < lines.len()
        invariant
            i <= lines@.len(),
            lv == views(lines@),
            grammar_scan(lv.take(i as int)) == (out_model(ps@), last@),
        decreases lines@.len() - i,
    {
        grammar_line_into(&lines[i], &mut last, &mut ps);
        assert(lv.take(i + 1).drop_last() =~= lv.take(i as int));
        assert(lv.take(i + 1).last() == lines@[i as int]@);
        i += 1;
    }
    assert(lv.take(lines@.len() as int) =~= lv);
    ps
}

} // verus!
