//! Scanning helpers of the regular-expression parser: trimming, top-level operator search,
//! implicit concatenation points, matching brackets and character classes.

use vstd::prelude::*;
use crate::text::{is_white_space, is_whitespace, chars_of};
use crate::regex::node::{RegexChar, RegexClass};
use crate::regex::model::ClassModel;

verus! {

/// Drops leading white space (as `str::trim_start`).
pub open spec fn trim_start(s: Seq<char>) -> Seq<char>
    decreases s.len(),
{
    if s.len() > 0 && is_white_space(s[0]) {
        trim_start(s.subrange(1, s.len() as int))
    } else {
        s
    }
}

/// Drops trailing white space (as `str::trim_end`).
pub open spec fn trim_end(s: Seq<char>) -> Seq<char>
    decreases s.len(),
{
    if s.len() > 0 && is_white_space(s[s.len() - 1]) {
        trim_end(s.subrange(0, s.len() - 1))
    } else {
        s
    }
}

/// Drops leading and trailing white space (as `str::trim`).
pub open spec fn trim(s: Seq<char>) -> Seq<char> {
    trim_end(trim_start(s))
}

/// Scans for `op` outside parentheses from position `i` at nesting `depth`; a backslash
/// skips the character after it.
pub open spec fn top_level_from(s: Seq<char>, op: char, i: int, depth: int) -> Option<int>
    decreases s.len() - i,
{
    if i < 0 || i >= s.len() {
        None
    } else if s[i] == '\\' {
        if i + 2 >= s.len() { None } else { top_level_from(s, op, i + 2, depth) }
    } else if s[i] == '(' {
        top_level_from(s, op, i + 1, depth + 1)
    } else if s[i] == ')' {
        top_level_from(s, op, i + 1, depth - 1)
    } else if s[i] == op && depth == 0 {
        Some(i)
    } else {
        top_level_from(s, op, i + 1, depth)
    }
}

/// Position of the first top-level occurrence of `op`.
pub open spec fn top_level(s: Seq<char>, op: char) -> Option<int> {
    top_level_from(s, op, 0, 0)
}

/// Whether a character is one of the postfix operators `*`, `+`, `?`.
pub open spec fn is_postfix(c: char) -> bool {
    c == '*' || c == '+' || c == '?'
}

/// Scans for an implicit concatenation point from position `i` (at least one), with the
/// nesting of parentheses and brackets seen so far.
pub open spec fn concat_from(s: Seq<char>, i: int, pd: int, bd: int) -> Option<int>
    decreases s.len() - i,
{
    if i < 1 || i >= s.len() {
        None
    } else if s[i - 1] == '\\' {
        concat_from(s, i + 1, pd, bd)
    } else {
        let p = s[i - 1];
        let pd2 = if p == '(' { pd + 1 } else if p == ')' { pd - 1 } else { pd };
        let bd2 = if p == '[' { bd + 1 } else if p == ']' { bd - 1 } else { bd };
        if pd2 == 0 && bd2 == 0 {
            if is_postfix(s[i]) {
                concat_from(s, i + 1, pd2, bd2)
            } else if p != '(' && s[i] != ')' && p != '[' && s[i] != ']' && !is_postfix(p)
                && p != '\\' {
                Some(i)
            } else {
                concat_from(s, i + 1, pd2, bd2)
            }
        } else {
            concat_from(s, i + 1, pd2, bd2)
        }
    }
}

/// Position of the first implicit concatenation point.
pub open spec fn concat_point(s: Seq<char>) -> Option<int> {
    concat_from(s, 1, 0, 0)
}

/// Position of the bracket that closes the one opened at the start, counting nesting of
/// `open` and `close` from position `i` at nesting `depth`.
pub open spec fn close_from(s: Seq<char>, open: char, close: char, i: int, depth: int) -> Option<int>
    decreases s.len() - i,
{
    if i < 0 || i >= s.len() {
        None
    } else if s[i] == open {
        close_from(s, open, close, i + 1, depth + 1)
    } else if s[i] == close {
        if depth - 1 == 0 { Some(i) } else { close_from(s, open, close, i + 1, depth - 1) }
    } else {
        close_from(s, open, close, i + 1, depth)
    }
}

/// The character a backslash escape stands for inside a class.
pub open spec fn class_escape(c: char) -> char {
    if c == 'r' { '\r' } else if c == 'n' { '\n' } else if c == 't' { '\t' } else { c }
}

/// Scans the body of a class from position `i`, collecting ranges `a-b` and single characters.
pub open spec fn class_scan(
    s: Seq<char>,
    i: int,
    ranges: Seq<(char, char)>,
    singles: Seq<RegexChar>,
) -> (Seq<(char, char)>, Seq<RegexChar>)
    decreases s.len() - i,
{
    if i < 0 || i >= s.len() {
        (ranges, singles)
    } else if s[i] == '\\' && i + 1 < s.len() {
        class_scan(s, i + 2, ranges, singles.push(RegexChar::Literal(class_escape(s[i + 1]))))
    } else if i + 2 < s.len() && s[i + 1] == '-' && s[i + 2] != ']' {
        class_scan(s, i + 3, ranges.push((s[i], s[i + 2])), singles)
    } else {
        class_scan(s, i + 1, ranges, singles.push(RegexChar::Literal(s[i])))
    }
}

/// The byte a character is truncated to by `as u8`.
pub open spec fn low_byte(c: char) -> int {
    (c as u32 as int) % 256
}

/// The literals of the byte range `a..=b`, each byte read back as a character.
pub open spec fn byte_range(a: int, b: int) -> Seq<RegexChar> {
    Seq::new(if b >= a { (b - a + 1) as nat } else { 0 }, |k: int| RegexChar::Literal(((a + k) as u8) as char))
}

/// The literals of all ranges, in order, each range taken bytewise.
pub open spec fn expand_ranges(rs: Seq<(char, char)>) -> Seq<RegexChar>
    decreases rs.len(),
{
    if rs.len() == 0 {
        seq![]
    } else {
        expand_ranges(rs.drop_last()) + byte_range(low_byte(rs.last().0), low_byte(rs.last().1))
    }
}

/// The class that a class body (the text between `[` and `]`) denotes.
pub open spec fn class_spec(s: Seq<char>) -> ClassModel {
    let negated = s.len() > 0 && s[0] == '^';
    let scanned = class_scan(s, if negated { 1 } else { 0 }, seq![], seq![]);
    let ranges = scanned.0;
    let singles = scanned.1;
    let base = if ranges.len() > 0 && singles.len() == 0 {
        ClassModel::Ranges(ranges)
    } else if ranges.len() > 0 {
        ClassModel::CharSet(singles + expand_ranges(ranges))
    } else {
        ClassModel::CharSet(singles)
    };
    if negated { ClassModel::Negated(Box::new(base)) } else { base }
}

pub proof fn lemma_trim_start_len(s: Seq<char>)
    ensures
        trim_start(s).len() <= s.len(),
    decreases s.len(),
{
    if s.len() > 0 && is_white_space(s[0]) {
        lemma_trim_start_len(s.subrange(1, s.len() as int));
    }
}

pub proof fn lemma_trim_end_len(s: Seq<char>)
    ensures
        trim_end(s).len() <= s.len(),
    decreases s.len(),
{
    if s.len() > 0 && is_white_space(s[s.len() - 1]) {
        lemma_trim_end_len(s.subrange(0, s.len() - 1));
    }
}

pub proof fn lemma_trim_len(s: Seq<char>)
    ensures
        trim(s).len() <= s.len(),
{
    lemma_trim_start_len(s);
    lemma_trim_end_len(trim_start(s));
}

pub proof fn lemma_top_level_bound(s: Seq<char>, op: char, i: int, depth: int)
    ensures
        top_level_from(s, op, i, depth) matches Some(k) ==> i <= k < s.len(),
    decreases s.len() - i,
{
    if i < 0 || i >= s.len() {
    } else if s[i] == '\\' {
        if i + 2 < s.len() {
            lemma_top_level_bound(s, op, i + 2, depth);
        }
    } else if s[i] == '(' {
        lemma_top_level_bound(s, op, i + 1, depth + 1);
    } else if s[i] == ')' {
        lemma_top_level_bound(s, op, i + 1, depth - 1);
    } else if s[i] == op && depth == 0 {
    } else {
        lemma_top_level_bound(s, op, i + 1, depth);
    }
}

pub proof fn lemma_concat_bound(s: Seq<char>, i: int, pd: int, bd: int)
    ensures
        concat_from(s, i, pd, bd) matches Some(k) ==> 1 <= i <= k < s.len(),
    decreases s.len() - i,
{
    if i < 1 || i >= s.len() {
    } else if s[i - 1] == '\\' {
        lemma_concat_bound(s, i + 1, pd, bd);
    } else {
        let p = s[i - 1];
        let pd2 = if p == '(' { pd + 1 } else if p == ')' { pd - 1 } else { pd };
        let bd2 = if p == '[' { bd + 1 } else if p == ']' { bd - 1 } else { bd };
        lemma_concat_bound(s, i + 1, pd2, bd2);
    }
}

pub proof fn lemma_close_bound(s: Seq<char>, open: char, close: char, i: int, depth: int)
    ensures
        close_from(s, open, close, i, depth) matches Some(k) ==> i <= k < s.len(),
    decreases s.len() - i,
{
    if i < 0 || i >= s.len() {
    } else if s[i] == open {
        lemma_close_bound(s, open, close, i + 1, depth + 1);
    } else if s[i] == close {
        if depth - 1 != 0 {
            lemma_close_bound(s, open, close, i + 1, depth - 1);
        }
    } else {
        lemma_close_bound(s, open, close, i + 1, depth);
    }
}

/// Skips white space forward from `lo` within `[lo, hi)`.
pub fn skip_space_forward(cs: &Vec<char>, lo: usize, hi: usize) -> (a: usize)
    requires
        lo <= hi <= cs@.len(),
    ensures
        lo <= a <= hi,
        trim_start(cs@.subrange(lo as int, hi as int)) == cs@.subrange(a as int, hi as int),
{
    let mut a = lo;
    while a < hi && is_whitespace(cs[a])
        invariant
            lo <= a <= hi <= cs@.len(),
            trim_start(cs@.subrange(lo as int, hi as int)) == trim_start(cs@.subrange(a as int, hi as int)),
        decreases hi - a,
    {
        assert(cs@.subrange(a as int, hi as int).subrange(1, (hi - a) as int) =~= cs@.subrange(a + 1, hi as int));
        a = a + 1;
    }
    a
}

/// Skips white space backward from `hi` within `[lo, hi)`.
pub fn skip_space_backward(cs: &Vec<char>, lo: usize, hi: usize) -> (b: usize)
    requires
        lo <= hi <= cs@.len(),
    ensures
        lo <= b <= hi,
        trim_end(cs@.subrange(lo as int, hi as int)) == cs@.subrange(lo as int, b as int),
{
    let mut b = hi;
    while b > lo && is_whitespace(cs[b - 1])
        invariant
            lo <= b <= hi <= cs@.len(),
            trim_end(cs@.subrange(lo as int, hi as int)) == trim_end(cs@.subrange(lo as int, b as int)),
        decreases b - lo,
    {
        assert(cs@.subrange(lo as int, b as int).subrange(0, (b - lo - 1) as int) =~= cs@.subrange(lo as int, b - 1));
        b = b - 1;
    }
    b
}

/// Top-level search of `op` in `cs[lo..hi]`, as a position relative to `lo`.
pub fn top_level_in(cs: &Vec<char>, lo: usize, hi: usize, op: char) -> (r: Option<usize>)
    requires
        lo <= hi <= cs@.len(),
    ensures
        r matches Some(k) ==> top_level(cs@.subrange(lo as int, hi as int), op) == Some(k as int),
        r is None ==> top_level(cs@.subrange(lo as int, hi as int), op) is None,
{
    let ghost s = cs@.subrange(lo as int, hi as int);
    let len = hi - lo;
    let mut depth: i128 = 0;
    let mut i: usize = 0;
    while i < len
        invariant
            lo <= hi <= cs@.len(),
            len == hi - lo,
            s == cs@.subrange(lo as int, hi as int),
            i <= len,
            -(i as int) <= depth <= i as int,
            top_level(s, op) == top_level_from(s, op, i as int, depth as int),
        decreases len - i,
    {
        let c = cs[lo + i];
        if c == '\\' {
            if len - i <= 2 {
                return None;
            }
            i = i + 2;
        } else if c == '(' {
            depth = depth + 1;
            i = i + 1;
        } else if c == ')' {
            depth = depth - 1;
            i = i + 1;
        } else if c == op && depth == 0 {
            return Some(i);
        } else {
            i = i + 1;
        }
    }
    None
}

/// Finds the first top-level occurrence of `op` (outside parentheses, skipping escaped
/// characters), as a character position.
pub fn find_top_level(input: &str, op: char) -> (r: Option<usize>)
    ensures
        r matches Some(k) ==> top_level(input@, op) == Some(k as int),
        r is None ==> top_level(input@, op) is None,
{
    let cs = chars_of(input);
    assert(cs@.subrange(0, cs@.len() as int) =~= input@);
    top_level_in(&cs, 0, cs.len(), op)
}

/// Concatenation-point search in `cs[lo..hi]`, as a position relative to `lo`.
pub fn concat_point_in(cs: &Vec<char>, lo: usize, hi: usize) -> (r: Option<usize>)
    requires
        lo <= hi <= cs@.len(),
    ensures
        r matches Some(k) ==> concat_point(cs@.subrange(lo as int, hi as int)) == Some(k as int),
        r is None ==> concat_point(cs@.subrange(lo as int, hi as int)) is None,
{
    let ghost s = cs@.subrange(lo as int, hi as int);
    let len = hi - lo;
    let mut pd: i128 = 0;
    let mut bd: i128 = 0;
    let mut i: usize = 1;
    while i < len
        invariant
            lo <= hi <= cs@.len(),
            len == hi - lo,
            s == cs@.subrange(lo as int, hi as int),
            1 <= i,
            -(i as int) <= pd <= i as int,
            -(i as int) <= bd <= i as int,
            concat_point(s) == concat_from(s, i as int, pd as int, bd as int),
        decreases len - i,
    {
        let p = cs[lo + i - 1];
        let c = cs[lo + i];
        if p == '\\' {
            i = i + 1;
        } else {
            if p == '(' {
                pd = pd + 1;
            } else if p == ')' {
                pd = pd - 1;
            }
            if p == '[' {
                bd = bd + 1;
            } else if p == ']' {
                bd = bd - 1;
            }
            if pd == 0 && bd == 0 {
                if c == '*' || c == '+' || c == '?' {
                    i = i + 1;
                } else if p != '(' && c != ')' && p != '[' && c != ']' && p != '*' && p != '+'
                    && p != '?' && p != '\\' {
                    return Some(i);
                } else {
                    i = i + 1;
                }
            } else {
                i = i + 1;
            }
        }
    }
    None
}

/// Finds the first point where two factors are implicitly concatenated at top level.
pub fn find_concat_point(input: &str) -> (r: Option<usize>)
    ensures
        r matches Some(k) ==> concat_point(input@) == Some(k as int),
        r is None ==> concat_point(input@) is None,
{
    let cs = chars_of(input);
    assert(cs@.subrange(0, cs@.len() as int) =~= input@);
    concat_point_in(&cs, 0, cs.len())
}

/// Position (relative to `lo`) of the bracket closing the one opened at `lo`.
pub fn close_in(cs: &Vec<char>, lo: usize, hi: usize, open: char, close: char) -> (r: Option<usize>)
    requires
        lo <= hi <= cs@.len(),
    ensures
        r matches Some(k) ==> close_from(cs@.subrange(lo as int, hi as int), open, close, 0, 0) == Some(k as int),
        r is None ==> close_from(cs@.subrange(lo as int, hi as int), open, close, 0, 0) is None,
{
    let ghost s = cs@.subrange(lo as int, hi as int);
    let len = hi - lo;
    let mut depth: i128 = 0;
    let mut i: usize = 0;
    while i < len
        invariant
            lo <= hi <= cs@.len(),
            len == hi - lo,
            s == cs@.subrange(lo as int, hi as int),
            i <= len,
            -(i as int) <= depth <= i as int,
            close_from(s, open, close, 0, 0) == close_from(s, open, close, i as int, depth as int),
        decreases len - i,
    {
        let c = cs[lo + i];
        if c == open {
            depth = depth + 1;
        } else if c == close {
            depth = depth - 1;
            if depth == 0 {
                return Some(i);
            }
        }
        i = i + 1;
    }
    None
}

/// The character an escape inside a class stands for.
fn class_escape_of(c: char) -> (r: char)
    ensures
        r == class_escape(c),
{
    if c == 'r' { '\r' } else if c == 'n' { '\n' } else if c == 't' { '\t' } else { c }
}

/// Appends the literals of the byte range of `a..=b`.
pub fn push_byte_range(out: &mut Vec<RegexChar>, a: char, b: char)
    ensures
        final(out)@ == old(out)@ + byte_range(low_byte(a), low_byte(b)),
{
    let lo: u32 = a as u32 % 256;
    let hi: u32 = b as u32 % 256;
    let ghost start = out@;
    if lo > hi {
        assert(byte_range(lo as int, hi as int) =~= Seq::<RegexChar>::empty());
        assert(out@ =~= start + byte_range(lo as int, hi as int));
        return;
    }
    let mut x: u32 = lo;
    while x <= hi
        invariant
            lo <= x <= 256,
            hi < 256,
            lo == low_byte(a),
            hi == low_byte(b),
            x <= hi + 1,
            lo <= hi,
            out@ == start + byte_range(lo as int, x as int - 1),
        decreases hi + 1 - x,
    {
        let byte: u8 = x as u8;
        out.push(RegexChar::Literal(byte as char));
        proof {
            assert(byte_range(lo as int, x as int) =~= byte_range(lo as int, x as int - 1).push(
                RegexChar::Literal(((lo + (x - lo)) as u8) as char)));
        }
        x = x + 1;
    }
}

/// Parses the class body held in `cs[lo..hi]`.
pub fn parse_class_in(cs: &Vec<char>, lo: usize, hi: usize) -> (c: RegexClass)
    requires
        lo <= hi <= cs@.len(),
    ensures
        c.model() == class_spec(cs@.subrange(lo as int, hi as int)),
{
    let ghost s = cs@.subrange(lo as int, hi as int);
    let n = hi - lo;
    let mut i: usize = 0;
    let mut negated = false;
    if n > 0 && cs[lo] == '^' {
        negated = true;
        i = 1;
    }
    let mut ranges: Vec<(char, char)> = Vec::new();
    let mut singles: Vec<RegexChar> = Vec::new();
    while i < n
        invariant
            lo <= hi <= cs@.len(),
            s == cs@.subrange(lo as int, hi as int),
            n == hi - lo,
            i <= n + 1,
            class_scan(s, if negated { 1 } else { 0 }, seq![], seq![]) == class_scan(s, i as int, ranges@, singles@),
        decreases n + 1 - i,
    {
        if cs[lo + i] == '\\' && n - i > 1 {
            singles.push(RegexChar::Literal(class_escape_of(cs[lo + i + 1])));
            i = i + 2;
        } else if n - i > 2 && cs[lo + i + 1] == '-' && cs[lo + i + 2] != ']' {
            ranges.push((cs[lo + i], cs[lo + i + 2]));
            i = i + 3;
        } else {
            singles.push(RegexChar::Literal(cs[lo + i]));
            i = i + 1;
        }
    }
    assert(negated == (s.len() > 0 && s[0] == '^'));
    assert(class_scan(s, i as int, ranges@, singles@) == (ranges@, singles@));
    let ghost scanned = class_scan(s, if negated { 1 } else { 0 }, seq![], seq![]);
    assert(scanned.0 == ranges@ && scanned.1 == singles@);
    let base = if ranges.len() > 0 && singles.len() == 0 {
        RegexClass::Ranges(ranges)
    } else if ranges.len() > 0 {
        let mut set = singles;
        let mut j: usize = 0;
        while j < ranges.len()
            invariant
                j <= ranges@.len(),
                set@ == singles@ + expand_ranges(ranges@.take(j as int)),
            decreases ranges@.len() - j,
        {
            let (a, b) = ranges[j];
            push_byte_range(&mut set, a, b);
            proof {
                assert(ranges@.take(j + 1).drop_last() =~= ranges@.take(j as int));
            }
            j = j + 1;
        }
        assert(ranges@.take(ranges@.len() as int) =~= ranges@);
        RegexClass::CharSet(set)
    } else {
        RegexClass::CharSet(singles)
    };
    let ghost base_model = if scanned.0.len() > 0 && scanned.1.len() == 0 {
        ClassModel::Ranges(scanned.0)
    } else if scanned.0.len() > 0 {
        ClassModel::CharSet(scanned.1 + expand_ranges(scanned.0))
    } else {
        ClassModel::CharSet(scanned.1)
    };
    assert(base.model() == base_model);
    if negated {
        let r = RegexClass::Negated(Box::new(base));
        assert(r.model() == ClassModel::Negated(Box::new(base_model)));
        r
    } else {
        base
    }
}

/// Parses the body of a character class (`[...]` without the brackets): a leading `^`
/// negates, `a-b` is a range (unless `b` is `]`), a backslash escapes the next character,
/// anything else is a single character. Ranges alone give `Ranges`; ranges together with
/// single characters give a set of the singles followed by every character of each range.
/// It never fails.
pub fn parse_class(input: &str) -> (r: Option<RegexClass>)
    ensures
        r matches Some(c) && c.model() == class_spec(input@),
{
    let cs = chars_of(input);
    assert(cs@.subrange(0, cs@.len() as int) =~= input@);
    Some(parse_class_in(&cs, 0, cs.len()))
}

} // verus!
