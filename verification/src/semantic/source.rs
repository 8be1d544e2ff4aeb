//! Places in source text: byte offsets, the line a place is on, its column, and a caret
//! under it.

use vstd::prelude::*;
use crate::text::{chars_of, string_of_range, push_char};

verus! {

/// The number of bytes of a character in UTF-8.
pub open spec fn utf8_len(c: char) -> nat {
    if (c as u32) < 0x80 {
        1
    } else if (c as u32) < 0x800 {
        2
    } else if (c as u32) < 0x10000 {
        3
    } else {
        4
    }
}

/// The byte offset of the `i`-th character.
pub open spec fn byte_pos(cs: Seq<char>, i: int) -> nat
    decreases i,
{
    if i <= 0 || i > cs.len() {
        0
    } else {
        byte_pos(cs, i - 1) + utf8_len(cs[i - 1])
    }
}

/// `offset` is where a character starts, or the end of the text.
pub open spec fn is_boundary(cs: Seq<char>, offset: nat) -> bool {
    exists|k: int| 0 <= k <= cs.len() && #[trigger] byte_pos(cs, k) == offset
}

/// The character that starts at `offset` (the length of the text at its end).
pub open spec fn char_index(cs: Seq<char>, offset: nat) -> int {
    choose|k: int| 0 <= k <= cs.len() && #[trigger] byte_pos(cs, k) == offset
}

/// Over the first `k` characters, counting only those that start at or before `offset`: the
/// line number (one more than the line breaks) and the character after the last line break.
pub open spec fn line_scan(cs: Seq<char>, offset: nat, k: int) -> (nat, int)
    decreases k,
{
    if k <= 0 || k > cs.len() {
        (1, 0)
    } else {
        let (line, start) = line_scan(cs, offset, k - 1);
        if byte_pos(cs, k - 1) <= offset && cs[k - 1] == '\n' {
            (line + 1, k)
        } else {
            (line, start)
        }
    }
}

/// The position of the first line break from `j` on, or the end of the text.
pub open spec fn line_end(cs: Seq<char>, j: int) -> int
    decreases cs.len() - j,
{
    if j < 0 || j >= cs.len() {
        cs.len() as int
    } else if cs[j] == '\n' {
        j
    } else {
        line_end(cs, j + 1)
    }
}

/// The line number and column of the place at byte `offset`, and the text of its line. The
/// column counts the characters of the line before the place, plus one; a place before the
/// line start (a line break itself) is in column one. An empty text gives line one, column one
/// and an empty line.
pub open spec fn line_context(cs: Seq<char>, offset: nat) -> (nat, nat, Seq<char>) {
    if cs.len() == 0 {
        (1, 1, seq![])
    } else {
        let (line, start) = line_scan(cs, offset, cs.len() as int);
        let k = char_index(cs, offset);
        let col: nat = if k >= start { (k - start + 1) as nat } else { 1 };
        (line, col, cs.subrange(start, line_end(cs, start)))
    }
}

/// The place can be looked up: the text is shorter than the largest `usize` in bytes, and,
/// when it is not empty, `offset` is where a character starts or its end.
pub open spec fn report_ok(cs: Seq<char>, offset: nat) -> bool {
    &&& byte_pos(cs, cs.len() as int) < usize::MAX
    &&& (cs.len() == 0 || is_boundary(cs, offset))
}

/// Spaces up to the column before `col`, then a caret.
pub open spec fn caret_text(col: nat) -> Seq<char> {
    Seq::new(if col >= 1 { (col - 1) as nat } else { 0 }, |i: int| ' ').push('^')
}

/// Byte offsets grow by one character's bytes at a time.
proof fn lemma_byte_pos_step(cs: Seq<char>, i: int)
    requires
        0 <= i < cs.len(),
    ensures
        byte_pos(cs, i + 1) == byte_pos(cs, i) + utf8_len(cs[i]),
{
}

/// Byte offsets grow strictly and are at least the character count.
proof fn lemma_byte_pos_grows(cs: Seq<char>, i: int, j: int)
    requires
        0 <= i <= j <= cs.len(),
    ensures
        byte_pos(cs, i) + (j - i) <= byte_pos(cs, j),
        i < j ==> byte_pos(cs, i) < byte_pos(cs, j),
        i <= byte_pos(cs, i),
    decreases j,
{
    if j > 0 {
        lemma_byte_pos_step(cs, j - 1);
        if i < j {
            lemma_byte_pos_grows(cs, i, j - 1);
        } else {
            lemma_byte_pos_grows(cs, i - 1, j - 1);
        }
    }
}

/// Characters after `offset` change nothing in the scan.
proof fn lemma_scan_stops(cs: Seq<char>, offset: nat, k: int, n: int)
    requires
        0 <= k <= n <= cs.len(),
        byte_pos(cs, k) > offset,
    ensures
        line_scan(cs, offset, n) == line_scan(cs, offset, k),
    decreases n - k,
{
    if k < n {
        lemma_scan_stops(cs, offset, k, n - 1);
        lemma_byte_pos_grows(cs, k, n - 1);
    }
}

/// The number of bytes of a character in UTF-8 (as `char::len_utf8`).
fn utf8_width(c: char) -> (n: usize)
    ensures
        n == utf8_len(c),
{
    let u = c as u32;
    if u < 0x80 {
        1
    } else if u < 0x800 {
        2
    } else if u < 0x10000 {
        3
    } else {
        4
    }
}

/// The line number, column and line text of the place at byte `offset` of `input` (see
/// `line_context`), and the byte offset where its line starts.
pub fn get_line_context(input: &str, offset: usize) -> (r: (usize, usize, String, usize))
    requires
        report_ok(input@, offset as nat),
    ensures
        (r.0 as nat, r.1 as nat, r.2@) == line_context(input@, offset as nat),
{
    let cs = chars_of(input);
    if cs.len() == 0 {
        let empty = String::new();
        assert(empty@ =~= Seq::<char>::empty());
        return (1, 1, empty, 0);
    }
    let ghost n = cs@.len() as int;
    let ghost k_off = char_index(cs@, offset as nat);
    proof {
        lemma_byte_pos_grows(cs@, n, n);
    }
    let mut line_start: usize = 0;
    let mut line_start_idx: usize = 0;
    let mut line_number: usize = 1;
    let mut idx: usize = 0;
    let mut k: usize = 0;
    while k < cs.len() && idx <= offset
        invariant
            cs@ == input@,
            n == cs@.len(),
            k <= n,
            idx == byte_pos(cs@, k as int),
            line_scan(cs@, offset as nat, k as int) == (line_number as nat, line_start_idx as int),
            line_start == byte_pos(cs@, line_start_idx as int),
            line_start_idx <= k,
            1 <= line_number <= k + 1,
            n <= byte_pos(cs@, n),
            byte_pos(cs@, n) < usize::MAX,
        decreases n - k,
    {
        let c = cs[k];
        proof {
            lemma_byte_pos_step(cs@, k as int);
            lemma_byte_pos_grows(cs@, k + 1, n);
        }
        if c == '\n' {
            line_number += 1;
            line_start = idx + 1;
            line_start_idx = k + 1;
        }
        idx = idx + utf8_width(c);
        k += 1;
    }
    proof {
        if k < n {
            lemma_scan_stops(cs@, offset as nat, k as int, n);
        }
    }
    let mut e: usize = line_start_idx;
    while e < cs.len() && cs[e] != '\n'
        invariant
            line_start_idx <= e <= n,
            n == cs@.len(),
            line_end(cs@, line_start_idx as int) == line_end(cs@, e as int),
        decreases n - e,
    {
        e += 1;
    }
    let line_str = string_of_range(&cs, line_start_idx, e);
    let end_byte: usize = if offset > line_start { offset } else { line_start };
    proof {
        assert(0 <= k_off <= n && byte_pos(cs@, k_off) == offset);
        if k_off < line_start_idx {
            lemma_byte_pos_grows(cs@, k_off, line_start_idx as int);
        }
        if line_start_idx < k_off {
            lemma_byte_pos_grows(cs@, line_start_idx as int, k_off);
        }
    }
    let mut j: usize = line_start_idx;
    let mut b: usize = line_start;
    while j < cs.len() && b < end_byte
        invariant
            line_start_idx <= j <= n,
            n == cs@.len(),
            b == byte_pos(cs@, j as int),
            0 <= k_off <= n,
            byte_pos(cs@, k_off) == offset,
            end_byte == (if offset > line_start { offset } else { line_start }),
            line_start == byte_pos(cs@, line_start_idx as int),
            offset >= line_start ==> k_off >= line_start_idx,
            offset >= line_start ==> j <= k_off,
            offset < line_start ==> j == line_start_idx,
            byte_pos(cs@, n) < usize::MAX,
        decreases n - j,
    {
        proof {
            lemma_byte_pos_step(cs@, j as int);
            lemma_byte_pos_grows(cs@, j + 1, n);
            if k_off <= j {
                if k_off < j {
                    lemma_byte_pos_grows(cs@, k_off, j as int);
                }
            }
        }
        b = b + utf8_width(cs[j]);
        j += 1;
    }
    proof {
        if offset >= line_start && j < k_off && j < n {
            lemma_byte_pos_grows(cs@, j as int, k_off);
        }
    }
    let col = (j - line_start_idx) + 1;
    (line_number, col, line_str, line_start)
}

/// Spaces up to the column before `col`, then a caret (see `caret_text`).
pub fn build_caret_point(col: usize) -> (s: String)
    ensures
        s@ == caret_text(col as nat),
{
    let spaces: usize = if col >= 1 { col - 1 } else { 0 };
    let mut s = String::new();
    let mut i: usize = 0;
    while i < spaces
        invariant
            i <= spaces,
            s@ == Seq::new(i as nat, |x: int| ' '),
        decreases spaces - i,
    {
        push_char(&mut s, ' ');
        i += 1;
        assert(s@ =~= Seq::new(i as nat, |x: int| ' '));
    }
    push_char(&mut s, '^');
    assert(s@ =~= caret_text(col as nat));
    s
}

} // verus!
