//! Parsing token specification files: one `name: regex` pair per line.

use vstd::prelude::*;
use crate::generator::TokenSpec;
use crate::text::{chars_of, string_of_range};
use crate::regex::scan::{trim, trim_start, trim_end, skip_space_forward, skip_space_backward};

verus! {

/// The first position at or after `i` holding `c`.
pub open spec fn index_from(s: Seq<char>, c: char, i: int) -> Option<int>
    decreases s.len() - i,
{
    if i < 0 || i >= s.len() {
        None
    } else if s[i] == c {
        Some(i)
    } else {
        index_from(s, c, i + 1)
    }
}

/// What a line of a specification file declares: after trimming, nothing for an empty line
/// or a `#` comment, or for a line without `:`; otherwise the trimmed text before the first
/// `:` as the name and the trimmed text after it as the regular expression.
pub open spec fn spec_of_line(line: Seq<char>) -> Option<(Seq<char>, Seq<char>)> {
    let t = trim(line);
    if t.len() == 0 || t[0] == '#' {
        None
    } else {
        match index_from(t, ':', 0) {
            None => None,
            Some(i) => Some((trim(t.subrange(0, i)), trim(t.subrange(i + 1, t.len() as int)))),
        }
    }
}

/// The declarations of a list of lines, in order.
pub open spec fn specs_of_lines(lines: Seq<Seq<char>>) -> Seq<(Seq<char>, Seq<char>)>
    decreases lines.len(),
{
    if lines.len() == 0 {
        seq![]
    } else {
        let rest = specs_of_lines(lines.drop_last());
        match spec_of_line(lines.last()) {
            Some(p) => rest.push(p),
            None => rest,
        }
    }
}

/// The bounds of `cs[lo..hi]` without its leading and trailing white space.
pub fn trim_range(cs: &Vec<char>, lo: usize, hi: usize) -> (r: (usize, usize))
    requires
        lo <= hi <= cs@.len(),
    ensures
        lo <= r.0 <= r.1 <= hi,
        trim(cs@.subrange(lo as int, hi as int)) == cs@.subrange(r.0 as int, r.1 as int),
{
    let a = skip_space_forward(cs, lo, hi);
    let b = skip_space_backward(cs, a, hi);
    (a, b)
}

/// The first position of `c` in `cs[lo..hi]`, if any.
pub fn find_char(cs: &Vec<char>, c: char, lo: usize, hi: usize) -> (r: Option<usize>)
    requires
        lo <= hi <= cs@.len(),
    ensures
        index_from(cs@.subrange(lo as int, hi as int), c, 0) == match r {
            Some(i) => Some(i - lo),
            None => None::<int>,
        },
        r matches Some(i) ==> lo <= i < hi,
{
    let ghost t = cs@.subrange(lo as int, hi as int);
    let mut i: usize = lo;
    while i < hi
        invariant
            lo <= i <= hi <= cs@.len(),
            t == cs@.subrange(lo as int, hi as int),
            index_from(t, c, 0) == index_from(t, c, i - lo),
        decreases hi - i,
    {
        assert(t[i - lo] == cs@[i as int]);
        if cs[i] == c {
            return Some(i);
        }
        i += 1;
    }
    None
}

/// The token specification a line declares (see `spec_of_line`).
pub fn token_spec_of_line(line: &str) -> (r: Option<TokenSpec>)
    ensures
        match r {
            Some(ts) => spec_of_line(line@) == Some((ts.name@, ts.regex@)),
            None => spec_of_line(line@) is None,
        },
{
    let cs = chars_of(line);
    let n = cs.len();
    let (a, b) = trim_range(&cs, 0, n);
    assert(cs@.subrange(0, n as int) =~= line@);
    let ghost t = cs@.subrange(a as int, b as int);
    if a == b || cs[a] == '#' {
        assert(a < b ==> t[0] == cs@[a as int]);
        return None;
    }
    match find_char(&cs, ':', a, b) {
        None => None,
        Some(i) => {
            let (na, nb) = trim_range(&cs, a, i);
            let (ra, rb) = trim_range(&cs, i + 1, b);
            assert(t.subrange(0, i - a) =~= cs@.subrange(a as int, i as int));
            assert(t.subrange(i - a + 1, t.len() as int) =~= cs@.subrange(i + 1, b as int));
            let name = string_of_range(&cs, na, nb);
            let regex = string_of_range(&cs, ra, rb);
            Some(TokenSpec { name, regex })
        },
    }
}

/// The token specifications a list of lines declares, in order (see `spec_of_line`).
pub fn parse_token_spec(lines: &Vec<String>) -> (specs: Vec<TokenSpec>)
    ensures
        specs@.map_values(|t: TokenSpec| (t.name@, t.regex@)) == specs_of_lines(lines@.map_values(|l: String| l@)),
{
    let ghost lv = lines@.map_values(|l: String| l@);
    let mut specs: Vec<TokenSpec> = Vec::new();
    let mut i: usize = 0;
    while i < lines.len()
        invariant
            i <= lines@.len(),
            lv == lines@.map_values(|l: String| l@),
            specs@.map_values(|t: TokenSpec| (t.name@, t.regex@)) == specs_of_lines(lv.take(i as int)),
        decreases lines@.len() - i,
    {
        let ghost before = specs@;
        let r = token_spec_of_line(lines[i].as_str());
        assert(lv.take(i + 1).drop_last() =~= lv.take(i as int));
        assert(lv.take(i + 1).last() == lines@[i as int]@);
        match r {
            Some(ts) => {
                specs.push(ts);
                assert(specs@.map_values(|t: TokenSpec| (t.name@, t.regex@))
                    =~= before.map_values(|t: TokenSpec| (t.name@, t.regex@)).push((specs@.last().name@, specs@.last().regex@)));
            },
            None => {},
        }
        i += 1;
    }
    assert(lv.take(lines@.len() as int) =~= lv);
    specs
}

} // verus!
