//! Views of an automaton for people: its transitions grouped by label, and its transition
//! table, one column per symbol in order and one for the empty transition.

use vstd::prelude::*;
use crate::text::append_str;
use crate::regex::node::{RegexChar, RegexEscape};
use crate::regex::repr::{char_repr, append_char_repr};
use crate::nfa::state::{StateId, State, Edge};
use crate::nfa::nfa::NFA;
use crate::nfa::render::{state_id_repr, ids_repr, label_repr, append_state_id, append_ids_repr};

verus! {

/// The labels of the transitions, each once, in order of first appearance.
pub open spec fn labels_of(es: Seq<Edge>) -> Seq<Option<RegexChar>>
    decreases es.len(),
{
    if es.len() == 0 {
        seq![]
    } else {
        let r = labels_of(es.drop_last());
        if r.contains(es.last().0) { r } else { r.push(es.last().0) }
    }
}

/// The targets of the transitions labelled `l`, in order.
pub open spec fn targets_of(es: Seq<Edge>, l: Option<RegexChar>) -> Seq<StateId>
    decreases es.len(),
{
    if es.len() == 0 {
        seq![]
    } else {
        let r = targets_of(es.drop_last(), l);
        if es.last().0 == l { r.push(es.last().1) } else { r }
    }
}

/// The lines of state `id` for the labels `ls`: one per label, with all its targets.
pub open spec fn label_lines(id: StateId, es: Seq<Edge>, ls: Seq<Option<RegexChar>>) -> Seq<char>
    decreases ls.len(),
{
    if ls.len() == 0 {
        seq![]
    } else {
        label_lines(id, es, ls.drop_last()) + "    "@ + state_id_repr(id) + " --"@ + label_repr(ls.last())
            + "--> "@ + ids_repr(targets_of(es, ls.last())) + "\n"@
    }
}

/// The lines of the states, state by state.
pub open spec fn grouped_lines(sts: Seq<State>) -> Seq<char>
    decreases sts.len(),
{
    if sts.len() == 0 {
        seq![]
    } else {
        grouped_lines(sts.drop_last()) + label_lines(sts.last().id, sts.last().transitions@,
            labels_of(sts.last().transitions@))
    }
}

/// The view of an automaton: a heading, its start, its accepting states, then for each state
/// one line per label with all the targets of that label.
pub open spec fn visual_text(n: NFA) -> Seq<char> {
    "NFA Visualization:\n"@ + "  Estado inicial: "@ + state_id_repr(n.start) + "\n"@
        + "  Estados de aceptación: "@ + ids_repr(n.accepts@) + "\n"@ + "  Transiciones:\n"@
        + grouped_lines(n.states@)
}

/// The position of an escape among the escapes, in the order they are declared.
pub open spec fn escape_rank(e: RegexEscape) -> int {
    match e {
        RegexEscape::Newline => 0, RegexEscape::Tab => 1, RegexEscape::Backslash => 2,
        RegexEscape::Return => 3, RegexEscape::Null => 4, RegexEscape::Digit => 5,
        RegexEscape::NotDigit => 6, RegexEscape::Word => 7, RegexEscape::NotWord => 8,
        RegexEscape::Space => 9, RegexEscape::NotSpace => 10, RegexEscape::LBracket => 11,
        RegexEscape::RBracket => 12, RegexEscape::LParen => 13, RegexEscape::RParen => 14,
        RegexEscape::LBrace => 15, RegexEscape::RBrace => 16, RegexEscape::Dot => 17,
        RegexEscape::Plus => 18, RegexEscape::Star => 19, RegexEscape::Question => 20,
        RegexEscape::Pipe => 21, RegexEscape::Caret => 22, RegexEscape::Dollar => 23,
    }
}

/// The order of regex characters: by kind in the order the kinds are declared, literals by
/// code point and escapes in their declared order.
pub open spec fn symbol_key(c: RegexChar) -> (int, int) {
    match c {
        RegexChar::Literal(x) => (0, x as int),
        RegexChar::Escape(e) => (1, escape_rank(e)),
        RegexChar::Epsilon => (2, 0),
        RegexChar::Start => (3, 0),
        RegexChar::End => (4, 0),
        RegexChar::Any => (5, 0),
    }
}

/// `a` comes before `b`.
pub open spec fn symbol_before(a: RegexChar, b: RegexChar) -> bool {
    symbol_key(a).0 < symbol_key(b).0 || (symbol_key(a).0 == symbol_key(b).0 && symbol_key(a).1 < symbol_key(b).1)
}

/// Each symbol comes before those after it.
pub open spec fn strictly_sorted(s: Seq<RegexChar>) -> bool {
    forall|i: int, j: int| 0 <= i < j < s.len() ==> symbol_before(#[trigger] s[i], #[trigger] s[j])
}

/// Some transition of the states is labelled `c`.
pub open spec fn symbol_on_edge(sts: Seq<State>, c: RegexChar) -> bool {
    exists|i: int, k: int| 0 <= i < sts.len() && 0 <= k < sts[i].transitions@.len()
        && #[trigger] sts[i].transitions@[k].0 == Some(c)
}

/// The symbols the transitions are labelled with, each once, in order.
pub open spec fn table_symbols(sts: Seq<State>) -> Seq<RegexChar> {
    choose|s: Seq<RegexChar>| strictly_sorted(s) && forall|c: RegexChar| #[trigger] s.contains(c) <==> symbol_on_edge(sts, c)
}

/// `s` right-aligned in `w` columns.
pub open spec fn pad_left(s: Seq<char>, w: nat) -> Seq<char> {
    if s.len() < w { Seq::new((w - s.len()) as nat, |i: int| ' ') + s } else { s }
}

/// State identifiers separated by commas.
pub open spec fn ids_comma(v: Seq<StateId>) -> Seq<char>
    decreases v.len(),
{
    if v.len() == 0 {
        seq![]
    } else if v.len() == 1 {
        state_id_repr(v[0])
    } else {
        ids_comma(v.drop_last()) + ","@ + state_id_repr(v.last())
    }
}

/// A table cell: the targets of a label separated by commas, or `-` when there are none.
pub open spec fn cell_text(es: Seq<Edge>, l: Option<RegexChar>) -> Seq<char> {
    if targets_of(es, l).len() == 0 { "-"@ } else { ids_comma(targets_of(es, l)) }
}

/// The cells of a row for the symbols `syms`, each after ` | ` and right-aligned in twelve
/// columns.
pub open spec fn row_cells(es: Seq<Edge>, syms: Seq<RegexChar>) -> Seq<char>
    decreases syms.len(),
{
    if syms.len() == 0 {
        seq![]
    } else {
        row_cells(es, syms.drop_last()) + " | "@ + pad_left(cell_text(es, Some(syms.last())), 12)
    }
}

/// The headings of the symbol columns.
pub open spec fn header_cells(syms: Seq<RegexChar>) -> Seq<char>
    decreases syms.len(),
{
    if syms.len() == 0 {
        seq![]
    } else {
        header_cells(syms.drop_last()) + " | "@ + pad_left(char_repr(syms.last()), 12)
    }
}

/// The rows of the states, in order: the state right-aligned in eight columns, one cell per
/// symbol, then the cell of the empty transition.
pub open spec fn table_rows(sts: Seq<State>, syms: Seq<RegexChar>) -> Seq<char>
    decreases sts.len(),
{
    if sts.len() == 0 {
        seq![]
    } else {
        let st = sts.last();
        table_rows(sts.drop_last(), syms) + pad_left(state_id_repr(st.id), 8) + row_cells(st.transitions@, syms)
            + " | "@ + pad_left(cell_text(st.transitions@, None), 12) + "\n"@
    }
}

/// The transition table of an automaton: its start and accepting states, a heading row,
/// then one row per state.
pub open spec fn table_text(n: NFA) -> Seq<char> {
    let syms = table_symbols(n.states@);
    "  Estado inicial: "@ + state_id_repr(n.start) + "\n"@ + "  Estados de aceptación: "@ + ids_repr(n.accepts@)
        + "\n"@ + "  Estado  "@ + header_cells(syms) + " | "@ + pad_left("ε"@, 12) + "\n"@
        + table_rows(n.states@, syms)
}

/// `symbol_before` is a strict total order.
proof fn lemma_symbol_order(a: RegexChar, b: RegexChar, c: RegexChar)
    ensures
        !symbol_before(a, a),
        symbol_before(a, b) && symbol_before(b, c) ==> symbol_before(a, c),
        a != b ==> symbol_before(a, b) || symbol_before(b, a),
{
    if a != b && symbol_key(a) == symbol_key(b) {
        match a {
            RegexChar::Literal(x) => {
                match b {
                    RegexChar::Literal(y) => {
                        assert(x as int == y as int);
                        assert(x == y);
                    },
                    _ => {},
                }
            },
            RegexChar::Escape(e) => {
                match b {
                    RegexChar::Escape(f) => {
                        assert(escape_rank(e) == escape_rank(f));
                        assert(e == f);
                    },
                    _ => {},
                }
            },
            _ => {},
        }
    }
}

/// Two sorted lists that hold the same symbols are equal.
proof fn lemma_sorted_unique(s: Seq<RegexChar>, t: Seq<RegexChar>)
    requires
        strictly_sorted(s),
        strictly_sorted(t),
        forall|c: RegexChar| #[trigger] s.contains(c) <==> t.contains(c),
    ensures
        s == t,
    decreases s.len(),
{
    if s.len() == 0 {
        if t.len() > 0 {
            assert(t.contains(t[0]));
            assert(s.contains(t[0]));
            assert(false);
        }
        assert(s =~= t);
    } else {
        assert(s.contains(s[0]));
        assert(t.contains(s[0]));
        assert(t.len() > 0);
        assert(t.contains(t[0]));
        assert(s.contains(t[0]));
        let i = choose|i: int| 0 <= i < t.len() && t[i] == s[0];
        let j = choose|j: int| 0 <= j < s.len() && s[j] == t[0];
        lemma_symbol_order(s[0], t[0], s[0]);
        if s[0] != t[0] {
            assert(i > 0 && j > 0);
            assert(symbol_before(t[0], t[i]));
            assert(symbol_before(s[0], s[j]));
            assert(false);
        }
        let s1 = s.subrange(1, s.len() as int);
        let t1 = t.subrange(1, t.len() as int);
        assert forall|c: RegexChar| #[trigger] s1.contains(c) <==> t1.contains(c) by {
            if s1.contains(c) {
                let p = choose|p: int| 0 <= p < s1.len() && s1[p] == c;
                assert(s[p + 1] == c);
                assert(symbol_before(s[0], c));
                lemma_symbol_order(c, c, c);
                assert(s.contains(c));
                assert(t.contains(c));
                let q = choose|q: int| 0 <= q < t.len() && t[q] == c;
                if q == 0 {
                    assert(c == s[0]);
                }
                assert(t1[q - 1] == c);
            }
            if t1.contains(c) {
                let p = choose|p: int| 0 <= p < t1.len() && t1[p] == c;
                assert(t[p + 1] == c);
                assert(symbol_before(t[0], c));
                lemma_symbol_order(c, c, c);
                assert(t.contains(c));
                assert(s.contains(c));
                let q = choose|q: int| 0 <= q < s.len() && s[q] == c;
                if q == 0 {
                    assert(c == t[0]);
                }
                assert(s1[q - 1] == c);
            }
        }
        assert forall|a: int, b: int| 0 <= a < b < s1.len() implies symbol_before(#[trigger] s1[a], #[trigger] s1[b]) by {
            assert(s1[a] == s[a + 1] && s1[b] == s[b + 1]);
        }
        assert forall|a: int, b: int| 0 <= a < b < t1.len() implies symbol_before(#[trigger] t1[a], #[trigger] t1[b]) by {
            assert(t1[a] == t[a + 1] && t1[b] == t[b + 1]);
        }
        lemma_sorted_unique(s1, t1);
        assert(s =~= seq![s[0]] + s1);
        assert(t =~= seq![t[0]] + t1);
    }
}

/// The position of an escape among the escapes.
fn escape_rank_of(e: RegexEscape) -> (r: u32)
    ensures
        r as int == escape_rank(e),
{
    match e {
        RegexEscape::Newline => 0, RegexEscape::Tab => 1, RegexEscape::Backslash => 2,
        RegexEscape::Return => 3, RegexEscape::Null => 4, RegexEscape::Digit => 5,
        RegexEscape::NotDigit => 6, RegexEscape::Word => 7, RegexEscape::NotWord => 8,
        RegexEscape::Space => 9, RegexEscape::NotSpace => 10, RegexEscape::LBracket => 11,
        RegexEscape::RBracket => 12, RegexEscape::LParen => 13, RegexEscape::RParen => 14,
        RegexEscape::LBrace => 15, RegexEscape::RBrace => 16, RegexEscape::Dot => 17,
        RegexEscape::Plus => 18, RegexEscape::Star => 19, RegexEscape::Question => 20,
        RegexEscape::Pipe => 21, RegexEscape::Caret => 22, RegexEscape::Dollar => 23,
    }
}

/// Whether `a` comes before `b`.
fn comes_before(a: RegexChar, b: RegexChar) -> (r: bool)
    ensures
        r == symbol_before(a, b),
{
    let ka: (u32, u32) = match a {
        RegexChar::Literal(x) => (0, x as u32),
        RegexChar::Escape(e) => (1, escape_rank_of(e)),
        RegexChar::Epsilon => (2, 0),
        RegexChar::Start => (3, 0),
        RegexChar::End => (4, 0),
        RegexChar::Any => (5, 0),
    };
    let kb: (u32, u32) = match b {
        RegexChar::Literal(x) => (0, x as u32),
        RegexChar::Escape(e) => (1, escape_rank_of(e)),
        RegexChar::Epsilon => (2, 0),
        RegexChar::Start => (3, 0),
        RegexChar::End => (4, 0),
        RegexChar::Any => (5, 0),
    };
    ka.0 < kb.0 || (ka.0 == kb.0 && ka.1 < kb.1)
}

/// Two labels are the same.
fn same_label(a: Option<RegexChar>, b: Option<RegexChar>) -> (r: bool)
    ensures
        r == (a == b),
{
    match (a, b) {
        (Some(x), Some(y)) => x == y,
        (None, None) => true,
        _ => false,
    }
}

/// The labels of the transitions, each once, in order of first appearance.
pub(crate) fn labels_in(es: &Vec<Edge>) -> (r: Vec<Option<RegexChar>>)
    ensures
        r@ == labels_of(es@),
{
    let mut r: Vec<Option<RegexChar>> = Vec::new();
    let mut e: usize = 0;
    assert(es@.take(0) =~= Seq::<Edge>::empty());
    while e < es.len()
        invariant
            e <= es@.len(),
            r@ == labels_of(es@.take(e as int)),
        decreases es@.len() - e,
    {
        let l = es[e].0;
        let mut found = false;
        let mut j: usize = 0;
        while j < r.len()
            invariant
                j <= r@.len(),
                found == exists|q: int| 0 <= q < j && r@[q] == l,
            decreases r@.len() - j,
        {
            if same_label(r[j], l) {
                found = true;
            }
            j += 1;
        }
        let ghost before = r@;
        if !found {
            r.push(l);
        }
        proof {
            let t = es@.take(e + 1);
            assert(t.drop_last() =~= es@.take(e as int));
            assert(t.last() == es@[e as int]);
            if found {
                let q = choose|q: int| 0 <= q < j && before[q] == l;
                assert(before.contains(l));
            } else {
                assert(!before.contains(l));
            }
        }
        e += 1;
    }
    assert(es@.take(es@.len() as int) =~= es@);
    r
}

/// The targets of the transitions labelled `l`, in order.
pub(crate) fn targets_in(es: &Vec<Edge>, l: Option<RegexChar>) -> (r: Vec<StateId>)
    ensures
        r@ == targets_of(es@, l),
{
    let mut r: Vec<StateId> = Vec::new();
    let mut e: usize = 0;
    assert(es@.take(0) =~= Seq::<Edge>::empty());
    while e < es.len()
        invariant
            e <= es@.len(),
            r@ == targets_of(es@.take(e as int), l),
        decreases es@.len() - e,
    {
        if same_label(es[e].0, l) {
            r.push(es[e].1);
        }
        proof {
            let t = es@.take(e + 1);
            assert(t.drop_last() =~= es@.take(e as int));
            assert(t.last() == es@[e as int]);
        }
        e += 1;
    }
    assert(es@.take(es@.len() as int) =~= es@);
    r
}

/// Appends the lines of state `id` for the labels of its transitions.
fn append_label_lines(s: &mut String, id: StateId, es: &Vec<Edge>)
    ensures
        final(s)@ == old(s)@ + label_lines(id, es@, labels_of(es@)),
{
    let ls = labels_in(es);
    let ghost s0 = s@;
    let mut k: usize = 0;
    assert(ls@.take(0) =~= Seq::<Option<RegexChar>>::empty());
    while k < ls.len()
        invariant
            k <= ls@.len(),
            s@ == s0 + label_lines(id, es@, ls@.take(k as int)),
        decreases ls@.len() - k,
    {
        let ghost s1 = s@;
        let targets = targets_in(es, ls[k]);
        append_str(s, "    ");
        append_state_id(s, id);
        append_str(s, " --");
        match ls[k] {
            Some(c) => append_char_repr(s, c),
            None => append_str(s, "ε"),
        }
        append_str(s, "--> ");
        append_ids_repr(s, &targets);
        append_str(s, "\n");
        proof {
            let t = ls@.take(k + 1);
            assert(t.drop_last() =~= ls@.take(k as int));
            assert(t.last() == ls@[k as int]);
        }
        assert(s@ =~= s0 + label_lines(id, es@, ls@.take(k + 1)));
        k += 1;
    }
    assert(ls@.take(ls@.len() as int) =~= ls@);
}

/// Appends `t` right-aligned in `w` columns.
fn append_padded(s: &mut String, t: &str, w: usize)
    ensures
        final(s)@ == old(s)@ + pad_left(t@, w as nat),
{
    let n = t.unicode_len();
    let ghost s0 = s@;
    if n < w {
        let mut i: usize = 0;
        while i < w - n
            invariant
                i <= w - n,
                s@ == s0 + Seq::new(i as nat, |x: int| ' '),
            decreases w - n - i,
        {
            append_str(s, " ");
            proof {
                reveal_strlit(" ");
            }
            assert(s@ =~= s0 + Seq::new((i + 1) as nat, |x: int| ' '));
            i += 1;
        }
    }
    append_str(s, t);
    assert(s@ =~= s0 + pad_left(t@, w as nat));
}

/// The symbols of the transitions, each once, in order.
fn sorted_symbols(states: &Vec<State>) -> (r: Vec<RegexChar>)
    ensures
        r@ == table_symbols(states@),
{
    let mut r: Vec<RegexChar> = Vec::new();
    let mut i: usize = 0;
    while i < states.len()
        invariant
            i <= states@.len(),
            strictly_sorted(r@),
            forall|c: RegexChar| #[trigger] r@.contains(c) <==> (exists|a: int, k: int| 0 <= a < i
                && 0 <= k < states@[a].transitions@.len() && #[trigger] states@[a].transitions@[k].0 == Some(c)),
        decreases states@.len() - i,
    {
        let st = &states[i];
        let mut e: usize = 0;
        while e < st.transitions.len()
            invariant
                i < states@.len(),
                *st == states@[i as int],
                e <= st.transitions@.len(),
                strictly_sorted(r@),
                forall|c: RegexChar| #[trigger] r@.contains(c) <==> (exists|a: int, k: int| 0 <= a <= i
                    && 0 <= k < states@[a].transitions@.len() && (a < i || k < e)
                    && #[trigger] states@[a].transitions@[k].0 == Some(c)),
            decreases st.transitions@.len() - e,
        {
            let ghost before = r@;
            assert(states@[i as int].transitions@[e as int] == st.transitions@[e as int]);
            match st.transitions[e].0 {
                Some(c) => {
                    insert_symbol(&mut r, c);
                },
                None => {},
            }
            assert forall|c: RegexChar| #[trigger] r@.contains(c) <==> (exists|a: int, k: int| 0 <= a <= i
                && 0 <= k < states@[a].transitions@.len() && (a < i || k < e + 1)
                && #[trigger] states@[a].transitions@[k].0 == Some(c)) by {
                if r@.contains(c) && !before.contains(c) {
                    assert(states@[i as int].transitions@[e as int].0 == Some(c));
                }
                if exists|a: int, k: int| 0 <= a <= i && 0 <= k < states@[a].transitions@.len() && (a < i || k < e + 1)
                    && #[trigger] states@[a].transitions@[k].0 == Some(c) {
                    let (a, k) = choose|a: int, k: int| 0 <= a <= i && 0 <= k < states@[a].transitions@.len()
                        && (a < i || k < e + 1) && #[trigger] states@[a].transitions@[k].0 == Some(c);
                    if a < i || k < e {
                        assert(before.contains(c));
                    }
                }
            }
            e += 1;
        }
        i += 1;
    }
    proof {
        let t = table_symbols(states@);
        assert(strictly_sorted(r@) && forall|c: RegexChar| #[trigger] r@.contains(c) <==> symbol_on_edge(states@, c));
        lemma_sorted_unique(t, r@);
    }
    r
}

/// Puts `c` in its place in a sorted list, unless it is there.
fn insert_symbol(r: &mut Vec<RegexChar>, c: RegexChar)
    requires
        strictly_sorted(old(r)@),
    ensures
        strictly_sorted(final(r)@),
        forall|x: RegexChar| #[trigger] final(r)@.contains(x) <==> (old(r)@.contains(x) || x == c),
{
    let mut p: usize = 0;
    while p < r.len() && comes_before(r[p], c)
        invariant
            p <= r@.len(),
            forall|q: int| 0 <= q < p ==> symbol_before(#[trigger] r@[q], c),
        decreases r@.len() - p,
    {
        p += 1;
    }
    if p < r.len() && r[p] == c {
        return;
    }
    let ghost before = r@;
    proof {
        if p < before.len() {
            lemma_symbol_order(before[p as int], c, c);
        }
    }
    r.insert(p, c);
    assert(r@ =~= before.subrange(0, p as int).push(c) + before.subrange(p as int, before.len() as int));
    assert forall|a: int, b: int| 0 <= a < b < r@.len() implies symbol_before(#[trigger] r@[a], #[trigger] r@[b]) by {
        if b < p {
            assert(r@[a] == before[a] && r@[b] == before[b]);
        } else if b == p {
            assert(r@[a] == before[a]);
        } else if a == p {
            assert(r@[b] == before[b - 1]);
            if b - 1 > p {
                assert(symbol_before(before[p as int], before[b - 1]));
                lemma_symbol_order(c, before[p as int], before[b - 1]);
            }
        } else if a < p {
            assert(r@[a] == before[a] && r@[b] == before[b - 1]);
            assert(symbol_before(before[a], c));
            if b - 1 >= p {
                lemma_symbol_order(before[a], c, before[b - 1]);
                if b - 1 > p {
                    lemma_symbol_order(c, before[p as int], before[b - 1]);
                }
            }
        } else {
            assert(r@[a] == before[a - 1] && r@[b] == before[b - 1]);
        }
    }
    assert forall|x: RegexChar| #[trigger] r@.contains(x) <==> (before.contains(x) || x == c) by {
        if r@.contains(x) {
            let q = choose|q: int| 0 <= q < r@.len() && r@[q] == x;
            if q < p {
                assert(before[q] == x);
            } else if q > p {
                assert(before[q - 1] == x);
            }
        }
        if before.contains(x) {
            let q = choose|q: int| 0 <= q < before.len() && before[q] == x;
            if q < p {
                assert(r@[q] == x);
            } else {
                assert(r@[q + 1] == x);
            }
        }
        if x == c {
            assert(r@[p as int] == c);
        }
    }
}

/// Appends state identifiers separated by commas.
fn append_ids_comma(s: &mut String, v: &Vec<StateId>)
    ensures
        final(s)@ == old(s)@ + ids_comma(v@),
{
    let ghost s0 = s@;
    let mut i: usize = 0;
    assert(v@.take(0) =~= Seq::<StateId>::empty());
    while i < v.len()
        invariant
            i <= v@.len(),
            s@ == s0 + ids_comma(v@.take(i as int)),
        decreases v@.len() - i,
    {
        if i > 0 {
            append_str(s, ",");
        }
        append_state_id(s, v[i]);
        proof {
            let t = v@.take(i + 1);
            assert(t.drop_last() =~= v@.take(i as int));
        }
        assert(s@ =~= s0 + ids_comma(v@.take(i + 1)));
        i += 1;
    }
    assert(v@.take(v@.len() as int) =~= v@);
}

/// The cell of label `l` (see `cell_text`).
fn cell_string(es: &Vec<Edge>, l: Option<RegexChar>) -> (c: String)
    ensures
        c@ == cell_text(es@, l),
{
    let targets = targets_in(es, l);
    let mut c = String::new();
    if targets.len() == 0 {
        append_str(&mut c, "-");
    } else {
        append_ids_comma(&mut c, &targets);
    }
    c
}

impl NFA {
    /// The view of the automaton (see `visual_text`), states in the order they are held.
    pub fn visualize_text(&self) -> (s: String)
        ensures
            s@ == visual_text(*self),
    {
        let mut s = String::new();
        append_str(&mut s, "NFA Visualization:\n");
        append_str(&mut s, "  Estado inicial: ");
        append_state_id(&mut s, self.start);
        append_str(&mut s, "\n");
        append_str(&mut s, "  Estados de aceptación: ");
        append_ids_repr(&mut s, &self.accepts);
        append_str(&mut s, "\n");
        append_str(&mut s, "  Transiciones:\n");
        let ghost s0 = s@;
        let mut i: usize = 0;
        assert(self.states@.take(0) =~= Seq::<State>::empty());
        while i < self.states.len()
            invariant
                i <= self.states@.len(),
                s@ == s0 + grouped_lines(self.states@.take(i as int)),
            decreases self.states@.len() - i,
        {
            append_label_lines(&mut s, self.states[i].id, &self.states[i].transitions);
            proof {
                let t = self.states@.take(i + 1);
                assert(t.drop_last() =~= self.states@.take(i as int));
                assert(t.last() == self.states@[i as int]);
            }
            i += 1;
        }
        assert(self.states@.take(self.states@.len() as int) =~= self.states@);
        assert(s@ =~= visual_text(*self));
        s
    }

    /// The transition table of the automaton (see `table_text`): symbols in order, states in
    /// the order they are held.
    pub fn transition_table_text(&self) -> (s: String)
        ensures
            s@ == table_text(*self),
    {
        let syms = sorted_symbols(&self.states);
        let mut s = String::new();
        append_str(&mut s, "  Estado inicial: ");
        append_state_id(&mut s, self.start);
        append_str(&mut s, "\n");
        append_str(&mut s, "  Estados de aceptación: ");
        append_ids_repr(&mut s, &self.accepts);
        append_str(&mut s, "\n");
        append_str(&mut s, "  Estado  ");
        let ghost s0 = s@;
        let mut k: usize = 0;
        assert(syms@.take(0) =~= Seq::<RegexChar>::empty());
        while k < syms.len()
            invariant
                k <= syms@.len(),
                s@ == s0 + header_cells(syms@.take(k as int)),
            decreases syms@.len() - k,
        {
            let mut name = String::new();
            append_char_repr(&mut name, syms[k]);
            append_str(&mut s, " | ");
            append_padded(&mut s, name.as_str(), 12);
            proof {
                let t = syms@.take(k + 1);
                assert(t.drop_last() =~= syms@.take(k as int));
                assert(t.last() == syms@[k as int]);
            }
            assert(s@ =~= s0 + header_cells(syms@.take(k + 1)));
            k += 1;
        }
        assert(syms@.take(syms@.len() as int) =~= syms@);
        append_str(&mut s, " | ");
        append_padded(&mut s, "ε", 12);
        append_str(&mut s, "\n");
        let ghost s1 = s@;
        let mut i: usize = 0;
        assert(self.states@.take(0) =~= Seq::<State>::empty());
        while i < self.states.len()
            invariant
                i <= self.states@.len(),
                syms@ == table_symbols(self.states@),
                s@ == s1 + table_rows(self.states@.take(i as int), syms@),
            decreases self.states@.len() - i,
        {
            let st = &self.states[i];
            let ghost s2 = s@;
            let mut id = String::new();
            append_state_id(&mut id, st.id);
            append_padded(&mut s, id.as_str(), 8);
            let ghost s3 = s@;
            let mut k: usize = 0;
            while k < syms.len()
                invariant
                    k <= syms@.len(),
                    s@ == s3 + row_cells(st.transitions@, syms@.take(k as int)),
                decreases syms@.len() - k,
            {
                let cell = cell_string(&st.transitions, Some(syms[k]));
                append_str(&mut s, " | ");
                append_padded(&mut s, cell.as_str(), 12);
                proof {
                    let t = syms@.take(k + 1);
                    assert(t.drop_last() =~= syms@.take(k as int));
                    assert(t.last() == syms@[k as int]);
                }
                assert(s@ =~= s3 + row_cells(st.transitions@, syms@.take(k + 1)));
                k += 1;
            }
            assert(syms@.take(syms@.len() as int) =~= syms@);
            let eps = cell_string(&st.transitions, None);
            append_str(&mut s, " | ");
            append_padded(&mut s, eps.as_str(), 12);
            append_str(&mut s, "\n");
            proof {
                let t = self.states@.take(i + 1);
                assert(t.drop_last() =~= self.states@.take(i as int));
                assert(t.last() == self.states@[i as int]);
            }
            assert(s@ =~= s1 + table_rows(self.states@.take(i + 1), syms@));
            i += 1;
        }
        assert(self.states@.take(self.states@.len() as int) =~= self.states@);
        assert(s@ =~= table_text(*self));
        s
    }
}

} // verus!
