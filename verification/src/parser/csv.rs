//! The LL(1) table as comma-separated values: one column per lookahead and one row per
//! nonterminal, both in string order.

use vstd::prelude::*;
use crate::text::{append_str, chars_of};
use crate::parser::ll1::{views, has_key, has_row, cell_at, table_cell, find_key, find_row,
    lemma_cell_at_first, lemma_cell_at_missing, lemma_table_first, lemma_table_missing, LL1Table};

verus! {

/// `a` comes before `b` in the order of strings: character by character, a prefix first.
pub open spec fn str_before(a: Seq<char>, b: Seq<char>) -> bool
    decreases a.len(),
{
    if a.len() == 0 {
        b.len() > 0
    } else if b.len() == 0 {
        false
    } else if a[0] != b[0] {
        (a[0] as int) < (b[0] as int)
    } else {
        str_before(a.subrange(1, a.len() as int), b.subrange(1, b.len() as int))
    }
}

/// Each string comes before those after it.
pub open spec fn strs_sorted(s: Seq<Seq<char>>) -> bool {
    forall|i: int, j: int| 0 <= i < j < s.len() ==> str_before(#[trigger] s[i], #[trigger] s[j])
}

/// Some row of the table has a cell for lookahead `t`.
pub open spec fn is_lookahead(table: Seq<(String, Vec<(String, Vec<String>)>)>, t: Seq<char>) -> bool {
    exists|r: int, c: int| 0 <= r < table.len() && 0 <= c < table[r].1@.len() && #[trigger] table[r].1@[c].0@ == t
}

/// The lookaheads of the table, each once, in string order.
pub open spec fn csv_terminals(table: Seq<(String, Vec<(String, Vec<String>)>)>) -> Seq<Seq<char>> {
    choose|s: Seq<Seq<char>>| strs_sorted(s) && forall|t: Seq<char>| #[trigger] s.contains(t) <==> is_lookahead(table, t)
}

/// The nonterminals of the table, each once, in string order.
pub open spec fn csv_nonterminals(table: Seq<(String, Vec<(String, Vec<String>)>)>) -> Seq<Seq<char>> {
    choose|s: Seq<Seq<char>>| strs_sorted(s) && forall|a: Seq<char>| #[trigger] s.contains(a) <==> has_row(table, a)
}

/// Words separated by single spaces.
pub open spec fn join_space(p: Seq<Seq<char>>) -> Seq<char>
    decreases p.len(),
{
    if p.len() == 0 {
        seq![]
    } else if p.len() == 1 {
        p[0]
    } else {
        join_space(p.drop_last()) + " "@ + p.last()
    }
}

/// The cell of nonterminal `a` and lookahead `t`: nothing without an entry, `ε` for an empty
/// right-hand side, else the right-hand side's symbols between double quotes.
pub open spec fn csv_cell(table: Seq<(String, Vec<(String, Vec<String>)>)>, a: Seq<char>, t: Seq<char>) -> Seq<char> {
    match table_cell(table, a, t) {
        None => seq![],
        Some(p) => if p.len() == 0 { "ε"@ } else { "\""@ + join_space(p) + "\""@ },
    }
}

/// The header's lookaheads, each after a comma.
pub open spec fn csv_header(ts: Seq<Seq<char>>) -> Seq<char>
    decreases ts.len(),
{
    if ts.len() == 0 { seq![] } else { csv_header(ts.drop_last()) + ","@ + ts.last() }
}

/// The cells of the row of `a`, each after a comma.
pub open spec fn csv_cells(table: Seq<(String, Vec<(String, Vec<String>)>)>, a: Seq<char>, ts: Seq<Seq<char>>) -> Seq<char>
    decreases ts.len(),
{
    if ts.len() == 0 { seq![] } else { csv_cells(table, a, ts.drop_last()) + ","@ + csv_cell(table, a, ts.last()) }
}

/// The rows of the nonterminals `ns`.
pub open spec fn csv_rows(table: Seq<(String, Vec<(String, Vec<String>)>)>, ns: Seq<Seq<char>>, ts: Seq<Seq<char>>) -> Seq<char>
    decreases ns.len(),
{
    if ns.len() == 0 {
        seq![]
    } else {
        csv_rows(table, ns.drop_last(), ts) + ns.last() + csv_cells(table, ns.last(), ts) + "\n"@
    }
}

/// The table as comma-separated values: a header row `Non-Terminal` and the lookaheads, then
/// one row per nonterminal.
pub open spec fn csv_text(table: Seq<(String, Vec<(String, Vec<String>)>)>) -> Seq<char> {
    let ts = csv_terminals(table);
    "Non-Terminal"@ + csv_header(ts) + "\n"@ + csv_rows(table, csv_nonterminals(table), ts)
}

/// `str_before` is a strict total order.
proof fn lemma_str_order(a: Seq<char>, b: Seq<char>, c: Seq<char>)
    ensures
        !str_before(a, a),
        str_before(a, b) && str_before(b, c) ==> str_before(a, c),
        a != b ==> str_before(a, b) || str_before(b, a),
    decreases a.len(),
{
    if a.len() > 0 {
        let a1 = a.subrange(1, a.len() as int);
        if b.len() > 0 && c.len() > 0 {
            lemma_str_order(a1, b.subrange(1, b.len() as int), c.subrange(1, c.len() as int));
        } else if b.len() > 0 {
            lemma_str_order(a1, b.subrange(1, b.len() as int), c);
        } else {
            lemma_str_order(a1, a1, a1);
        }
        if a != b && b.len() > 0 && a[0] == b[0] {
            assert(a1 != b.subrange(1, b.len() as int)) by {
                if a1 == b.subrange(1, b.len() as int) {
                    assert(a =~= seq![a[0]] + a1);
                    assert(b =~= seq![b[0]] + b.subrange(1, b.len() as int));
                }
            }
        }
        if a[0] != b.first() && b.len() > 0 {
            assert((a[0] as int) != (b[0] as int));
        }
    } else {
        if b.len() == 0 {
            assert(a =~= b);
        }
    }
}

/// Two sorted lists that hold the same strings are equal.
proof fn lemma_strs_unique(s: Seq<Seq<char>>, t: Seq<Seq<char>>)
    requires
        strs_sorted(s),
        strs_sorted(t),
        forall|x: Seq<char>| #[trigger] s.contains(x) <==> t.contains(x),
    ensures
        s == t,
    decreases s.len(),
{
    if s.len() == 0 {
        if t.len() > 0 {
            assert(t.contains(t[0]));
            assert(s.contains(t[0]));
            assert(false);
        }
        assert(s =~= t);
    } else {
        assert(s.contains(s[0]));
        assert(t.contains(s[0]));
        assert(t.contains(t[0]));
        assert(s.contains(t[0]));
        let i = choose|i: int| 0 <= i < t.len() && t[i] == s[0];
        let j = choose|j: int| 0 <= j < s.len() && s[j] == t[0];
        lemma_str_order(s[0], t[0], s[0]);
        if s[0] != t[0] {
            assert(i > 0 && j > 0);
            assert(str_before(t[0], t[i]));
            assert(str_before(s[0], s[j]));
            assert(false);
        }
        let s1 = s.subrange(1, s.len() as int);
        let t1 = t.subrange(1, t.len() as int);
        assert forall|x: Seq<char>| #[trigger] s1.contains(x) <==> t1.contains(x) by {
            if s1.contains(x) {
                let p = choose|p: int| 0 <= p < s1.len() && s1[p] == x;
                assert(s[p + 1] == x);
                assert(str_before(s[0], x));
                lemma_str_order(x, x, x);
                assert(s.contains(x));
                assert(t.contains(x));
                let q = choose|q: int| 0 <= q < t.len() && t[q] == x;
                if q == 0 {
                    assert(x == s[0]);
                }
                assert(t1[q - 1] == x);
            }
            if t1.contains(x) {
                let p = choose|p: int| 0 <= p < t1.len() && t1[p] == x;
                assert(t[p + 1] == x);
                assert(str_before(t[0], x));
                lemma_str_order(x, x, x);
                assert(t.contains(x));
                assert(s.contains(x));
                let q = choose|q: int| 0 <= q < s.len() && s[q] == x;
                if q == 0 {
                    assert(x == t[0]);
                }
                assert(s1[q - 1] == x);
            }
        }
        assert forall|a: int, b: int| 0 <= a < b < s1.len() implies str_before(#[trigger] s1[a], #[trigger] s1[b]) by {
            assert(s1[a] == s[a + 1] && s1[b] == s[b + 1]);
        }
        assert forall|a: int, b: int| 0 <= a < b < t1.len() implies str_before(#[trigger] t1[a], #[trigger] t1[b]) by {
            assert(t1[a] == t[a + 1] && t1[b] == t[b + 1]);
        }
        lemma_strs_unique(s1, t1);
        assert(s =~= seq![s[0]] + s1);
        assert(t =~= seq![t[0]] + t1);
    }
}

/// Whether `a` comes before `b` (see `str_before`).
fn str_less(a: &String, b: &String) -> (r: bool)
    ensures
        r == str_before(a@, b@),
{
    let x = chars_of(a.as_str());
    let y = chars_of(b.as_str());
    let mut i: usize = 0;
    assert(x@.subrange(0, x@.len() as int) =~= x@);
    assert(y@.subrange(0, y@.len() as int) =~= y@);
    while i < x.len() && i < y.len() && x[i] == y[i]
        invariant
            x@ == a@,
            y@ == b@,
            i <= x@.len(),
            i <= y@.len(),
            str_before(x@, y@) == str_before(x@.subrange(i as int, x@.len() as int), y@.subrange(i as int, y@.len() as int)),
        decreases x@.len() - i,
    {
        proof {
            let xs = x@.subrange(i as int, x@.len() as int);
            let ys = y@.subrange(i as int, y@.len() as int);
            assert(xs.subrange(1, xs.len() as int) =~= x@.subrange(i + 1, x@.len() as int));
            assert(ys.subrange(1, ys.len() as int) =~= y@.subrange(i + 1, y@.len() as int));
        }
        i += 1;
    }
    let ghost xs = x@.subrange(i as int, x@.len() as int);
    let ghost ys = y@.subrange(i as int, y@.len() as int);
    if i == x.len() {
        i < y.len()
    } else if i == y.len() {
        false
    } else {
        assert(xs[0] == x@[i as int] && ys[0] == y@[i as int]);
        x[i] < y[i]
    }
}

/// Puts a copy of `x` in its place in a sorted list, unless it is there.
fn insert_str(r: &mut Vec<String>, x: &String)
    requires
        strs_sorted(views(old(r)@)),
    ensures
        strs_sorted(views(final(r)@)),
        forall|y: Seq<char>| #[trigger] views(final(r)@).contains(y) <==> (views(old(r)@).contains(y) || y == x@),
{
    let ghost before = views(r@);
    let mut p: usize = 0;
    while p < r.len() && str_less(&r[p], x)
        invariant
            p <= r@.len(),
            before == views(r@),
            forall|q: int| 0 <= q < p ==> str_before(#[trigger] before[q], x@),
        decreases r@.len() - p,
    {
        p += 1;
    }
    if p < r.len() && r[p] == *x {
        proof {
            assert(before[p as int] == x@);
            assert(before.contains(x@));
        }
        return;
    }
    proof {
        if p < before.len() {
            lemma_str_order(before[p as int], x@, x@);
        }
    }
    r.insert(p, x.clone());
    let ghost after = views(r@);
    assert(after =~= before.subrange(0, p as int).push(x@) + before.subrange(p as int, before.len() as int)) by {
        assert forall|k: int| 0 <= k < after.len() implies after[k] == (before.subrange(0, p as int).push(x@)
            + before.subrange(p as int, before.len() as int))[k] by {
            if k < p {
                assert(r@[k] == old(r)@[k]);
            } else if k > p {
                assert(r@[k] == old(r)@[k - 1]);
            }
        }
    }
    assert forall|a: int, b: int| 0 <= a < b < after.len() implies str_before(#[trigger] after[a], #[trigger] after[b]) by {
        if b < p {
            assert(after[a] == before[a] && after[b] == before[b]);
        } else if b == p {
            assert(after[a] == before[a]);
        } else if a == p {
            assert(after[b] == before[b - 1]);
            if b - 1 > p {
                assert(str_before(before[p as int], before[b - 1]));
                lemma_str_order(x@, before[p as int], before[b - 1]);
            }
        } else if a < p {
            assert(after[a] == before[a] && after[b] == before[b - 1]);
            assert(str_before(before[a], x@));
            lemma_str_order(before[a], x@, before[b - 1]);
            if b - 1 > p {
                lemma_str_order(x@, before[p as int], before[b - 1]);
            }
        } else {
            assert(after[a] == before[a - 1] && after[b] == before[b - 1]);
        }
    }
    assert forall|y: Seq<char>| #[trigger] after.contains(y) <==> (before.contains(y) || y == x@) by {
        if after.contains(y) {
            let q = choose|q: int| 0 <= q < after.len() && after[q] == y;
            if q < p {
                assert(before[q] == y);
            } else if q > p {
                assert(before[q - 1] == y);
            }
        }
        if before.contains(y) {
            let q = choose|q: int| 0 <= q < before.len() && before[q] == y;
            if q < p {
                assert(after[q] == y);
            } else {
                assert(after[q + 1] == y);
            }
        }
        if y == x@ {
            assert(after[p as int] == y);
        }
    }
}

/// Appends words separated by single spaces.
fn append_join_space(s: &mut String, p: &Vec<String>)
    ensures
        final(s)@ == old(s)@ + join_space(views(p@)),
{
    let ghost s0 = s@;
    let mut i: usize = 0;
    assert(views(p@.take(0)) =~= Seq::<Seq<char>>::empty());
    while i < p.len()
        invariant
            i <= p@.len(),
            s@ == s0 + join_space(views(p@.take(i as int))),
        decreases p@.len() - i,
    {
        if i > 0 {
            append_str(s, " ");
        }
        append_str(s, p[i].as_str());
        proof {
            let t = views(p@.take(i + 1));
            assert(t.drop_last() =~= views(p@.take(i as int)));
            assert(t.last() == p@[i as int]@);
            if i == 0 {
                assert(t =~= seq![p@[0]@]);
            }
        }
        assert(s@ =~= s0 + join_space(views(p@.take(i + 1))));
        i += 1;
    }
    assert(p@.take(p@.len() as int) =~= p@);
}

/// The cell of nonterminal `a` and lookahead `t` (see `csv_cell`).
fn csv_cell_string(table: &LL1Table, a: &String, t: &String) -> (c: String)
    ensures
        c@ == csv_cell(table@, a@, t@),
{
    let mut c = String::new();
    match find_row(table, a) {
        None => {
            proof {
                lemma_table_missing(table@, a@, t@);
            }
            assert(c@ =~= csv_cell(table@, a@, t@));
        },
        Some(r) => {
            proof {
                lemma_table_first(table@, r as int, a@, t@);
            }
            match find_key(&table[r].1, t) {
                None => {
                    proof {
                        lemma_cell_at_missing(table@[r as int].1@, t@);
                    }
                    assert(c@ =~= csv_cell(table@, a@, t@));
                },
                Some(k) => {
                    proof {
                        lemma_cell_at_first(table@[r as int].1@, k as int, t@);
                    }
                    let prod = &table[r].1[k].1;
                    if prod.len() == 0 {
                        append_str(&mut c, "ε");
                    } else {
                        append_str(&mut c, "\"");
                        append_join_space(&mut c, prod);
                        append_str(&mut c, "\"");
                    }
                    assert(c@ =~= csv_cell(table@, a@, t@));
                },
            }
        },
    }
    c
}

/// The lookaheads of the table, each once, in string order.
fn csv_terminal_list(table: &LL1Table) -> (r: Vec<String>)
    ensures
        views(r@) == csv_terminals(table@),
{
    let mut r: Vec<String> = Vec::new();
    let mut i: usize = 0;
    assert(views(r@) =~= Seq::<Seq<char>>::empty());
    while i < table.len()
        invariant
            i <= table@.len(),
            strs_sorted(views(r@)),
            forall|t: Seq<char>| #[trigger] views(r@).contains(t) <==> (exists|a: int, k: int| 0 <= a < i
                && 0 <= k < table@[a].1@.len() && #[trigger] table@[a].1@[k].0@ == t),
        decreases table@.len() - i,
    {
        let row = &table[i].1;
        let mut e: usize = 0;
        while e < row.len()
            invariant
                i < table@.len(),
                *row == table@[i as int].1,
                e <= row@.len(),
                strs_sorted(views(r@)),
                forall|t: Seq<char>| #[trigger] views(r@).contains(t) <==> (exists|a: int, k: int| 0 <= a <= i
                    && 0 <= k < table@[a].1@.len() && (a < i || k < e) && #[trigger] table@[a].1@[k].0@ == t),
            decreases row@.len() - e,
        {
            let ghost before = views(r@);
            insert_str(&mut r, &row[e].0);
            assert(table@[i as int].1@[e as int] == row@[e as int]);
            assert forall|t: Seq<char>| #[trigger] views(r@).contains(t) <==> (exists|a: int, k: int| 0 <= a <= i
                && 0 <= k < table@[a].1@.len() && (a < i || k < e + 1) && #[trigger] table@[a].1@[k].0@ == t) by {
                if views(r@).contains(t) && !before.contains(t) {
                    assert(table@[i as int].1@[e as int].0@ == t);
                }
                if exists|a: int, k: int| 0 <= a <= i && 0 <= k < table@[a].1@.len() && (a < i || k < e + 1)
                    && #[trigger] table@[a].1@[k].0@ == t {
                    let (a, k) = choose|a: int, k: int| 0 <= a <= i && 0 <= k < table@[a].1@.len()
                        && (a < i || k < e + 1) && #[trigger] table@[a].1@[k].0@ == t;
                    if a < i || k < e {
                        assert(before.contains(t));
                    }
                }
            }
            e += 1;
        }
        i += 1;
    }
    proof {
        let c = csv_terminals(table@);
        assert(strs_sorted(views(r@)) && forall|t: Seq<char>| #[trigger] views(r@).contains(t) <==> is_lookahead(table@, t));
        lemma_strs_unique(c, views(r@));
    }
    r
}

/// The nonterminals of the table, each once, in string order.
fn csv_nonterminal_list(table: &LL1Table) -> (r: Vec<String>)
    ensures
        views(r@) == csv_nonterminals(table@),
{
    let mut r: Vec<String> = Vec::new();
    let mut i: usize = 0;
    assert(views(r@) =~= Seq::<Seq<char>>::empty());
    while i < table.len()
        invariant
            i <= table@.len(),
            strs_sorted(views(r@)),
            forall|a: Seq<char>| #[trigger] views(r@).contains(a) <==> (exists|q: int| 0 <= q < i && #[trigger] table@[q].0@ == a),
        decreases table@.len() - i,
    {
        let ghost before = views(r@);
        insert_str(&mut r, &table[i].0);
        assert forall|a: Seq<char>| #[trigger] views(r@).contains(a) <==> (exists|q: int| 0 <= q < i + 1 && #[trigger] table@[q].0@ == a) by {
            if views(r@).contains(a) && !before.contains(a) {
                assert(table@[i as int].0@ == a);
            }
            if exists|q: int| 0 <= q < i + 1 && #[trigger] table@[q].0@ == a {
                let q = choose|q: int| 0 <= q < i + 1 && #[trigger] table@[q].0@ == a;
                if q < i {
                    assert(before.contains(a));
                }
            }
        }
        i += 1;
    }
    proof {
        let c = csv_nonterminals(table@);
        assert(strs_sorted(views(r@)) && forall|a: Seq<char>| #[trigger] views(r@).contains(a) <==> has_row(table@, a));
        lemma_strs_unique(c, views(r@));
    }
    r
}

/// The table as comma-separated values (see `csv_text`).
pub fn ll1_table_csv(table: &LL1Table) -> (s: String)
    ensures
        s@ == csv_text(table@),
{
    let terms = csv_terminal_list(table);
    let nts = csv_nonterminal_list(table);
    let ghost ts = views(terms@);
    let mut s = String::new();
    append_str(&mut s, "Non-Terminal");
    let ghost s0 = s@;
    let mut k: usize = 0;
    assert(ts.take(0) =~= Seq::<Seq<char>>::empty());
    while k < terms.len()
        invariant
            k <= terms@.len(),
            ts == views(terms@),
            s@ == s0 + csv_header(ts.take(k as int)),
        decreases terms@.len() - k,
    {
        append_str(&mut s, ",");
        append_str(&mut s, terms[k].as_str());
        proof {
            let t = ts.take(k + 1);
            assert(t.drop_last() =~= ts.take(k as int));
            assert(t.last() == terms@[k as int]@);
        }
        assert(s@ =~= s0 + csv_header(ts.take(k + 1)));
        k += 1;
    }
    assert(ts.take(ts.len() as int) =~= ts);
    append_str(&mut s, "\n");
    let ghost ns = views(nts@);
    let ghost s1 = s@;
    let mut i: usize = 0;
    assert(ns.take(0) =~= Seq::<Seq<char>>::empty());
    while i < nts.len()
        invariant
            i <= nts@.len(),
            ns == views(nts@),
            ts == views(terms@),
            s@ == s1 + csv_rows(table@, ns.take(i as int), ts),
        decreases nts@.len() - i,
    {
        let ghost s2 = s@;
        append_str(&mut s, nts[i].as_str());
        let ghost s3 = s@;
        let mut k: usize = 0;
        assert(ts.take(0) =~= Seq::<Seq<char>>::empty());
        while k < terms.len()
            invariant
                k <= terms@.len(),
                i < nts@.len(),
                ns == views(nts@),
                ts == views(terms@),
                s@ == s3 + csv_cells(table@, ns[i as int], ts.take(k as int)),
            decreases terms@.len() - k,
        {
            let cell = csv_cell_string(table, &nts[i], &terms[k]);
            append_str(&mut s, ",");
            append_str(&mut s, cell.as_str());
            proof {
                let t = ts.take(k + 1);
                assert(t.drop_last() =~= ts.take(k as int));
                assert(t.last() == terms@[k as int]@);
            }
            assert(s@ =~= s3 + csv_cells(table@, ns[i as int], ts.take(k + 1)));
            k += 1;
        }
        assert(ts.take(ts.len() as int) =~= ts);
        append_str(&mut s, "\n");
        proof {
            let t = ns.take(i + 1);
            assert(t.drop_last() =~= ns.take(i as int));
            assert(t.last() == nts@[i as int]@);
        }
        assert(s@ =~= s1 + csv_rows(table@, ns.take(i + 1), ts));
        i += 1;
    }
    assert(ns.take(ns.len() as int) =~= ns);
    assert(s@ =~= csv_text(table@));
    s
}

} // verus!
