//! An LL(1) table together with the FIRST and FOLLOW sets it was built from, looked up by
//! nonterminal and lookahead.

use vstd::prelude::*;
use crate::parser::grammar::Production;
use crate::parser::utils::is_lhs;
use crate::parser::ll1::{FirstSets, FollowSets, compute_first, compute_follow, build_ll1_table, views, sets_fn,
    set_at, first_closed, follow_closed, expected_cell, table_cell, has_row, table_wf, find_row,
    find_key, lemma_table_first, lemma_cell_at_first, lemma_cell_at_missing, copy_strings};

verus! {

/// A parse table (the right-hand side to expand for each nonterminal and lookahead) with the
/// FIRST and FOLLOW sets of its grammar.
pub struct LL1Table {
    pub table: crate::parser::ll1::LL1Table,
    pub first_sets: FirstSets,
    pub follow_sets: FollowSets,
}

/// Without a row for `a`, the table has nothing for `a`.
proof fn lemma_table_missing(table: Seq<(String, Vec<(String, Vec<String>)>)>, a: Seq<char>, t: Seq<char>)
    requires
        !has_row(table, a),
    ensures
        table_cell(table, a, t) is None,
    decreases table.len(),
{
    if table.len() > 0 {
        let rest = table.subrange(1, table.len() as int);
        assert(!has_row(rest, a)) by {
            if has_row(rest, a) {
                let r = choose|r: int| 0 <= r < rest.len() && (#[trigger] rest[r]).0@ == a;
                assert(table[r + 1] == rest[r]);
            }
        }
        assert(table[0].0@ != a) by {
            if table[0].0@ == a {
                assert(has_row(table, a));
            }
        }
        lemma_table_missing(rest, a, t);
    }
}

impl LL1Table {
    /// The FIRST sets, the FOLLOW sets (from `start_symbol`) and the parse table of a grammar
    /// (see `compute_first`, `compute_follow` and `build_ll1_table`): the least sets closed
    /// under the FIRST and FOLLOW rules, and each cell as those sets give it.
    pub fn new(productions: &[Production], start_symbol: &str) -> (t: Self)
        requires
            is_lhs(productions@, start_symbol@),
        ensures
            first_closed(productions@, sets_fn(t.first_sets@)),
            forall|f: spec_fn(Seq<char>) -> Set<Seq<char>>| first_closed(productions@, f)
                ==> forall|k: Seq<char>| #[trigger] set_at(t.first_sets@, k).subset_of(f(k)),
            follow_closed(productions@, sets_fn(t.first_sets@), sets_fn(t.follow_sets@), start_symbol@),
            forall|g: spec_fn(Seq<char>) -> Set<Seq<char>>| follow_closed(productions@, sets_fn(t.first_sets@), g, start_symbol@)
                ==> forall|k: Seq<char>| #[trigger] set_at(t.follow_sets@, k).subset_of(g(k)),
            table_wf(t.table@),
            forall|a: Seq<char>, x: Seq<char>| #[trigger] table_cell(t.table@, a, x)
                == expected_cell(productions@, sets_fn(t.first_sets@), sets_fn(t.follow_sets@), a, x, productions@.len() as int),
    {
        let first_sets = compute_first(productions);
        let follow_sets = compute_follow(productions, &first_sets, start_symbol);
        let table = build_ll1_table(productions, &first_sets, &follow_sets);
        LL1Table { table, first_sets, follow_sets }
    }

    /// The right-hand side the table holds for `non_terminal` and the lookahead terminal
    /// named `token`, copied, if any.
    pub fn get_production(&self, non_terminal: &str, token: &str) -> (r: Option<Vec<String>>)
        ensures
            match r {
                Some(v) => table_cell(self.table@, non_terminal@, token@) == Some(views(v@)),
                None => table_cell(self.table@, non_terminal@, token@) is None,
            },
    {
        let a = String::from_str(non_terminal);
        let t = String::from_str(token);
        match find_row(&self.table, &a) {
            None => {
                proof {
                    lemma_table_missing(self.table@, a@, t@);
                }
                None
            },
            Some(i) => {
                proof {
                    lemma_table_first(self.table@, i as int, a@, t@);
                }
                match find_key(&self.table[i].1, &t) {
                    None => {
                        proof {
                            lemma_cell_at_missing(self.table@[i as int].1@, t@);
                        }
                        None
                    },
                    Some(c) => {
                        proof {
                            lemma_cell_at_first(self.table@[i as int].1@, c as int, t@);
                        }
                        Some(copy_strings(&self.table[i].1[c].1))
                    },
                }
            },
        }
    }
}

} // verus!
