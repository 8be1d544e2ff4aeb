//! Telling terminals from nonterminals.

use vstd::prelude::*;
use crate::parser::grammar::Production;

verus! {

/// Some production has `symbol` on its left-hand side.
pub open spec fn is_lhs(productions: Seq<Production>, symbol: Seq<char>) -> bool {
    exists|i: int| 0 <= i < productions.len() && (#[trigger] productions[i]).lhs@ == symbol
}

/// A terminal: the empty-string marker `ε`, or a symbol that no production defines.
pub open spec fn is_terminal_spec(productions: Seq<Production>, symbol: Seq<char>) -> bool {
    symbol == "ε"@ || !is_lhs(productions, symbol)
}

/// Whether `symbol` is a terminal of the grammar (see `is_terminal_spec`).
pub fn is_terminal(symbol: &str, productions: &[Production]) -> (b: bool)
    ensures
        b == is_terminal_spec(productions@, symbol@),
{
    let sym = String::from_str(symbol);
    let eps = String::from_str("ε");
    if sym == eps {
        return true;
    }
    let mut i: usize = 0;
    while i < productions.len()
        invariant
            sym@ == symbol@,
            symbol@ != "ε"@,
            i <= productions@.len(),
            forall|j: int| 0 <= j < i ==> (#[trigger] productions@[j]).lhs@ != symbol@,
        decreases productions@.len() - i,
    {
        if productions[i].lhs == sym {
            assert(productions@[i as int].lhs@ == symbol@);
            return false;
        }
        i += 1;
    }
    true
}

} // verus!
