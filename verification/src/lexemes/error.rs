//! A lexical error.

use vstd::prelude::*;

verus! {

/// A lexical error: its message and where it occurred.
#[derive(Debug, Clone, PartialEq)]
pub struct LexicalError {
    pub message: String,
    pub line: usize,
    pub column: usize,
}

impl LexicalError {
    /// The error as plain values: message, line and column.
    pub open spec fn view_tuple(&self) -> (Seq<char>, int, int) {
        (self.message@, self.line as int, self.column as int)
    }
}

} // verus!
