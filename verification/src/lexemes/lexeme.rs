//! A lexeme recognised by the lexer.

use vstd::prelude::*;

verus! {

/// A recognised lexeme: its token type, its text, its line, and the columns the lexer
/// reports for its start and end.
#[derive(Debug, Clone, PartialEq)]
pub struct Lexeme {
    pub token_type: String,
    pub value: String,
    pub line: usize,
    pub column_start: usize,
    pub column_end: usize,
}

impl Lexeme {
    /// The lexeme as plain values: token type, text, line, start and end columns.
    pub open spec fn view_tuple(&self) -> (Seq<char>, Seq<char>, int, int, int) {
        (self.token_type@, self.value@, self.line as int, self.column_start as int, self.column_end as int)
    }
}

} // verus!
