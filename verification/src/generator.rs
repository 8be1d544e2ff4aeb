//! The lexer generator's entry points and token specifications.

use vstd::prelude::*;

verus! {

/// A token specification: the token's name and its regular expression.
pub struct TokenSpec {
    pub name: String,
    pub regex: String,
}

/// Reads the token specifications of a specification file. Reading and parsing the file
/// is not done here yet: no specification is returned.
pub fn read_token_spec(path: &str) -> (specs: Vec<TokenSpec>)
    ensures
        specs@.len() == 0,
{
    Vec::new()
}

/// Generates the lexer of the given token specifications. Code generation is not done here
/// yet: nothing is produced.
pub fn generate_lexer(token_specs: &[TokenSpec]) {
}

} // verus!
