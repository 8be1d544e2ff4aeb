//! Splitting a text into lexemes with a deterministic automaton.

pub mod lexeme;
pub mod error;
pub mod extractor;
pub mod cover;
pub mod longest;
