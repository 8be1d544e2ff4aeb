//! A lexer generator (regular expressions, NFAs, DFAs and lexeme extraction), an LL(1)
//! parser toolkit and the type hierarchy of the HULK compiler, with verified contracts.

pub mod text;
pub mod regex;
pub mod nfa;
pub mod dfa;
pub mod lexemes;
pub mod generator;
pub mod token_spec;
pub mod lexer;
pub mod parser;
pub mod typings;
pub mod semantic;
