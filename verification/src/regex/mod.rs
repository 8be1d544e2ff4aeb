//! Regular expressions: their syntax tree, parser and printed forms.

pub mod alphabet;
pub mod node;
pub mod model;
pub mod scan;
pub mod parser;
pub mod repr;
