//! An LL(1) parser toolkit: tokens, grammars, FIRST and FOLLOW sets, parse tables, a
//! table-driven parser and the trees it builds.

pub mod token;
pub mod grammar;
pub mod utils;
pub mod ll1;
pub mod cst;
pub mod parser;
pub mod cst_node;
pub mod ast;
pub mod syntax;
pub mod cst_to_ast;
pub mod ast_print;
pub mod test_cases;
pub mod csv;
pub mod ll1_table;
