//! The type hierarchy of HULK programs: type nodes with their members, and the tree of types
//! with lookups along inheritance.

pub mod function_def;
pub mod types_node;
pub mod types_ast;
pub mod cycle;
