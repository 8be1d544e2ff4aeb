//! Parts of declarations: parameters, attributes and method signatures.

use vstd::prelude::*;
use crate::parser::ast::Position;

verus! {

/// A parameter: its name and optional type annotation.
#[derive(Debug, Clone)]
pub struct Parameter {
    pub name: String,
    pub type_annotation: Option<String>,
    pub pos: Position,
}

/// An attribute of a type: its name and optional type annotation.
#[derive(Debug, Clone)]
pub struct Attribute {
    pub name: String,
    pub type_annotation: Option<String>,
    pub pos: Position,
}

/// A method signature of a protocol: name, parameters and optional return type.
#[derive(Debug, Clone)]
pub struct MethodSignature {
    pub name: String,
    pub params: Vec<Parameter>,
    pub return_type: Option<String>,
    pub pos: Position,
}

} // verus!
