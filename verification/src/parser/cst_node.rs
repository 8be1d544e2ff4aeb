//! Concrete syntax trees and their conversion to abstract syntax.

use vstd::prelude::*;
use crate::parser::token::Token;

verus! {

/// A node of a concrete syntax tree: a token, or a rule with its children.
#[derive(Debug)]
pub enum CstNode {
    Terminal(Token),
    NonTerminal { rule: String, children: Vec<CstNode> },
}

impl CstNode {
    /// A leaf holding a token.
    pub fn new_terminal(token: Token) -> (n: Self)
        ensures
            n == CstNode::Terminal(token),
    {
        CstNode::Terminal(token)
    }

    /// An inner node for a rule with its children.
    pub fn new_non_terminal(rule: String, children: Vec<CstNode>) -> (n: Self)
        ensures
            n == (CstNode::NonTerminal { rule, children }),
    {
        CstNode::NonTerminal { rule, children }
    }

    /// Whether this node is a leaf.
    pub fn is_terminal(&self) -> (b: bool)
        ensures
            b == self is Terminal,
    {
        match self {
            CstNode::Terminal(_) => true,
            _ => false,
        }
    }

    /// The token of a leaf.
    pub fn get_token(&self) -> (r: Option<&Token>)
        ensures
            match self {
                CstNode::Terminal(t) => r == Some(t),
                _ => r is None,
            },
    {
        match self {
            CstNode::Terminal(token) => Some(token),
            _ => None,
        }
    }
}

/// Converts concrete syntax trees to abstract syntax.
pub struct CstToAstConverter;

impl CstToAstConverter {
    /// A converter.
    pub fn new() -> (c: Self) {
        CstToAstConverter
    }
}

/// Why a conversion failed.
#[derive(Debug)]
pub enum ConversionError {
    UnsupportedRule(String),
    ExpectedNonTerminal,
    ExpectedTerminal,
    NotImplemented,
}

} // verus!
