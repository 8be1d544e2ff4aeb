//! Mathematical views of character classes and regular-expression trees.

use vstd::prelude::*;
use crate::regex::node::{RegexChar, RegexBinOp, RegexUnOp, RegexClass, AstNodeKind, AstNodeImpl};

verus! {

/// A character class as plain values.
pub enum ClassModel {
    CharSet(Seq<RegexChar>),
    Ranges(Seq<(char, char)>),
    Mixed { ranges: Seq<(char, char)>, singles: Seq<RegexChar> },
    Negated(Box<ClassModel>),
    Dot,
}

/// A regular-expression tree as plain values.
pub enum RegexTree {
    Char(RegexChar),
    BinOp(RegexBinOp, Box<RegexTree>, Box<RegexTree>),
    UnOp(RegexUnOp, Box<RegexTree>),
    Group(Box<RegexTree>),
    Class(ClassModel),
}

impl RegexClass {
    /// The class as plain values.
    pub open spec fn model(&self) -> ClassModel
        decreases self,
    {
        match self {
            RegexClass::CharSet(v) => ClassModel::CharSet(v@),
            RegexClass::Ranges(v) => ClassModel::Ranges(v@),
            RegexClass::Mixed { ranges, singles } => ClassModel::Mixed {
                ranges: ranges@,
                singles: singles@,
            },
            RegexClass::Negated(inner) => ClassModel::Negated(Box::new((**inner).model())),
            RegexClass::Dot => ClassModel::Dot,
        }
    }
}

impl AstNodeImpl {
    /// The tree as plain values.
    pub open spec fn model(&self) -> RegexTree
        decreases self,
    {
        match &self.kind {
            AstNodeKind::RegexChar(c) => RegexTree::Char(*c),
            AstNodeKind::BinOp { op, left, right } => RegexTree::BinOp(
                *op,
                Box::new((**left).model()),
                Box::new((**right).model()),
            ),
            AstNodeKind::UnOp { op, expr } => RegexTree::UnOp(*op, Box::new((**expr).model())),
            AstNodeKind::Group(g) => RegexTree::Group(Box::new((*g.expr).model())),
            AstNodeKind::Class(c) => RegexTree::Class(c.model()),
        }
    }
}

/// The children of a tree: none for a character or a class, both sides of a binary node,
/// the operand of a unary node, and for a group the children of the expression inside it.
pub open spec fn tree_children(t: RegexTree) -> Seq<RegexTree>
    decreases t,
{
    match t {
        RegexTree::Char(_) => seq![],
        RegexTree::BinOp(_, l, r) => seq![*l, *r],
        RegexTree::UnOp(_, e) => seq![*e],
        RegexTree::Group(e) => tree_children(*e),
        RegexTree::Class(_) => seq![],
    }
}

impl AstNodeImpl {
    /// The children of this node (see `tree_children`).
    pub fn children(&self) -> (r: Vec<&AstNodeImpl>)
        ensures
            r@.map_values(|n: &AstNodeImpl| n.model()) == tree_children(self.model()),
        decreases self,
    {
        match &self.kind {
            AstNodeKind::RegexChar(_) => {
                let v: Vec<&AstNodeImpl> = Vec::new();
                assert(v@.map_values(|n: &AstNodeImpl| n.model()) =~= Seq::<RegexTree>::empty());
                v
            },
            AstNodeKind::BinOp { left, right, .. } => {
                let mut v: Vec<&AstNodeImpl> = Vec::new();
                v.push(&**left);
                v.push(&**right);
                assert(v@.map_values(|n: &AstNodeImpl| n.model()) =~= seq![(**left).model(), (**right).model()]);
                v
            },
            AstNodeKind::UnOp { expr, .. } => {
                let mut v: Vec<&AstNodeImpl> = Vec::new();
                v.push(&**expr);
                assert(v@.map_values(|n: &AstNodeImpl| n.model()) =~= seq![(**expr).model()]);
                v
            },
            AstNodeKind::Group(g) => g.expr.children(),
            AstNodeKind::Class(_) => {
                let v: Vec<&AstNodeImpl> = Vec::new();
                assert(v@.map_values(|n: &AstNodeImpl| n.model()) =~= Seq::<RegexTree>::empty());
                v
            },
        }
    }
}

} // verus!
