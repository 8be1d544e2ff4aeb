//! Printed forms of regular-expression trees, as their `{:?}`-based representations.

use vstd::prelude::*;
use crate::text::{char_debug_text, debug_char, push_char, append_str};
use crate::regex::node::{RegexEscape, RegexChar, RegexBinOp, RegexUnOp, RegexClass, AstNodeKind, AstNodeImpl};
use crate::regex::model::{ClassModel, RegexTree};

verus! {

/// The name of an escape, as `{:?}` writes it.
pub open spec fn escape_name(e: RegexEscape) -> Seq<char> {
    match e {
        RegexEscape::Newline => "Newline"@,
        RegexEscape::Tab => "Tab"@,
        RegexEscape::Backslash => "Backslash"@,
        RegexEscape::Return => "Return"@,
        RegexEscape::Null => "Null"@,
        RegexEscape::Digit => "Digit"@,
        RegexEscape::NotDigit => "NotDigit"@,
        RegexEscape::Word => "Word"@,
        RegexEscape::NotWord => "NotWord"@,
        RegexEscape::Space => "Space"@,
        RegexEscape::NotSpace => "NotSpace"@,
        RegexEscape::LBracket => "LBracket"@,
        RegexEscape::RBracket => "RBracket"@,
        RegexEscape::LParen => "LParen"@,
        RegexEscape::RParen => "RParen"@,
        RegexEscape::LBrace => "LBrace"@,
        RegexEscape::RBrace => "RBrace"@,
        RegexEscape::Dot => "Dot"@,
        RegexEscape::Plus => "Plus"@,
        RegexEscape::Star => "Star"@,
        RegexEscape::Question => "Question"@,
        RegexEscape::Pipe => "Pipe"@,
        RegexEscape::Caret => "Caret"@,
        RegexEscape::Dollar => "Dollar"@,
    }
}

/// A regex character as `{:?}` writes it, such as `Literal('a')` or `Escape(Digit)`.
pub open spec fn char_repr(c: RegexChar) -> Seq<char> {
    match c {
        RegexChar::Literal(x) => "Literal("@ + char_debug_text(x) + ")"@,
        RegexChar::Escape(e) => "Escape("@ + escape_name(e) + ")"@,
        RegexChar::Epsilon => "Epsilon"@,
        RegexChar::Start => "Start"@,
        RegexChar::End => "End"@,
        RegexChar::Any => "Any"@,
    }
}

/// Regex characters as `{:?}` writes them, separated by `, `.
pub open spec fn chars_repr(cs: Seq<RegexChar>) -> Seq<char>
    decreases cs.len(),
{
    if cs.len() == 0 {
        seq![]
    } else if cs.len() == 1 {
        char_repr(cs[0])
    } else {
        chars_repr(cs.drop_last()) + ", "@ + char_repr(cs.last())
    }
}

/// Ranges written `a-b`, separated by `, `.
pub open spec fn ranges_repr(rs: Seq<(char, char)>) -> Seq<char>
    decreases rs.len(),
{
    if rs.len() == 0 {
        seq![]
    } else if rs.len() == 1 {
        seq![rs[0].0, '-', rs[0].1]
    } else {
        ranges_repr(rs.drop_last()) + ", "@ + seq![rs.last().0, '-', rs.last().1]
    }
}

/// The printed form of a character class.
pub open spec fn class_repr(c: ClassModel) -> Seq<char>
    decreases c,
{
    match c {
        ClassModel::CharSet(cs) => "Set["@ + chars_repr(cs) + "]"@,
        ClassModel::Ranges(rs) => "Ranges["@ + ranges_repr(rs) + "]"@,
        ClassModel::Mixed { ranges, singles } => "Mixed[ranges: "@ + ranges_repr(ranges) + ", singles: "@
            + chars_repr(singles) + "]"@,
        ClassModel::Negated(inner) => "Negated["@ + class_repr(*inner) + "]"@,
        ClassModel::Dot => "Dot"@,
    }
}

/// A binary operator as `{:?}` writes it.
pub open spec fn bin_op_name(op: RegexBinOp) -> Seq<char> {
    match op {
        RegexBinOp::Concat => "Concat"@,
        RegexBinOp::Or => "Or"@,
    }
}

/// A unary operator as `{:?}` writes it.
pub open spec fn un_op_name(op: RegexUnOp) -> Seq<char> {
    match op {
        RegexUnOp::Star => "Star"@,
        RegexUnOp::Plus => "Plus"@,
        RegexUnOp::Optional => "Optional"@,
    }
}

/// The printed form of a regular-expression tree: leaves as `{:?}` writes their
/// character, inner nodes as `(BinOp op l r)`, `(UnOp op e)`, `(Group e)`, `(Class c)`.
pub open spec fn tree_repr(t: RegexTree) -> Seq<char>
    decreases t,
{
    match t {
        RegexTree::Char(c) => char_repr(c),
        RegexTree::BinOp(op, l, r) => "(BinOp "@ + bin_op_name(op) + " "@ + tree_repr(*l) + " "@ + tree_repr(*r) + ")"@,
        RegexTree::UnOp(op, e) => "(UnOp "@ + un_op_name(op) + " "@ + tree_repr(*e) + ")"@,
        RegexTree::Group(e) => "(Group "@ + tree_repr(*e) + ")"@,
        RegexTree::Class(c) => "(Class "@ + class_repr(c) + ")"@,
    }
}

/// The name of an escape (see `escape_name`).
pub fn escape_name_text(e: RegexEscape) -> (s: String)
    ensures
        s@ == escape_name(e),
{
    match e {
        RegexEscape::Newline => String::from_str("Newline"),
        RegexEscape::Tab => String::from_str("Tab"),
        RegexEscape::Backslash => String::from_str("Backslash"),
        RegexEscape::Return => String::from_str("Return"),
        RegexEscape::Null => String::from_str("Null"),
        RegexEscape::Digit => String::from_str("Digit"),
        RegexEscape::NotDigit => String::from_str("NotDigit"),
        RegexEscape::Word => String::from_str("Word"),
        RegexEscape::NotWord => String::from_str("NotWord"),
        RegexEscape::Space => String::from_str("Space"),
        RegexEscape::NotSpace => String::from_str("NotSpace"),
        RegexEscape::LBracket => String::from_str("LBracket"),
        RegexEscape::RBracket => String::from_str("RBracket"),
        RegexEscape::LParen => String::from_str("LParen"),
        RegexEscape::RParen => String::from_str("RParen"),
        RegexEscape::LBrace => String::from_str("LBrace"),
        RegexEscape::RBrace => String::from_str("RBrace"),
        RegexEscape::Dot => String::from_str("Dot"),
        RegexEscape::Plus => String::from_str("Plus"),
        RegexEscape::Star => String::from_str("Star"),
        RegexEscape::Question => String::from_str("Question"),
        RegexEscape::Pipe => String::from_str("Pipe"),
        RegexEscape::Caret => String::from_str("Caret"),
        RegexEscape::Dollar => String::from_str("Dollar"),
    }
}

/// Appends the `{:?}` form of a regex character.
pub fn append_char_repr(s: &mut String, c: RegexChar)
    ensures
        final(s)@ == old(s)@ + char_repr(c),
{
    let ghost s0 = s@;
    match c {
        RegexChar::Literal(x) => {
            append_str(s, "Literal(");
            let d = debug_char(x);
            append_str(s, d.as_str());
            append_str(s, ")");
        },
        RegexChar::Escape(e) => {
            append_str(s, "Escape(");
            let n = escape_name_text(e);
            append_str(s, n.as_str());
            append_str(s, ")");
        },
        RegexChar::Epsilon => append_str(s, "Epsilon"),
        RegexChar::Start => append_str(s, "Start"),
        RegexChar::End => append_str(s, "End"),
        RegexChar::Any => append_str(s, "Any"),
    }
    assert(s@ =~= s0 + char_repr(c));
}

/// Appends regex characters in their `{:?}` form, separated by `, `.
fn append_chars_repr(s: &mut String, cs: &Vec<RegexChar>)
    ensures
        final(s)@ == old(s)@ + chars_repr(cs@),
{
    let ghost s0 = s@;
    let mut i: usize = 0;
    while i < cs.len()
        invariant
            i <= cs@.len(),
            s@ == s0 + chars_repr(cs@.take(i as int)),
        decreases cs@.len() - i,
    {
        if i > 0 {
            append_str(s, ", ");
        }
        append_char_repr(s, cs[i]);
        proof {
            let t = cs@.take(i + 1);
            assert(t.drop_last() =~= cs@.take(i as int));
            if i == 0 {
                assert(cs@.take(0) =~= Seq::<RegexChar>::empty());
            }
        }
        assert(s@ =~= s0 + chars_repr(cs@.take(i + 1)));
        i += 1;
    }
    assert(cs@.take(cs@.len() as int) =~= cs@);
}

/// Appends ranges written `a-b`, separated by `, `.
fn append_ranges_repr(s: &mut String, rs: &Vec<(char, char)>)
    ensures
        final(s)@ == old(s)@ + ranges_repr(rs@),
{
    let ghost s0 = s@;
    let mut i: usize = 0;
    while i < rs.len()
        invariant
            i <= rs@.len(),
            s@ == s0 + ranges_repr(rs@.take(i as int)),
        decreases rs@.len() - i,
    {
        if i > 0 {
            append_str(s, ", ");
        }
        let (a, b) = rs[i];
        push_char(s, a);
        push_char(s, '-');
        push_char(s, b);
        proof {
            let t = rs@.take(i + 1);
            assert(t.drop_last() =~= rs@.take(i as int));
            if i == 0 {
                assert(rs@.take(0) =~= Seq::<(char, char)>::empty());
            }
        }
        assert(s@ =~= s0 + ranges_repr(rs@.take(i + 1)));
        i += 1;
    }
    assert(rs@.take(rs@.len() as int) =~= rs@);
}

impl RegexClass {
    /// The printed form of the class (see `class_repr`).
    pub fn to_repr(&self) -> (s: String)
        ensures
            s@ == class_repr(self.model()),
        decreases self,
    {
        let mut s = String::new();
        match self {
            RegexClass::CharSet(cs) => {
                append_str(&mut s, "Set[");
                append_chars_repr(&mut s, cs);
                append_str(&mut s, "]");
            },
            RegexClass::Ranges(rs) => {
                append_str(&mut s, "Ranges[");
                append_ranges_repr(&mut s, rs);
                append_str(&mut s, "]");
            },
            RegexClass::Mixed { ranges, singles } => {
                append_str(&mut s, "Mixed[ranges: ");
                append_ranges_repr(&mut s, ranges);
                append_str(&mut s, ", singles: ");
                append_chars_repr(&mut s, singles);
                append_str(&mut s, "]");
            },
            RegexClass::Negated(inner) => {
                append_str(&mut s, "Negated[");
                let r = (**inner).to_repr();
                append_str(&mut s, r.as_str());
                append_str(&mut s, "]");
            },
            RegexClass::Dot => {
                append_str(&mut s, "Dot");
            },
        }
        assert(s@ =~= class_repr(self.model()));
        s
    }
}

impl AstNodeImpl {
    /// The printed form of the tree (see `tree_repr`).
    pub fn to_repr(&self) -> (s: String)
        ensures
            s@ == tree_repr(self.model()),
        decreases self,
    {
        let mut s = String::new();
        match &self.kind {
            AstNodeKind::RegexChar(c) => {
                append_char_repr(&mut s, *c);
            },
            AstNodeKind::BinOp { op, left, right } => {
                append_str(&mut s, "(BinOp ");
                match op {
                    RegexBinOp::Concat => append_str(&mut s, "Concat"),
                    RegexBinOp::Or => append_str(&mut s, "Or"),
                }
                append_str(&mut s, " ");
                let l = (**left).to_repr();
                append_str(&mut s, l.as_str());
                append_str(&mut s, " ");
                let r = (**right).to_repr();
                append_str(&mut s, r.as_str());
                append_str(&mut s, ")");
            },
            AstNodeKind::UnOp { op, expr } => {
                append_str(&mut s, "(UnOp ");
                match op {
                    RegexUnOp::Star => append_str(&mut s, "Star"),
                    RegexUnOp::Plus => append_str(&mut s, "Plus"),
                    RegexUnOp::Optional => append_str(&mut s, "Optional"),
                }
                append_str(&mut s, " ");
                let e = (**expr).to_repr();
                append_str(&mut s, e.as_str());
                append_str(&mut s, ")");
            },
            AstNodeKind::Group(g) => {
                append_str(&mut s, "(Group ");
                let e = (*g.expr).to_repr();
                append_str(&mut s, e.as_str());
                append_str(&mut s, ")");
            },
            AstNodeKind::Class(c) => {
                append_str(&mut s, "(Class ");
                let r = c.to_repr();
                append_str(&mut s, r.as_str());
                append_str(&mut s, ")");
            },
        }
        assert(s@ =~= tree_repr(self.model()));
        s
    }
}

} // verus!
