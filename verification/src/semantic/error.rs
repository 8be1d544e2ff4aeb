//! Semantic errors: what each one says, and a report that points at the place in the source.

use vstd::prelude::*;
use crate::typings::types_node::TypeNode;
use crate::text::{decimal, append_str, append_usize};
use crate::semantic::source::{line_context, report_ok, get_line_context, build_caret_point, caret_text};

verus! {

/// A place in the source, by byte offsets: where a token starts and where it ends.
#[derive(Clone, Copy, Debug)]
pub struct TokenPos {
    pub start: usize,
    pub end: usize,
}

/// An error found by semantic analysis, with the place it refers to. Operators are held as
/// the text they are written with.
#[derive(Debug)]
pub enum SemanticError {
    DivisionByZero(TokenPos),
    UndefinedIdentifier(String, TokenPos),
    InvalidConditionType(TypeNode, TokenPos),
    InvalidBinaryOperation(TypeNode, TypeNode, String, TokenPos),
    InvalidUnaryOperation(TypeNode, String, TokenPos),
    RedefinitionOfFunction(String, TokenPos),
    UndeclaredFunction(String, TokenPos),
    UnknownError(String, TokenPos),
    InvalidArgumentsCount(usize, usize, String, TokenPos),
    InvalidTypeArgument(String, String, String, usize, String, TokenPos),
    InvalidFunctionReturn(TypeNode, TypeNode, String, TokenPos),
    RedefinitionOfVariable(String, TokenPos),
    UndefinedType(String, TokenPos),
    ParamNameAlreadyExist(String, String, String, TokenPos),
    RedefinitionOfType(String, TokenPos),
    CycleDetected(String, TokenPos),
    InvalidTypeArgumentCount(usize, usize, String, TokenPos),
    InvalidTypeFunctionAccess(String, String, TokenPos),
    InvalidTypePropertyAccess(String, String, TokenPos),
    InvalidTypeProperty(String, String, TokenPos),
    InvalidPrint(String, TokenPos),
    InvalidIterable(String, usize, TokenPos),
}

/// `name` between single quotes.
pub open spec fn quoted(name: Seq<char>) -> Seq<char> {
    seq!['\''] + name + seq!['\'']
}

/// What an error says.
pub open spec fn message_text(e: SemanticError) -> Seq<char> {
    match e {
        SemanticError::DivisionByZero(_) => "Division by zero is not allowed"@,
        SemanticError::UndefinedIdentifier(id, _) => "Undefined identifier: "@ + id@,
        SemanticError::InvalidConditionType(t, _) => "Invalid condition type: "@ + t.name@,
        SemanticError::InvalidBinaryOperation(l, r, op, _) => "Invalid binary operation between types "@
            + l.name@ + " and "@ + r.name@ + " with operator "@ + op@,
        SemanticError::InvalidUnaryOperation(t, op, _) => "Invalid unary operation on type "@ + t.name@
            + " with operator "@ + op@,
        SemanticError::RedefinitionOfFunction(name, _) => "Function "@ + quoted(name@) + " is already defined"@,
        SemanticError::UndeclaredFunction(name, _) => "Function "@ + quoted(name@) + " is not defined"@,
        SemanticError::InvalidArgumentsCount(found, expected, fname, _) => "Function "@ + quoted(fname@)
            + " expects "@ + decimal(expected as nat) + " arguments, found "@ + decimal(found as nat),
        SemanticError::InvalidTypeArgument(_, found, expected, pos, stmt_name, _) => stmt_name@
            + ": Argument "@ + decimal((pos + 1) as nat) + " should be "@ + expected@ + ", found "@ + found@,
        SemanticError::InvalidFunctionReturn(body, ret, fname, _) => "Function "@ + quoted(fname@)
            + " should return "@ + ret.name@ + ", found "@ + body.name@,
        SemanticError::RedefinitionOfVariable(var, _) => "Variable "@ + quoted(var@) + " is already defined"@,
        SemanticError::UndefinedType(ty, _) => "Type "@ + quoted(ty@) + " is not defined"@,
        SemanticError::ParamNameAlreadyExist(param, stmt_name, kind, _) => "Duplicate parameter "@
            + quoted(param@) + " in "@ + kind@ + " "@ + quoted(stmt_name@),
        SemanticError::RedefinitionOfType(ty, _) => "Type "@ + quoted(ty@) + " is already defined"@,
        SemanticError::CycleDetected(node, _) => "Type dependency cycle detected: "@ + node@,
        SemanticError::InvalidTypeArgumentCount(found, expected, ty, _) => "Type "@ + quoted(ty@)
            + " expects "@ + decimal(expected as nat) + " arguments, found "@ + decimal(found as nat),
        SemanticError::InvalidTypeFunctionAccess(ty, fn_name, _) => "Type "@ + quoted(ty@) + " has no method "@
            + quoted(fn_name@),
        SemanticError::InvalidTypePropertyAccess(ty, prop, _) => "Property "@ + quoted(prop@) + " of type "@
            + quoted(ty@) + " is private"@,
        SemanticError::InvalidTypeProperty(ty, prop, _) => "Type "@ + quoted(ty@) + " has no property "@
            + quoted(prop@),
        SemanticError::InvalidPrint(ty, _) => "Cannot print values of type "@ + quoted(ty@),
        SemanticError::InvalidIterable(fn_name, cnt, _) => "For loops require range() function, found "@
            + quoted(fn_name@ + "("@ + decimal(cnt as nat) + " arguments)"@),
        SemanticError::UnknownError(msg, _) => msg@,
    }
}

/// The message can be written: an argument position has a successor.
pub open spec fn message_ok(e: SemanticError) -> bool {
    match e {
        SemanticError::InvalidTypeArgument(_, _, _, pos, _, _) => pos < usize::MAX,
        _ => true,
    }
}

/// The place an error refers to.
pub open spec fn pos_of(e: SemanticError) -> TokenPos {
    match e {
        SemanticError::DivisionByZero(sp) => sp,
        SemanticError::UndefinedIdentifier(_, sp) => sp,
        SemanticError::InvalidConditionType(_, sp) => sp,
        SemanticError::InvalidBinaryOperation(_, _, _, sp) => sp,
        SemanticError::InvalidUnaryOperation(_, _, sp) => sp,
        SemanticError::RedefinitionOfFunction(_, sp) => sp,
        SemanticError::UndeclaredFunction(_, sp) => sp,
        SemanticError::UnknownError(_, sp) => sp,
        SemanticError::InvalidArgumentsCount(_, _, _, sp) => sp,
        SemanticError::InvalidTypeArgument(_, _, _, _, _, sp) => sp,
        SemanticError::InvalidFunctionReturn(_, _, _, sp) => sp,
        SemanticError::RedefinitionOfVariable(_, sp) => sp,
        SemanticError::UndefinedType(_, sp) => sp,
        SemanticError::ParamNameAlreadyExist(_, _, _, sp) => sp,
        SemanticError::RedefinitionOfType(_, sp) => sp,
        SemanticError::CycleDetected(_, sp) => sp,
        SemanticError::InvalidTypeArgumentCount(_, _, _, sp) => sp,
        SemanticError::InvalidTypeFunctionAccess(_, _, sp) => sp,
        SemanticError::InvalidTypePropertyAccess(_, _, sp) => sp,
        SemanticError::InvalidTypeProperty(_, _, sp) => sp,
        SemanticError::InvalidPrint(_, sp) => sp,
        SemanticError::InvalidIterable(_, _, sp) => sp,
    }
}

/// The report of an error in `input`: in red, the line and column of the place it refers to
/// and its message, then the line and a caret under the column.
pub open spec fn report_text(e: SemanticError, input: Seq<char>) -> Seq<char> {
    let (line, col, line_str) = line_context(input, pos_of(e).start as nat);
    "\u{1b}[31mError (line "@ + decimal(line) + ", column "@ + decimal(col) + "): "@ + message_text(e)
        + "\n  "@ + line_str + "\n  "@ + caret_text(col) + "\u{1b}[0m"@
}

/// Appends `'name'`.
fn append_quoted(s: &mut String, name: &str)
    ensures
        final(s)@ == old(s)@ + quoted(name@),
{
    append_str(s, "'");
    append_str(s, name);
    append_str(s, "'");
    proof {
        reveal_strlit("'");
        assert(final(s)@ =~= old(s)@ + quoted(name@));
    }
}

impl SemanticError {
    /// What the error says (see `message_text`).
    pub fn message(&self) -> (r: String)
        requires
            message_ok(*self),
        ensures
            r@ == message_text(*self),
    {
        let mut s = String::new();
        match self {
            SemanticError::DivisionByZero(_) => {
                append_str(&mut s, "Division by zero is not allowed");
            },
            SemanticError::UndefinedIdentifier(id, _) => {
                append_str(&mut s, "Undefined identifier: ");
                append_str(&mut s, id.as_str());
            },
            SemanticError::InvalidConditionType(t, _) => {
                append_str(&mut s, "Invalid condition type: ");
                append_str(&mut s, t.name.as_str());
            },
            SemanticError::InvalidBinaryOperation(l, r, op, _) => {
                append_str(&mut s, "Invalid binary operation between types ");
                append_str(&mut s, l.name.as_str());
                append_str(&mut s, " and ");
                append_str(&mut s, r.name.as_str());
                append_str(&mut s, " with operator ");
                append_str(&mut s, op.as_str());
            },
            SemanticError::InvalidUnaryOperation(t, op, _) => {
                append_str(&mut s, "Invalid unary operation on type ");
                append_str(&mut s, t.name.as_str());
                append_str(&mut s, " with operator ");
                append_str(&mut s, op.as_str());
            },
            SemanticError::RedefinitionOfFunction(name, _) => {
                append_str(&mut s, "Function ");
                append_quoted(&mut s, name.as_str());
                append_str(&mut s, " is already defined");
            },
            SemanticError::UndeclaredFunction(name, _) => {
                append_str(&mut s, "Function ");
                append_quoted(&mut s, name.as_str());
                append_str(&mut s, " is not defined");
            },
            SemanticError::InvalidArgumentsCount(found, expected, fname, _) => {
                append_str(&mut s, "Function ");
                append_quoted(&mut s, fname.as_str());
                append_str(&mut s, " expects ");
                append_usize(&mut s, *expected);
                append_str(&mut s, " arguments, found ");
                append_usize(&mut s, *found);
            },
            SemanticError::InvalidTypeArgument(_, found, expected, pos, stmt_name, _) => {
                append_str(&mut s, stmt_name.as_str());
                append_str(&mut s, ": Argument ");
                append_usize(&mut s, *pos + 1);
                append_str(&mut s, " should be ");
                append_str(&mut s, expected.as_str());
                append_str(&mut s, ", found ");
                append_str(&mut s, found.as_str());
            },
            SemanticError::InvalidFunctionReturn(body, ret, fname, _) => {
                append_str(&mut s, "Function ");
                append_quoted(&mut s, fname.as_str());
                append_str(&mut s, " should return ");
                append_str(&mut s, ret.name.as_str());
                append_str(&mut s, ", found ");
                append_str(&mut s, body.name.as_str());
            },
            SemanticError::RedefinitionOfVariable(var, _) => {
                append_str(&mut s, "Variable ");
                append_quoted(&mut s, var.as_str());
                append_str(&mut s, " is already defined");
            },
            SemanticError::UndefinedType(ty, _) => {
                append_str(&mut s, "Type ");
                append_quoted(&mut s, ty.as_str());
                append_str(&mut s, " is not defined");
            },
            SemanticError::ParamNameAlreadyExist(param, stmt_name, kind, _) => {
                append_str(&mut s, "Duplicate parameter ");
                append_quoted(&mut s, param.as_str());
                append_str(&mut s, " in ");
                append_str(&mut s, kind.as_str());
                append_str(&mut s, " ");
                append_quoted(&mut s, stmt_name.as_str());
            },
            SemanticError::RedefinitionOfType(ty, _) => {
                append_str(&mut s, "Type ");
                append_quoted(&mut s, ty.as_str());
                append_str(&mut s, " is already defined");
            },
            SemanticError::CycleDetected(node, _) => {
                append_str(&mut s, "Type dependency cycle detected: ");
                append_str(&mut s, node.as_str());
            },
            SemanticError::InvalidTypeArgumentCount(found, expected, ty, _) => {
                append_str(&mut s, "Type ");
                append_quoted(&mut s, ty.as_str());
                append_str(&mut s, " expects ");
                append_usize(&mut s, *expected);
                append_str(&mut s, " arguments, found ");
                append_usize(&mut s, *found);
            },
            SemanticError::InvalidTypeFunctionAccess(ty, fn_name, _) => {
                append_str(&mut s, "Type ");
                append_quoted(&mut s, ty.as_str());
                append_str(&mut s, " has no method ");
                append_quoted(&mut s, fn_name.as_str());
            },
            SemanticError::InvalidTypePropertyAccess(ty, prop, _) => {
                append_str(&mut s, "Property ");
                append_quoted(&mut s, prop.as_str());
                append_str(&mut s, " of type ");
                append_quoted(&mut s, ty.as_str());
                append_str(&mut s, " is private");
            },
            SemanticError::InvalidTypeProperty(ty, prop, _) => {
                append_str(&mut s, "Type ");
                append_quoted(&mut s, ty.as_str());
                append_str(&mut s, " has no property ");
                append_quoted(&mut s, prop.as_str());
            },
            SemanticError::InvalidPrint(ty, _) => {
                append_str(&mut s, "Cannot print values of type ");
                append_quoted(&mut s, ty.as_str());
            },
            SemanticError::InvalidIterable(fn_name, cnt, _) => {
                let mut inner = String::new();
                append_str(&mut inner, fn_name.as_str());
                append_str(&mut inner, "(");
                append_usize(&mut inner, *cnt);
                append_str(&mut inner, " arguments)");
                append_str(&mut s, "For loops require range() function, found ");
                append_quoted(&mut s, inner.as_str());
            },
            SemanticError::UnknownError(msg, _) => {
                append_str(&mut s, msg.as_str());
            },
        }
        assert(s@ =~= message_text(*self));
        s
    }

    /// The place the error refers to.
    fn token_pos(&self) -> (p: TokenPos)
        ensures
            p == pos_of(*self),
    {
        match self {
            SemanticError::DivisionByZero(sp) => *sp,
            SemanticError::UndefinedIdentifier(_, sp) => *sp,
            SemanticError::InvalidConditionType(_, sp) => *sp,
            SemanticError::InvalidBinaryOperation(_, _, _, sp) => *sp,
            SemanticError::InvalidUnaryOperation(_, _, sp) => *sp,
            SemanticError::RedefinitionOfFunction(_, sp) => *sp,
            SemanticError::UndeclaredFunction(_, sp) => *sp,
            SemanticError::UnknownError(_, sp) => *sp,
            SemanticError::InvalidArgumentsCount(_, _, _, sp) => *sp,
            SemanticError::InvalidTypeArgument(_, _, _, _, _, sp) => *sp,
            SemanticError::InvalidFunctionReturn(_, _, _, sp) => *sp,
            SemanticError::RedefinitionOfVariable(_, sp) => *sp,
            SemanticError::UndefinedType(_, sp) => *sp,
            SemanticError::ParamNameAlreadyExist(_, _, _, sp) => *sp,
            SemanticError::RedefinitionOfType(_, sp) => *sp,
            SemanticError::CycleDetected(_, sp) => *sp,
            SemanticError::InvalidTypeArgumentCount(_, _, _, sp) => *sp,
            SemanticError::InvalidTypeFunctionAccess(_, _, sp) => *sp,
            SemanticError::InvalidTypePropertyAccess(_, _, sp) => *sp,
            SemanticError::InvalidTypeProperty(_, _, sp) => *sp,
            SemanticError::InvalidPrint(_, sp) => *sp,
            SemanticError::InvalidIterable(_, _, sp) => *sp,
        }
    }

    /// The report of the error in `input` (see `report_text`).
    pub fn report(&self, input: &str) -> (r: String)
        requires
            message_ok(*self),
            report_ok(input@, self.token_pos_spec().start as nat),
        ensures
            r@ == report_text(*self, input@),
    {
        let token_pos = self.token_pos();
        let (line, col, line_str, _) = get_line_context(input, token_pos.start);
        let caret = build_caret_point(col);
        let message = self.message();
        let mut s = String::new();
        append_str(&mut s, "\u{1b}[31mError (line ");
        append_usize(&mut s, line);
        append_str(&mut s, ", column ");
        append_usize(&mut s, col);
        append_str(&mut s, "): ");
        append_str(&mut s, message.as_str());
        append_str(&mut s, "\n  ");
        append_str(&mut s, line_str.as_str());
        append_str(&mut s, "\n  ");
        append_str(&mut s, caret.as_str());
        append_str(&mut s, "\u{1b}[0m");
        assert(s@ =~= report_text(*self, input@));
        s
    }

    /// The place the error refers to, in contracts.
    pub open spec fn token_pos_spec(&self) -> TokenPos {
        pos_of(*self)
    }
}

} // verus!
