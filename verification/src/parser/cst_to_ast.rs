//! From a derivation tree to the syntax tree of a program. Each rule below says, over the
//! tree as plain values, what the conversion gives: a syntax tree, an error message, or
//! `Stuck` where a node lacks a child that the conversion reads without looking (those inputs
//! are left out by the conversion's `requires`).

use vstd::prelude::*;
use crate::parser::cst::{DerivationNode, DerivView, tree_view, forest_view, token_view};
use crate::parser::token::TokenType;
use crate::parser::syntax::{Span, Type, BinaryOp, UnaryOp, Expr, ExprKind, Stmt, StmtKind, AttributeDecl, MethodDecl, Program,
    TypeModel, ExprModel, ExprKindModel, StmtModel, StmtKindModel, AttrModel, MethodModel, type_model, opt_type_model,
    params_model, names_model, expr_model, exprs_model, stmt_model, stmts_model, attrs_model, methods_model, program_model,
    attr_model, method_model};
use crate::text::append_str;

verus! {

/// What converting a part of the tree gives.
pub enum Conv<T> {
    Done(T),
    Fail(Seq<char>),
    Stuck,
}

/// The symbol of a tree's root.
pub open spec fn sym(t: DerivView) -> Seq<char> {
    match t {
        DerivView::Node(s, _, _) => s,
    }
}

/// The children of a tree's root.
pub open spec fn kids(t: DerivView) -> Seq<DerivView> {
    match t {
        DerivView::Node(_, k, _) => k,
    }
}

/// The token of a tree's root.
pub open spec fn tok(t: DerivView) -> Option<(TokenType, Seq<char>, usize, usize)> {
    match t {
        DerivView::Node(_, _, k) => k,
    }
}

/// The position of a node's token, if it has one.
pub open spec fn span_of(t: DerivView) -> Option<Span> {
    match tok(t) {
        Some(x) => Some(Span { line: x.2, column: x.3 }),
        None => None,
    }
}

/// The text of a node's token.
pub open spec fn token_value(t: DerivView) -> Conv<Seq<char>> {
    match tok(t) {
        Some(x) => Conv::Done(x.1),
        None => Conv::Fail("Node has no token"@),
    }
}

/// The binary operator a token kind names.
pub open spec fn binary_op(s: Seq<char>) -> Conv<BinaryOp> {
    if s == "PLUS"@ { Conv::Done(BinaryOp::Add) }
    else if s == "MINUS"@ { Conv::Done(BinaryOp::Sub) }
    else if s == "MULT"@ { Conv::Done(BinaryOp::Mul) }
    else if s == "DIV"@ { Conv::Done(BinaryOp::Div) }
    else if s == "MOD"@ { Conv::Done(BinaryOp::Mod) }
    else if s == "POW"@ { Conv::Done(BinaryOp::Pow) }
    else if s == "EQ"@ { Conv::Done(BinaryOp::Eq) }
    else if s == "NEQ"@ { Conv::Done(BinaryOp::Neq) }
    else if s == "LT"@ { Conv::Done(BinaryOp::Lt) }
    else if s == "GT"@ { Conv::Done(BinaryOp::Gt) }
    else if s == "LE"@ { Conv::Done(BinaryOp::Le) }
    else if s == "GE"@ { Conv::Done(BinaryOp::Ge) }
    else if s == "AND"@ { Conv::Done(BinaryOp::And) }
    else if s == "OR"@ { Conv::Done(BinaryOp::Or) }
    else if s == "CONCAT"@ { Conv::Done(BinaryOp::Concat) }
    else if s == "CONCAT_WS"@ { Conv::Done(BinaryOp::ConcatWs) }
    else { Conv::Fail("Unknown binary operator: "@ + s) }
}

/// Each operator token kind converts to the operator of that name: `PLUS` to `+` (`Add`),
/// `MINUS` to `-`, `MULT` to `*`, `DIV` to `/`, `MOD` to `%`, `POW` to `^`, `EQ` to `==`,
/// `NEQ` to `!=`, `LT` to `<`, `GT` to `>`, `LE` to `<=`, `GE` to `>=`, `AND` to `&`, `OR` to
/// `|`, `CONCAT` to `@` and `CONCAT_WS` to `@@`; and no two token kinds convert to the same
/// operator.
pub proof fn lemma_binary_op_names(s1: Seq<char>, s2: Seq<char>)
    ensures
        binary_op("PLUS"@) == Conv::Done(BinaryOp::Add),
        binary_op("MINUS"@) == Conv::Done(BinaryOp::Sub),
        binary_op("MULT"@) == Conv::Done(BinaryOp::Mul),
        binary_op("DIV"@) == Conv::Done(BinaryOp::Div),
        binary_op("MOD"@) == Conv::Done(BinaryOp::Mod),
        binary_op("POW"@) == Conv::Done(BinaryOp::Pow),
        binary_op("EQ"@) == Conv::Done(BinaryOp::Eq),
        binary_op("NEQ"@) == Conv::Done(BinaryOp::Neq),
        binary_op("LT"@) == Conv::Done(BinaryOp::Lt),
        binary_op("GT"@) == Conv::Done(BinaryOp::Gt),
        binary_op("LE"@) == Conv::Done(BinaryOp::Le),
        binary_op("GE"@) == Conv::Done(BinaryOp::Ge),
        binary_op("AND"@) == Conv::Done(BinaryOp::And),
        binary_op("OR"@) == Conv::Done(BinaryOp::Or),
        binary_op("CONCAT"@) == Conv::Done(BinaryOp::Concat),
        binary_op("CONCAT_WS"@) == Conv::Done(BinaryOp::ConcatWs),
        binary_op(s1) is Done && binary_op(s1) == binary_op(s2) ==> s1 == s2,
{
    reveal_strlit("PLUS");
    reveal_strlit("MINUS");
    reveal_strlit("MULT");
    reveal_strlit("DIV");
    reveal_strlit("MOD");
    reveal_strlit("POW");
    reveal_strlit("EQ");
    reveal_strlit("NEQ");
    reveal_strlit("LT");
    reveal_strlit("GT");
    reveal_strlit("LE");
    reveal_strlit("GE");
    reveal_strlit("AND");
    reveal_strlit("OR");
    reveal_strlit("CONCAT");
    reveal_strlit("CONCAT_WS");
    assert("PLUS"@.len() == 4);
    assert("MINUS"@.len() == 5);
    assert("MULT"@.len() == 4);
    assert("DIV"@.len() == 3);
    assert("MOD"@.len() == 3);
    assert("POW"@.len() == 3);
    assert("EQ"@.len() == 2);
    assert("NEQ"@.len() == 3);
    assert("LT"@.len() == 2);
    assert("GT"@.len() == 2);
    assert("LE"@.len() == 2);
    assert("GE"@.len() == 2);
    assert("AND"@.len() == 3);
    assert("OR"@.len() == 2);
    assert("CONCAT"@.len() == 6);
    assert("CONCAT_WS"@.len() == 9);
    assert("PLUS"@[0] != "MULT"@[0]);
    assert("DIV"@[0] != "MOD"@[0]);
    assert("DIV"@[0] != "POW"@[0]);
    assert("DIV"@[0] != "NEQ"@[0]);
    assert("DIV"@[0] != "AND"@[0]);
    assert("MOD"@[0] != "POW"@[0]);
    assert("MOD"@[0] != "NEQ"@[0]);
    assert("MOD"@[0] != "AND"@[0]);
    assert("POW"@[0] != "NEQ"@[0]);
    assert("POW"@[0] != "AND"@[0]);
    assert("EQ"@[0] != "LT"@[0]);
    assert("EQ"@[0] != "GT"@[0]);
    assert("EQ"@[0] != "LE"@[0]);
    assert("EQ"@[0] != "GE"@[0]);
    assert("EQ"@[0] != "OR"@[0]);
    assert("NEQ"@[0] != "AND"@[0]);
    assert("LT"@[0] != "GT"@[0]);
    assert("LT"@[1] != "LE"@[1]);
    assert("LT"@[0] != "GE"@[0]);
    assert("LT"@[0] != "OR"@[0]);
    assert("GT"@[0] != "LE"@[0]);
    assert("GT"@[1] != "GE"@[1]);
    assert("GT"@[0] != "OR"@[0]);
    assert("LE"@[0] != "GE"@[0]);
    assert("LE"@[0] != "OR"@[0]);
    assert("GE"@[0] != "OR"@[0]);
}

/// The declared type a name stands for.
pub open spec fn type_of_name(s: Seq<char>) -> TypeModel {
    if s == "Number"@ { TypeModel::Number }
    else if s == "String"@ { TypeModel::String }
    else if s == "Boolean"@ { TypeModel::Boolean }
    else { TypeModel::Object(s) }
}

/// An expression at no position.
pub open spec fn bare(k: ExprKindModel) -> ExprModel {
    ExprModel::Node(k, None)
}

/// The symbol of the binary level `k`: `OrExpr`, `AndExpr`, `CmpExpr`, `ConcatExpr`,
/// `AddExpr`, `Term` and `Factor`, from the loosest to the tightest.
pub open spec fn level_name(k: int) -> Seq<char> {
    if k == 0 { "OrExpr"@ }
    else if k == 1 { "AndExpr"@ }
    else if k == 2 { "CmpExpr"@ }
    else if k == 3 { "ConcatExpr"@ }
    else if k == 4 { "AddExpr"@ }
    else if k == 5 { "Term"@ }
    else { "Factor"@ }
}

/// The `else` chain of `elif` branches: the first branch outermost, `els` innermost.
pub open spec fn fold_elifs(elifs: Seq<(ExprModel, ExprModel)>, els: ExprModel) -> ExprModel
    decreases elifs.len(),
{
    if elifs.len() == 0 {
        els
    } else {
        bare(ExprKindModel::If(Box::new(elifs[0].0), Box::new(elifs[0].1),
            Some(Box::new(fold_elifs(elifs.drop_first(), els)))))
    }
}

/// Nested `let` expressions: the first binding outermost, `body` innermost.
pub open spec fn fold_bindings(bs: Seq<(Seq<char>, ExprModel, Option<TypeModel>)>, body: ExprModel) -> ExprModel
    decreases bs.len(),
{
    if bs.len() == 0 {
        body
    } else {
        bare(ExprKindModel::Let(bs[0].0, Box::new(bs[0].1), Box::new(fold_bindings(bs.drop_first(), body)), bs[0].2))
    }
}

/// A program: the statements of its `StmtList`, none when it has no child.
pub open spec fn cv_program(t: DerivView) -> Conv<Seq<StmtModel>> {
    if sym(t) != "Program"@ {
        Conv::Fail("CST root must be a Program node"@)
    } else if kids(t).len() > 0 {
        cv_stmt_list(kids(t)[0])
    } else {
        Conv::Done(seq![])
    }
}

/// A `StmtList`: the statement of its `TerminatedStmt`, then those of the rest of the list.
pub open spec fn cv_stmt_list(t: DerivView) -> Conv<Seq<StmtModel>>
    decreases t, 0int,
{
    if sym(t) != "StmtList"@ {
        Conv::Fail("Expected StmtList node"@)
    } else if kids(t).len() == 0 {
        Conv::Stuck
    } else if sym(kids(t)[0]) == "ε"@ {
        Conv::Done(seq![])
    } else if sym(kids(t)[0]) != "TerminatedStmt"@ {
        Conv::Fail("Expected TerminatedStmt"@)
    } else {
        let ts = kids(t)[0];
        let first: Conv<Seq<StmtModel>> = if kids(ts).len() > 0 {
            match cv_stmt(kids(ts)[0]) {
                Conv::Done(s) => Conv::Done(seq![s]),
                Conv::Fail(m) => Conv::Fail(m),
                Conv::Stuck => Conv::Stuck,
            }
        } else {
            Conv::Done(seq![])
        };
        match first {
            Conv::Done(a) => if kids(t).len() > 1 {
                match cv_stmt_list(kids(t)[1]) {
                    Conv::Done(b) => Conv::Done(a + b),
                    Conv::Fail(m) => Conv::Fail(m),
                    Conv::Stuck => Conv::Stuck,
                }
            } else {
                Conv::Done(a)
            },
            Conv::Fail(m) => Conv::Fail(m),
            Conv::Stuck => Conv::Stuck,
        }
    }
}

/// An expression statement at a position.
pub open spec fn expr_stmt(c: Conv<ExprModel>, span: Option<Span>) -> Conv<StmtModel> {
    match c {
        Conv::Done(e) => Conv::Done(StmtModel::Node(StmtKindModel::ExprStmt(e), span)),
        Conv::Fail(m) => Conv::Fail(m),
        Conv::Stuck => Conv::Stuck,
    }
}

/// A `Stmt`: an expression, a function or type declaration, or a `while`, `for` or block
/// statement, each at the position of the statement node.
pub open spec fn cv_stmt(t: DerivView) -> Conv<StmtModel>
    decreases t, 0int,
{
    if sym(t) != "Stmt"@ {
        Conv::Fail("Expected Stmt node"@)
    } else if kids(t).len() == 0 {
        Conv::Stuck
    } else if sym(kids(t)[0]) == "ε"@ {
        Conv::Fail("Stmt node has no children"@)
    } else {
        let c = kids(t)[0];
        let span = span_of(t);
        if sym(c) == "Expr"@ {
            expr_stmt(cv_expr(c), span)
        } else if sym(c) == "FunctionDef"@ {
            match cv_function_def(c) {
                Conv::Done(f) => Conv::Done(StmtModel::Node(StmtKindModel::FunctionDecl(f.0, f.1, Box::new(f.2), f.3), span)),
                Conv::Fail(m) => Conv::Fail(m),
                Conv::Stuck => Conv::Stuck,
            }
        } else if sym(c) == "TypeDef"@ {
            match cv_type_def(c) {
                Conv::Done(d) => Conv::Done(StmtModel::Node(StmtKindModel::TypeDecl(d.0, d.1, d.2, d.3, d.4, d.5), span)),
                Conv::Fail(m) => Conv::Fail(m),
                Conv::Stuck => Conv::Stuck,
            }
        } else if sym(c) == "WhileStmt"@ {
            expr_stmt(cv_while(c), span)
        } else if sym(c) == "ForStmt"@ {
            expr_stmt(cv_for(c), span)
        } else if sym(c) == "BlockStmt"@ {
            expr_stmt(cv_block(c), span)
        } else {
            Conv::Fail("Unsupported statement type: "@ + sym(c))
        }
    }
}

/// An `Expr`: an `or` chain, an `if` or a `let`.
pub open spec fn cv_expr(t: DerivView) -> Conv<ExprModel>
    decreases t, 0int,
{
    if sym(t) != "Expr"@ {
        Conv::Fail("Expected Expr node"@)
    } else if kids(t).len() == 0 {
        Conv::Stuck
    } else if sym(kids(t)[0]) == "ε"@ {
        Conv::Fail("Expr node has no children"@)
    } else {
        let c = kids(t)[0];
        if sym(c) == "OrExpr"@ {
            cv_level(0, c)
        } else if sym(c) == "IfExpr"@ {
            cv_if(c)
        } else if sym(c) == "LetExpr"@ {
            cv_let(c)
        } else {
            Conv::Fail("Unsupported expression type: "@ + sym(c))
        }
    }
}

/// An operand of the binary level `k`: the next level, or a `Power` below `Factor`.
pub open spec fn cv_operand(k: int, t: DerivView) -> Conv<ExprModel>
    decreases t, 3int,
{
    if 0 <= k < 6 {
        cv_level(k + 1, t)
    } else {
        cv_power(t)
    }
}

/// A node of the binary level `k` (`OrExpr` for 0, down to `Factor` for 6): its first
/// operand, then its primed tail, which folds the operators to the left.
pub open spec fn cv_level(k: int, t: DerivView) -> Conv<ExprModel>
    decreases t, 2int,
{
    if sym(t) != level_name(k) {
        Conv::Fail("Expected "@ + level_name(k) + " node"@)
    } else if kids(t).len() < 2 {
        Conv::Fail(level_name(k) + " requires two children"@)
    } else {
        match cv_operand(k, kids(t)[0]) {
            Conv::Done(l) => cv_prime(k, l, kids(t)[1]),
            Conv::Fail(m) => Conv::Fail(m),
            Conv::Stuck => Conv::Stuck,
        }
    }
}

/// The operator of a primed node of level `k` whose first child is `op`: `or`, `and` and `^`
/// are fixed by the level, the others named by the child's symbol.
pub open spec fn level_op(k: int, op: Seq<char>) -> Conv<BinaryOp> {
    if k == 0 { Conv::Done(BinaryOp::Or) }
    else if k == 1 { Conv::Done(BinaryOp::And) }
    else if k == 6 { Conv::Done(BinaryOp::Pow) }
    else { binary_op(op) }
}

/// The primed tail of level `k` after the expression `left`: nothing more after `ε`;
/// otherwise an operator, an operand and the rest of the tail, folded to the left (an `is`
/// test at the comparison level takes a type name as its right side).
pub open spec fn cv_prime(k: int, left: ExprModel, t: DerivView) -> Conv<ExprModel>
    decreases t, 0int,
{
    if kids(t).len() == 0 {
        Conv::Stuck
    } else if sym(kids(t)[0]) == "ε"@ {
        Conv::Done(left)
    } else if kids(t).len() < 3 {
        Conv::Fail("Invalid "@ + level_name(k) + "' structure"@)
    } else if k == 2 && sym(kids(t)[0]) == "IS"@ {
        match token_value(kids(t)[1]) {
            Conv::Done(n) => cv_prime(k, bare(ExprKindModel::Is(Box::new(left), n)), kids(t)[2]),
            Conv::Fail(m) => Conv::Fail(m),
            Conv::Stuck => Conv::Stuck,
        }
    } else {
        match level_op(k, sym(kids(t)[0])) {
            Conv::Done(op) => match cv_operand(k, kids(t)[1]) {
                Conv::Done(r) => cv_prime(k, bare(ExprKindModel::Binary(op, Box::new(left), Box::new(r))), kids(t)[2]),
                Conv::Fail(m) => Conv::Fail(m),
                Conv::Stuck => Conv::Stuck,
            },
            Conv::Fail(m) => Conv::Fail(m),
            Conv::Stuck => Conv::Stuck,
        }
    }
}

/// A `Power`: its `Unary`.
pub open spec fn cv_power(t: DerivView) -> Conv<ExprModel>
    decreases t, 0int,
{
    if sym(t) != "Power"@ {
        Conv::Fail("Expected Power node"@)
    } else if kids(t).len() == 0 {
        Conv::Stuck
    } else if sym(kids(t)[0]) == "ε"@ {
        Conv::Fail("Power node has no children"@)
    } else {
        cv_unary(kids(t)[0])
    }
}

/// A `Unary`: a negation, or a primary expression followed by its `as` casts.
pub open spec fn cv_unary(t: DerivView) -> Conv<ExprModel>
    decreases t, 0int,
{
    if sym(t) != "Unary"@ {
        Conv::Fail("Expected Unary node"@)
    } else if kids(t).len() == 0 {
        Conv::Stuck
    } else if sym(kids(t)[0]) == "ε"@ {
        Conv::Fail("Unary node has no children"@)
    } else if kids(t).len() == 2 && sym(kids(t)[0]) == "MINUS"@ {
        match cv_unary(kids(t)[1]) {
            Conv::Done(e) => Conv::Done(ExprModel::Node(ExprKindModel::Unary(UnaryOp::Neg, Box::new(e)), span_of(kids(t)[0]))),
            Conv::Fail(m) => Conv::Fail(m),
            Conv::Stuck => Conv::Stuck,
        }
    } else {
        match cv_primary(kids(t)[0]) {
            Conv::Done(p) => if kids(t).len() > 1 { cv_as(p, kids(t)[1]) } else { Conv::Done(p) },
            Conv::Fail(m) => Conv::Fail(m),
            Conv::Stuck => Conv::Stuck,
        }
    }
}

/// An expression followed, when the node has a second child, by its primary tail.
pub open spec fn with_tail(e: ExprModel, t: DerivView) -> Conv<ExprModel>
    decreases t, 1int,
{
    if kids(t).len() > 1 { cv_tail(e, kids(t)[1]) } else { Conv::Done(e) }
}

/// A `Primary`: a literal, a variable or `self` with its tail, a `base` call, a `new`, or a
/// parenthesized expression, at the position of its first child's token.
pub open spec fn cv_primary(t: DerivView) -> Conv<ExprModel>
    decreases t, 2int,
{
    if sym(t) != "Primary"@ {
        Conv::Fail("Expected Primary node"@)
    } else if kids(t).len() == 0 {
        Conv::Fail("Primary node has no children"@)
    } else {
        let c = kids(t)[0];
        let span = span_of(c);
        if sym(c) == "NUMBER"@ {
            match tok(c) {
                Some(x) => Conv::Done(ExprModel::Node(ExprKindModel::Number(x.1), span)),
                None => Conv::Stuck,
            }
        } else if sym(c) == "STRING"@ {
            match tok(c) {
                Some(x) => Conv::Done(ExprModel::Node(ExprKindModel::String(x.1), span)),
                None => Conv::Stuck,
            }
        } else if sym(c) == "TRUE"@ {
            Conv::Done(ExprModel::Node(ExprKindModel::Boolean(true), span))
        } else if sym(c) == "FALSE"@ {
            Conv::Done(ExprModel::Node(ExprKindModel::Boolean(false), span))
        } else if sym(c) == "IDENT"@ {
            match tok(c) {
                Some(x) => with_tail(ExprModel::Node(ExprKindModel::Variable(x.1), span), t),
                None => Conv::Stuck,
            }
        } else if sym(c) == "SELF"@ {
            with_tail(ExprModel::Node(ExprKindModel::SelfExpr, span), t)
        } else if sym(c) == "BASE"@ {
            if kids(t).len() < 4 {
                Conv::Fail("Invalid BASE expression"@)
            } else {
                match cv_arg_list(kids(t)[2]) {
                    Conv::Done(a) => Conv::Done(ExprModel::Node(ExprKindModel::BaseCall(a), span)),
                    Conv::Fail(m) => Conv::Fail(m),
                    Conv::Stuck => Conv::Stuck,
                }
            }
        } else if sym(c) == "NEW"@ {
            if kids(t).len() < 5 {
                Conv::Fail("Invalid NEW expression"@)
            } else {
                match tok(kids(t)[1]) {
                    None => Conv::Fail("Missing type name in NEW expression"@),
                    Some(x) => match cv_arg_list(kids(t)[3]) {
                        Conv::Done(a) => Conv::Done(ExprModel::Node(ExprKindModel::New(x.1, a), span)),
                        Conv::Fail(m) => Conv::Fail(m),
                        Conv::Stuck => Conv::Stuck,
                    },
                }
            }
        } else if sym(c) == "LPAREN"@ {
            if kids(t).len() < 3 {
                Conv::Fail("Invalid parenthesized expression"@)
            } else {
                cv_expr(kids(t)[1])
            }
        } else {
            Conv::Fail("Unsupported primary expression: "@ + sym(c))
        }
    }
}

/// A call on `base` with arguments `args`: a function call on a variable, a method call on an
/// attribute access.
pub open spec fn call_on(base: ExprModel, args: Seq<ExprModel>) -> Conv<ExprModel> {
    match base {
        ExprModel::Node(ExprKindModel::Variable(n), sp) => Conv::Done(ExprModel::Node(ExprKindModel::Call(n, args), sp)),
        ExprModel::Node(ExprKindModel::GetAttr(o, a), sp) => Conv::Done(ExprModel::Node(ExprKindModel::MethodCall(o, a, args), sp)),
        _ => Conv::Fail("Invalid call expression"@),
    }
}

/// An assignment of `v` to `base`: to a variable, or to an attribute.
pub open spec fn assign_to(base: ExprModel, v: ExprModel) -> Conv<ExprModel> {
    match base {
        ExprModel::Node(ExprKindModel::Variable(n), sp) => Conv::Done(ExprModel::Node(ExprKindModel::Assign(n, Box::new(v)), sp)),
        ExprModel::Node(ExprKindModel::GetAttr(o, a), sp) => Conv::Done(ExprModel::Node(ExprKindModel::SetAttr(o, a, Box::new(v)), sp)),
        _ => Conv::Fail("Invalid assignment target"@),
    }
}

/// The position of an expression.
pub open spec fn span_of_expr(e: ExprModel) -> Option<Span> {
    match e {
        ExprModel::Node(_, sp) => sp,
    }
}

/// A `PrimaryTail` after `base`: a call, an attribute access or an assignment, and what
/// follows a call or an access.
pub open spec fn cv_tail(base: ExprModel, t: DerivView) -> Conv<ExprModel>
    decreases t, 0int,
{
    if sym(t) != "PrimaryTail"@ {
        Conv::Fail("Expected PrimaryTail node"@)
    } else if kids(t).len() == 0 {
        Conv::Stuck
    } else if sym(kids(t)[0]) == "ε"@ {
        Conv::Done(base)
    } else {
        let f = sym(kids(t)[0]);
        if f == "LPAREN"@ {
            if kids(t).len() < 4 {
                Conv::Fail("Invalid function call"@)
            } else {
                match cv_arg_list(kids(t)[1]) {
                    Conv::Done(args) => match call_on(base, args) {
                        Conv::Done(e) => cv_tail(e, kids(t)[3]),
                        Conv::Fail(m) => Conv::Fail(m),
                        Conv::Stuck => Conv::Stuck,
                    },
                    Conv::Fail(m) => Conv::Fail(m),
                    Conv::Stuck => Conv::Stuck,
                }
            }
        } else if f == "DOT"@ {
            if kids(t).len() < 3 {
                Conv::Fail("Invalid attribute access"@)
            } else {
                match tok(kids(t)[1]) {
                    None => Conv::Fail("Missing attribute name"@),
                    Some(x) => cv_tail(ExprModel::Node(ExprKindModel::GetAttr(Box::new(base), x.1), span_of_expr(base)), kids(t)[2]),
                }
            }
        } else if f == "ASSIGN"@ || f == "ASSIGN_DESTRUCT"@ {
            if kids(t).len() < 2 {
                Conv::Fail("Invalid assignment"@)
            } else {
                match cv_expr(kids(t)[1]) {
                    Conv::Done(v) => assign_to(base, v),
                    Conv::Fail(m) => Conv::Fail(m),
                    Conv::Stuck => Conv::Stuck,
                }
            }
        } else {
            Conv::Done(base)
        }
    }
}

/// An `AsExpr` after `base`: the casts, applied from left to right.
pub open spec fn cv_as(base: ExprModel, t: DerivView) -> Conv<ExprModel>
    decreases t, 0int,
{
    if sym(t) != "AsExpr"@ {
        Conv::Fail("Expected AsExpr node"@)
    } else if kids(t).len() == 0 {
        Conv::Stuck
    } else if sym(kids(t)[0]) == "ε"@ {
        Conv::Done(base)
    } else if kids(t).len() < 3 {
        Conv::Fail("Invalid AsExpr structure"@)
    } else {
        match token_value(kids(t)[1]) {
            Conv::Done(n) => cv_as(bare(ExprKindModel::As(Box::new(base), n)), kids(t)[2]),
            Conv::Fail(m) => Conv::Fail(m),
            Conv::Stuck => Conv::Stuck,
        }
    }
}

/// An `IfExpr`: condition, body, `elif` branches and `else` body, as nested conditionals.
pub open spec fn cv_if(t: DerivView) -> Conv<ExprModel>
    decreases t, 0int,
{
    if sym(t) != "IfExpr"@ {
        Conv::Fail("Expected IfExpr node"@)
    } else if kids(t).len() < 8 {
        Conv::Fail("Invalid IfExpr structure"@)
    } else {
        match cv_expr(kids(t)[2]) {
            Conv::Done(c) => match cv_if_body(kids(t)[4]) {
                Conv::Done(th) => match cv_elif_list(kids(t)[5]) {
                    Conv::Done(el) => match cv_if_body(kids(t)[7]) {
                        Conv::Done(e) => Conv::Done(ExprModel::Node(
                            ExprKindModel::If(Box::new(c), Box::new(th), Some(Box::new(fold_elifs(el, e)))), span_of(t))),
                        Conv::Fail(m) => Conv::Fail(m),
                        Conv::Stuck => Conv::Stuck,
                    },
                    Conv::Fail(m) => Conv::Fail(m),
                    Conv::Stuck => Conv::Stuck,
                },
                Conv::Fail(m) => Conv::Fail(m),
                Conv::Stuck => Conv::Stuck,
            },
            Conv::Fail(m) => Conv::Fail(m),
            Conv::Stuck => Conv::Stuck,
        }
    }
}

/// A `LetExpr`: its bindings and body, as nested `let` expressions.
pub open spec fn cv_let(t: DerivView) -> Conv<ExprModel>
    decreases t, 0int,
{
    if sym(t) != "LetExpr"@ {
        Conv::Fail("Expected LetExpr node"@)
    } else if kids(t).len() < 4 {
        Conv::Fail("Invalid LetExpr structure"@)
    } else {
        match cv_bindings(kids(t)[1]) {
            Conv::Done(bs) => match cv_body(kids(t)[3], "LetBody"@) {
                Conv::Done(b) => Conv::Done(fold_bindings(bs, b)),
                Conv::Fail(m) => Conv::Fail(m),
                Conv::Stuck => Conv::Stuck,
            },
            Conv::Fail(m) => Conv::Fail(m),
            Conv::Stuck => Conv::Stuck,
        }
    }
}

/// A `WhileStmt`: condition and body.
pub open spec fn cv_while(t: DerivView) -> Conv<ExprModel>
    decreases t, 0int,
{
    if sym(t) != "WhileStmt"@ {
        Conv::Fail("Expected WhileStmt node"@)
    } else if kids(t).len() < 3 {
        Conv::Fail("Invalid WhileStmt structure"@)
    } else {
        match cv_expr(kids(t)[1]) {
            Conv::Done(c) => match cv_body(kids(t)[2], "WhileBody"@) {
                Conv::Done(b) => Conv::Done(ExprModel::Node(ExprKindModel::While(Box::new(c), Box::new(b)), span_of(t))),
                Conv::Fail(m) => Conv::Fail(m),
                Conv::Stuck => Conv::Stuck,
            },
            Conv::Fail(m) => Conv::Fail(m),
            Conv::Stuck => Conv::Stuck,
        }
    }
}

/// A `ForStmt`: iterator name, collection and body.
pub open spec fn cv_for(t: DerivView) -> Conv<ExprModel>
    decreases t, 0int,
{
    if sym(t) != "ForStmt"@ {
        Conv::Fail("Expected ForStmt node"@)
    } else if kids(t).len() < 7 {
        Conv::Fail("Invalid ForStmt structure"@)
    } else {
        match token_value(kids(t)[2]) {
            Conv::Done(it) => match cv_expr(kids(t)[4]) {
                Conv::Done(c) => match cv_body(kids(t)[6], "ForBody"@) {
                    Conv::Done(b) => Conv::Done(ExprModel::Node(ExprKindModel::For(it, Box::new(c), Box::new(b)), span_of(t))),
                    Conv::Fail(m) => Conv::Fail(m),
                    Conv::Stuck => Conv::Stuck,
                },
                Conv::Fail(m) => Conv::Fail(m),
                Conv::Stuck => Conv::Stuck,
            },
            Conv::Fail(m) => Conv::Fail(m),
            Conv::Stuck => Conv::Stuck,
        }
    }
}

/// A `BlockStmt`: the statements between its braces.
pub open spec fn cv_block(t: DerivView) -> Conv<ExprModel>
    decreases t, 0int,
{
    if sym(t) != "BlockStmt"@ {
        Conv::Fail("Expected BlockStmt node"@)
    } else if kids(t).len() < 3 {
        Conv::Fail("Invalid BlockStmt structure"@)
    } else {
        match cv_stmt_list(kids(t)[1]) {
            Conv::Done(s) => Conv::Done(ExprModel::Node(ExprKindModel::Block(s), span_of(t))),
            Conv::Fail(m) => Conv::Fail(m),
            Conv::Stuck => Conv::Stuck,
        }
    }
}

/// The body of an `if`, `elif`, `let`, `while` or `for` (the node named `name`): a block or
/// an expression, and for `let` also a `while` or `for` statement.
pub open spec fn cv_body(t: DerivView, name: Seq<char>) -> Conv<ExprModel>
    decreases t, 0int,
{
    if sym(t) != name || kids(t).len() == 0 {
        if sym(t) != name { Conv::Fail("Invalid "@ + name) } else { Conv::Stuck }
    } else if kids(kids(t)[0]).len() == 0 {
        Conv::Fail("Invalid "@ + name)
    } else {
        let c = kids(t)[0];
        if sym(c) == "BlockStmt"@ {
            cv_block(c)
        } else if sym(c) == "Expr"@ {
            cv_expr(c)
        } else if name == "LetBody"@ && sym(c) == "WhileStmt"@ {
            cv_while(c)
        } else if name == "LetBody"@ && sym(c) == "ForStmt"@ {
            cv_for(c)
        } else {
            Conv::Fail("Unsupported "@ + name)
        }
    }
}

/// The body of an `if` or `elif`.
pub open spec fn cv_if_body(t: DerivView) -> Conv<ExprModel>
    decreases t, 1int,
{
    cv_body(t, "IfBody"@)
}

/// An `ElifList`: its `ElifBranch` children, in order.
pub open spec fn cv_elif_list(t: DerivView) -> Conv<Seq<(ExprModel, ExprModel)>>
    decreases t, 2int,
{
    if sym(t) != "ElifList"@ {
        Conv::Fail("Expected ElifList node"@)
    } else {
        cv_elifs_from(kids(t), 0)
    }
}

/// The `ElifBranch` nodes among `ks` from position `i` on.
pub open spec fn cv_elifs_from(ks: Seq<DerivView>, i: int) -> Conv<Seq<(ExprModel, ExprModel)>>
    decreases ks, ks.len() - i,
{
    if i < 0 || i >= ks.len() {
        Conv::Done(seq![])
    } else if sym(ks[i]) != "ElifBranch"@ {
        cv_elifs_from(ks, i + 1)
    } else {
        match cv_elif_branch(ks[i]) {
            Conv::Done(b) => match cv_elifs_from(ks, i + 1) {
                Conv::Done(r) => Conv::Done(seq![b] + r),
                Conv::Fail(m) => Conv::Fail(m),
                Conv::Stuck => Conv::Stuck,
            },
            Conv::Fail(m) => Conv::Fail(m),
            Conv::Stuck => Conv::Stuck,
        }
    }
}

/// An `ElifBranch`: condition and body.
pub open spec fn cv_elif_branch(t: DerivView) -> Conv<(ExprModel, ExprModel)>
    decreases t, 0int,
{
    if sym(t) != "ElifBranch"@ || kids(t).len() < 5 {
        Conv::Fail("Invalid ElifBranch"@)
    } else {
        match cv_expr(kids(t)[2]) {
            Conv::Done(c) => match cv_if_body(kids(t)[4]) {
                Conv::Done(b) => Conv::Done((c, b)),
                Conv::Fail(m) => Conv::Fail(m),
                Conv::Stuck => Conv::Stuck,
            },
            Conv::Fail(m) => Conv::Fail(m),
            Conv::Stuck => Conv::Stuck,
        }
    }
}

/// A `VarBindingList`: its `VarBinding` children, in order.
pub open spec fn cv_bindings(t: DerivView) -> Conv<Seq<(Seq<char>, ExprModel, Option<TypeModel>)>>
    decreases t, 2int,
{
    if sym(t) != "VarBindingList"@ {
        Conv::Fail("Expected VarBindingList node"@)
    } else {
        cv_bindings_from(kids(t), 0)
    }
}

/// The `VarBinding` nodes among `ks` from position `i` on.
pub open spec fn cv_bindings_from(ks: Seq<DerivView>, i: int) -> Conv<Seq<(Seq<char>, ExprModel, Option<TypeModel>)>>
    decreases ks, ks.len() - i,
{
    if i < 0 || i >= ks.len() {
        Conv::Done(seq![])
    } else if sym(ks[i]) != "VarBinding"@ {
        cv_bindings_from(ks, i + 1)
    } else {
        match cv_binding(ks[i]) {
            Conv::Done(b) => match cv_bindings_from(ks, i + 1) {
                Conv::Done(r) => Conv::Done(seq![b] + r),
                Conv::Fail(m) => Conv::Fail(m),
                Conv::Stuck => Conv::Stuck,
            },
            Conv::Fail(m) => Conv::Fail(m),
            Conv::Stuck => Conv::Stuck,
        }
    }
}

/// A `VarBinding`: name, declared type and value.
pub open spec fn cv_binding(t: DerivView) -> Conv<(Seq<char>, ExprModel, Option<TypeModel>)>
    decreases t, 0int,
{
    if sym(t) != "VarBinding"@ || kids(t).len() < 4 {
        Conv::Fail("Invalid VarBinding"@)
    } else {
        match token_value(kids(t)[0]) {
            Conv::Done(n) => match cv_type_annotation(kids(t)[1]) {
                Conv::Done(ty) => match cv_expr(kids(t)[3]) {
                    Conv::Done(v) => Conv::Done((n, v, ty)),
                    Conv::Fail(m) => Conv::Fail(m),
                    Conv::Stuck => Conv::Stuck,
                },
                Conv::Fail(m) => Conv::Fail(m),
                Conv::Stuck => Conv::Stuck,
            },
            Conv::Fail(m) => Conv::Fail(m),
            Conv::Stuck => Conv::Stuck,
        }
    }
}

/// An `ArgList`: the first argument (read from its first child's first child) and those of
/// its tail.
pub open spec fn cv_arg_list(t: DerivView) -> Conv<Seq<ExprModel>>
    decreases t, 2int,
{
    if sym(t) != "ArgList"@ {
        Conv::Fail("Expected ArgList node"@)
    } else if kids(t).len() == 0 {
        Conv::Stuck
    } else if kids(kids(t)[0]).len() == 0 {
        Conv::Done(seq![])
    } else {
        match cv_expr(kids(kids(t)[0])[0]) {
            Conv::Done(a) => if kids(t).len() > 1 {
                match cv_arg_tail(kids(t)[1]) {
                    Conv::Done(r) => Conv::Done(seq![a] + r),
                    Conv::Fail(m) => Conv::Fail(m),
                    Conv::Stuck => Conv::Stuck,
                }
            } else {
                Conv::Done(seq![a])
            },
            Conv::Fail(m) => Conv::Fail(m),
            Conv::Stuck => Conv::Stuck,
        }
    }
}

/// An `ArgListTail`: the expressions at its odd positions.
pub open spec fn cv_arg_tail(t: DerivView) -> Conv<Seq<ExprModel>>
    decreases t, 1int,
{
    if sym(t) != "ArgListTail"@ {
        Conv::Fail("Expected ArgListTail node"@)
    } else if kids(t).len() == 0 {
        Conv::Stuck
    } else if kids(kids(t)[0]).len() == 0 {
        Conv::Done(seq![])
    } else {
        cv_exprs_from(kids(t), 1)
    }
}

/// The expressions at positions `i`, `i + 2`, ... of `ks`.
pub open spec fn cv_exprs_from(ks: Seq<DerivView>, i: int) -> Conv<Seq<ExprModel>>
    decreases ks, ks.len() + 2 - i,
{
    if i < 0 || i >= ks.len() {
        Conv::Done(seq![])
    } else {
        match cv_expr(ks[i]) {
            Conv::Done(a) => match cv_exprs_from(ks, i + 2) {
                Conv::Done(r) => Conv::Done(seq![a] + r),
                Conv::Fail(m) => Conv::Fail(m),
                Conv::Stuck => Conv::Stuck,
            },
            Conv::Fail(m) => Conv::Fail(m),
            Conv::Stuck => Conv::Stuck,
        }
    }
}

/// A `TypeAnnotation`: the type named by its second child (nothing for another node, or
/// when its first child has no children).
pub open spec fn cv_type_annotation(t: DerivView) -> Conv<Option<TypeModel>> {
    if sym(t) != "TypeAnnotation"@ {
        Conv::Done(None)
    } else if kids(t).len() == 0 {
        Conv::Stuck
    } else if kids(kids(t)[0]).len() == 0 {
        Conv::Done(None)
    } else if kids(t).len() < 2 {
        Conv::Fail("Invalid type annotation"@)
    } else {
        match tok(kids(t)[1]) {
            None => Conv::Fail("Missing type name"@),
            Some(x) => Conv::Done(Some(type_of_name(x.1))),
        }
    }
}

/// An `ArgIdList`: the name and annotation of each `ArgId` child with two children or more.
pub open spec fn cv_params(t: DerivView) -> Conv<Seq<(Seq<char>, Option<TypeModel>)>> {
    if sym(t) != "ArgIdList"@ {
        Conv::Fail("Expected ArgIdList node"@)
    } else {
        cv_params_from(kids(t), 0)
    }
}

/// The parameters among `ks` from position `i` on.
pub open spec fn cv_params_from(ks: Seq<DerivView>, i: int) -> Conv<Seq<(Seq<char>, Option<TypeModel>)>>
    decreases ks.len() - i,
{
    if i < 0 || i >= ks.len() {
        Conv::Done(seq![])
    } else if sym(ks[i]) != "ArgId"@ || kids(ks[i]).len() < 2 {
        cv_params_from(ks, i + 1)
    } else {
        match tok(kids(ks[i])[0]) {
            None => Conv::Fail("Missing parameter name"@),
            Some(x) => match cv_type_annotation(kids(ks[i])[1]) {
                Conv::Done(ty) => match cv_params_from(ks, i + 1) {
                    Conv::Done(r) => Conv::Done(seq![(x.1, ty)] + r),
                    Conv::Fail(m) => Conv::Fail(m),
                    Conv::Stuck => Conv::Stuck,
                },
                Conv::Fail(m) => Conv::Fail(m),
                Conv::Stuck => Conv::Stuck,
            },
        }
    }
}

/// A function body: an arrow and an expression, or a block read as a statement.
pub open spec fn cv_function_body(t: DerivView) -> Conv<StmtModel>
    decreases t, 1int,
{
    if kids(t).len() == 0 {
        Conv::Stuck
    } else if kids(kids(t)[0]).len() == 0 {
        Conv::Fail("Empty function body"@)
    } else {
        let c = kids(t)[0];
        if sym(c) == "ARROW"@ {
            if kids(t).len() < 2 {
                Conv::Fail("Invalid arrow function"@)
            } else {
                expr_stmt(cv_expr(kids(t)[1]), span_of(c))
            }
        } else if sym(c) == "BlockStmt"@ {
            cv_stmt(c)
        } else {
            Conv::Fail("Unsupported function body"@)
        }
    }
}

/// A `FunctionDef`: name, parameters, body and return type.
pub open spec fn cv_function_def(t: DerivView) -> Conv<(Seq<char>, Seq<(Seq<char>, Option<TypeModel>)>, StmtModel, Option<TypeModel>)>
    decreases t, 2int,
{
    if sym(t) != "FunctionDef"@ {
        Conv::Fail("Expected FunctionDef node"@)
    } else if kids(t).len() < 7 {
        Conv::Fail("Invalid FunctionDef structure"@)
    } else {
        match tok(kids(t)[1]) {
            None => Conv::Fail("Missing function name"@),
            Some(x) => match cv_params(kids(t)[3]) {
                Conv::Done(ps) => match cv_type_annotation(kids(t)[5]) {
                    Conv::Done(rt) => match cv_function_body(kids(t)[6]) {
                        Conv::Done(b) => Conv::Done((x.1, ps, b, rt)),
                        Conv::Fail(m) => Conv::Fail(m),
                        Conv::Stuck => Conv::Stuck,
                    },
                    Conv::Fail(m) => Conv::Fail(m),
                    Conv::Stuck => Conv::Stuck,
                },
                Conv::Fail(m) => Conv::Fail(m),
                Conv::Stuck => Conv::Stuck,
            },
        }
    }
}

/// A `TypeParams`: the text of each `IDENT` child holding a token.
pub open spec fn cv_type_params(t: DerivView) -> Conv<Seq<Seq<char>>> {
    if sym(t) != "TypeParams"@ {
        Conv::Fail("Expected TypeParams node"@)
    } else {
        Conv::Done(idents_from(kids(t), 0))
    }
}

/// The texts of the `IDENT` leaves among `ks` from position `i` on.
pub open spec fn idents_from(ks: Seq<DerivView>, i: int) -> Seq<Seq<char>>
    decreases ks.len() - i,
{
    if i < 0 || i >= ks.len() {
        seq![]
    } else {
        match tok(ks[i]) {
            Some(x) => if sym(ks[i]) == "IDENT"@ { seq![x.1] + idents_from(ks, i + 1) } else { idents_from(ks, i + 1) },
            None => idents_from(ks, i + 1),
        }
    }
}

/// A `TypeInheritance`: the base type and its arguments (`Object` and none when absent).
pub open spec fn cv_inheritance(t: DerivView) -> Conv<(Seq<char>, Seq<ExprModel>)>
    decreases t, 2int,
{
    if sym(t) != "TypeInheritance"@ {
        Conv::Done(("Object"@, seq![]))
    } else if kids(t).len() == 0 {
        Conv::Stuck
    } else if kids(kids(t)[0]).len() == 0 {
        Conv::Done(("Object"@, seq![]))
    } else if kids(t).len() < 3 {
        Conv::Fail("Invalid TypeInheritance structure"@)
    } else {
        match token_value(kids(t)[1]) {
            Conv::Done(b) => match cv_base_args(kids(t)[2]) {
                Conv::Done(a) => Conv::Done((b, a)),
                Conv::Fail(m) => Conv::Fail(m),
                Conv::Stuck => Conv::Stuck,
            },
            Conv::Fail(m) => Conv::Fail(m),
            Conv::Stuck => Conv::Stuck,
        }
    }
}

/// A `TypeBaseArgs`: the arguments of its `ArgList` (none when absent).
pub open spec fn cv_base_args(t: DerivView) -> Conv<Seq<ExprModel>>
    decreases t, 1int,
{
    if sym(t) != "TypeBaseArgs"@ {
        Conv::Done(seq![])
    } else if kids(t).len() == 0 {
        Conv::Stuck
    } else if kids(kids(t)[0]).len() == 0 {
        Conv::Done(seq![])
    } else if kids(t).len() < 3 {
        Conv::Fail("Invalid TypeBaseArgs structure"@)
    } else {
        cv_arg_list(kids(t)[1])
    }
}

/// A `TypeDef`: name, type parameters, attributes, methods, base type and base arguments.
pub open spec fn cv_type_def(t: DerivView)
    -> Conv<(Seq<char>, Seq<Seq<char>>, Seq<AttrModel>, Seq<MethodModel>, Seq<char>, Seq<ExprModel>)>
    decreases t, 3int,
{
    if sym(t) != "TypeDef"@ {
        Conv::Fail("Expected TypeDef node"@)
    } else if kids(t).len() < 7 {
        Conv::Fail("Invalid TypeDef structure"@)
    } else {
        match tok(kids(t)[1]) {
            None => Conv::Fail("Missing type name"@),
            Some(x) => match cv_type_params(kids(t)[2]) {
                Conv::Done(tp) => match cv_inheritance(kids(t)[3]) {
                    Conv::Done(inh) => match cv_type_body(kids(t)[5]) {
                        Conv::Done(body) => Conv::Done((x.1, tp, body.0, body.1, inh.0, inh.1)),
                        Conv::Fail(m) => Conv::Fail(m),
                        Conv::Stuck => Conv::Stuck,
                    },
                    Conv::Fail(m) => Conv::Fail(m),
                    Conv::Stuck => Conv::Stuck,
                },
                Conv::Fail(m) => Conv::Fail(m),
                Conv::Stuck => Conv::Stuck,
            },
        }
    }
}

/// A `TypeBody`: the attributes and methods of its `TypeMember` children, in order.
pub open spec fn cv_type_body(t: DerivView) -> Conv<(Seq<AttrModel>, Seq<MethodModel>)>
    decreases t, 2int,
{
    if sym(t) != "TypeBody"@ {
        Conv::Fail("Expected TypeBody node"@)
    } else {
        cv_members_from(kids(t), 0)
    }
}

/// Adds an optional attribute and an optional method in front of lists of them.
pub open spec fn cons_members(m: (Option<AttrModel>, Option<MethodModel>), r: (Seq<AttrModel>, Seq<MethodModel>))
    -> (Seq<AttrModel>, Seq<MethodModel>) {
    (
        match m.0 { Some(a) => seq![a] + r.0, None => r.0 },
        match m.1 { Some(x) => seq![x] + r.1, None => r.1 },
    )
}

/// The members among `ks` from position `i` on.
pub open spec fn cv_members_from(ks: Seq<DerivView>, i: int) -> Conv<(Seq<AttrModel>, Seq<MethodModel>)>
    decreases ks, ks.len() - i,
{
    if i < 0 || i >= ks.len() {
        Conv::Done((seq![], seq![]))
    } else if sym(ks[i]) != "TypeMember"@ {
        cv_members_from(ks, i + 1)
    } else {
        match cv_type_member(ks[i]) {
            Conv::Done(m) => match cv_members_from(ks, i + 1) {
                Conv::Done(r) => Conv::Done(cons_members(m, r)),
                Conv::Fail(e) => Conv::Fail(e),
                Conv::Stuck => Conv::Stuck,
            },
            Conv::Fail(e) => Conv::Fail(e),
            Conv::Stuck => Conv::Stuck,
        }
    }
}

/// A `TypeMember`: its name and what its tail declares.
pub open spec fn cv_type_member(t: DerivView) -> Conv<(Option<AttrModel>, Option<MethodModel>)>
    decreases t, 1int,
{
    if sym(t) != "TypeMember"@ || kids(t).len() < 2 {
        Conv::Done((None, None))
    } else {
        match token_value(kids(t)[0]) {
            Conv::Done(n) => cv_member_tail(n, kids(t)[1]),
            Conv::Fail(m) => Conv::Fail(m),
            Conv::Stuck => Conv::Stuck,
        }
    }
}

/// A `TypeMemberTail` of the member `name`: an attribute (annotation and initializer) or a
/// method (parameters, return type and body).
pub open spec fn cv_member_tail(name: Seq<char>, t: DerivView) -> Conv<(Option<AttrModel>, Option<MethodModel>)>
    decreases t, 0int,
{
    if sym(t) != "TypeMemberTail"@ {
        Conv::Done((None, None))
    } else if kids(t).len() == 0 {
        Conv::Stuck
    } else if kids(kids(t)[0]).len() == 0 {
        Conv::Done((None, None))
    } else {
        let f = kids(t)[0];
        if sym(f) == "TypeAnnotation"@ {
            match cv_type_annotation(f) {
                Conv::Done(dt) => {
                    let init: Conv<Option<ExprModel>> = if kids(t).len() > 1 && kids(kids(t)[1]).len() > 1 {
                        match cv_expr(kids(kids(t)[1])[1]) {
                            Conv::Done(e) => Conv::Done(Some(e)),
                            Conv::Fail(m) => Conv::Fail(m),
                            Conv::Stuck => Conv::Stuck,
                        }
                    } else {
                        Conv::Done(None)
                    };
                    match init {
                        Conv::Done(i) => Conv::Done((Some(AttrModel::Attr(name, i, dt)), None)),
                        Conv::Fail(m) => Conv::Fail(m),
                        Conv::Stuck => Conv::Stuck,
                    }
                },
                Conv::Fail(m) => Conv::Fail(m),
                Conv::Stuck => Conv::Stuck,
            }
        } else if sym(f) == "LPAREN"@ {
            if kids(t).len() < 6 {
                Conv::Fail("Invalid method declaration"@)
            } else {
                match cv_params(kids(t)[1]) {
                    Conv::Done(ps) => match cv_type_annotation(kids(t)[3]) {
                        Conv::Done(rt) => match cv_function_body(kids(t)[4]) {
                            Conv::Done(b) => Conv::Done((None, Some(MethodModel::Method(name, ps, Box::new(b), rt)))),
                            Conv::Fail(m) => Conv::Fail(m),
                            Conv::Stuck => Conv::Stuck,
                        },
                        Conv::Fail(m) => Conv::Fail(m),
                        Conv::Stuck => Conv::Stuck,
                    },
                    Conv::Fail(m) => Conv::Fail(m),
                    Conv::Stuck => Conv::Stuck,
                }
            }
        } else {
            Conv::Done((None, None))
        }
    }
}

/// A converted value and the rule's outcome agree: the value's model for `Done`, the message
/// for `Fail`.
pub open spec fn res<T, M>(r: Result<T, String>, c: Conv<M>, f: spec_fn(T) -> M) -> bool {
    match r {
        Ok(x) => c == Conv::<M>::Done(f(x)),
        Err(m) => c == Conv::<M>::Fail(m@),
    }
}

/// `c` with `acc` put in front of its list, when it is one.
pub open spec fn after<T>(acc: Seq<T>, c: Conv<Seq<T>>) -> Conv<Seq<T>> {
    match c {
        Conv::Done(r) => Conv::Done(acc + r),
        Conv::Fail(m) => Conv::Fail(m),
        Conv::Stuck => Conv::Stuck,
    }
}

/// Putting one element in front, then the rest.
proof fn lemma_after_cons<T>(acc: Seq<T>, b: T, c: Conv<Seq<T>>)
    ensures
        after(acc, match c {
            Conv::Done(r) => Conv::Done(seq![b] + r),
            Conv::Fail(m) => Conv::Fail(m),
            Conv::Stuck => Conv::Stuck,
        }) == after(acc.push(b), c),
{
    if let Conv::Done(r) = c {
        assert(acc + (seq![b] + r) =~= acc.push(b) + r);
    }
}

/// The views of a list of trees are the views of each tree.
pub proof fn lemma_forest_view(cs: Seq<DerivationNode>)
    ensures
        forest_view(cs).len() == cs.len(),
        forall|i: int| 0 <= i < cs.len() ==> #[trigger] forest_view(cs)[i] == tree_view(cs[i]),
    decreases cs.len(),
{
    if cs.len() > 0 {
        let init = cs.subrange(0, cs.len() - 1);
        lemma_forest_view(init);
        assert forall|i: int| 0 <= i < cs.len() implies #[trigger] forest_view(cs)[i] == tree_view(cs[i]) by {
            if i < cs.len() - 1 {
                assert(init[i] == cs[i]);
            }
        }
    }
}

/// The view of a node: its symbol, its token, and its children's views.
proof fn lemma_node(n: DerivationNode)
    ensures
        sym(tree_view(n)) == n.symbol@,
        tok(tree_view(n)) == token_view(n.token),
        kids(tree_view(n)).len() == n.children@.len(),
        forall|i: int| 0 <= i < n.children@.len() ==> #[trigger] kids(tree_view(n))[i] == tree_view(n.children@[i]),
{
    lemma_forest_view(n.children@);
}

proof fn lemma_exprs_push(v: Seq<Expr>, e: Expr)
    ensures
        exprs_model(v.push(e)) == exprs_model(v).push(expr_model(e)),
{
    assert(v.push(e).subrange(0, v.len() as int) =~= v);
}

proof fn lemma_exprs_concat(a: Seq<Expr>, b: Seq<Expr>)
    ensures
        exprs_model(a + b) == exprs_model(a) + exprs_model(b),
    decreases b.len(),
{
    if b.len() == 0 {
        assert(a + b =~= a);
        assert(exprs_model(b) =~= Seq::<ExprModel>::empty());
        assert(exprs_model(a) + exprs_model(b) =~= exprs_model(a));
    } else {
        let b0 = b.subrange(0, b.len() - 1);
        assert((a + b).subrange(0, (a + b).len() - 1) =~= a + b0);
        lemma_exprs_concat(a, b0);
        assert(exprs_model(a) + exprs_model(b) =~= (exprs_model(a) + exprs_model(b0)).push(expr_model(b[b.len() - 1])));
    }
}

proof fn lemma_stmts_push(v: Seq<Stmt>, e: Stmt)
    ensures
        stmts_model(v.push(e)) == stmts_model(v).push(stmt_model(e)),
{
    assert(v.push(e).subrange(0, v.len() as int) =~= v);
}

proof fn lemma_stmts_concat(a: Seq<Stmt>, b: Seq<Stmt>)
    ensures
        stmts_model(a + b) == stmts_model(a) + stmts_model(b),
    decreases b.len(),
{
    if b.len() == 0 {
        assert(a + b =~= a);
        assert(stmts_model(b) =~= Seq::<StmtModel>::empty());
        assert(stmts_model(a) + stmts_model(b) =~= stmts_model(a));
    } else {
        let b0 = b.subrange(0, b.len() - 1);
        assert((a + b).subrange(0, (a + b).len() - 1) =~= a + b0);
        lemma_stmts_concat(a, b0);
        assert(stmts_model(a) + stmts_model(b) =~= (stmts_model(a) + stmts_model(b0)).push(stmt_model(b[b.len() - 1])));
    }
}

proof fn lemma_attrs_push(v: Seq<AttributeDecl>, e: AttributeDecl)
    ensures
        attrs_model(v.push(e)) == attrs_model(v).push(attr_model(e)),
{
    assert(v.push(e).subrange(0, v.len() as int) =~= v);
}

proof fn lemma_methods_push(v: Seq<MethodDecl>, e: MethodDecl)
    ensures
        methods_model(v.push(e)) == methods_model(v).push(method_model(e)),
{
    assert(v.push(e).subrange(0, v.len() as int) =~= v);
}

/// Whether a string is `t`.
fn str_is(s: &String, t: &str) -> (b: bool)
    ensures
        b == (s@ == t@),
{
    let u = String::from_str(t);
    *s == u
}

/// Whether a node's symbol is `t`.
fn sym_is(n: &DerivationNode, t: &str) -> (b: bool)
    ensures
        b == (n.symbol@ == t@),
{
    str_is(&n.symbol, t)
}

/// A message made of three parts.
fn message3(a: &str, b: &str, c: &str) -> (m: String)
    ensures
        m@ == a@ + b@ + c@,
{
    let mut m = String::from_str(a);
    append_str(&mut m, b);
    append_str(&mut m, c);
    m
}

/// A message made of two parts.
fn message2(a: &str, b: &str) -> (m: String)
    ensures
        m@ == a@ + b@,
{
    let mut m = String::from_str(a);
    append_str(&mut m, b);
    m
}

/// The position of a node's token (see `span_of`).
fn get_span(n: &DerivationNode) -> (r: Option<Span>)
    ensures
        r == span_of(tree_view(*n)),
{
    proof {
        lemma_node(*n);
    }
    match &n.token {
        Some(t) => Some(Span { line: t.line, column: t.column }),
        None => None,
    }
}

/// The text of a node's token (see `token_value`).
fn get_token_value(n: &DerivationNode) -> (r: Result<String, String>)
    ensures
        res(r, token_value(tree_view(*n)), |s: String| s@),
{
    proof {
        lemma_node(*n);
    }
    match &n.token {
        Some(t) => Ok(t.lexeme.clone()),
        None => Err(String::from_str("Node has no token")),
    }
}

/// The text of a node's token, if it has one.
fn token_text(n: &DerivationNode) -> (r: Option<String>)
    ensures
        match r {
            Some(s) => tok(tree_view(*n)) matches Some(x) && x.1 == s@,
            None => tok(tree_view(*n)) is None,
        },
{
    proof {
        lemma_node(*n);
    }
    match &n.token {
        Some(t) => Some(t.lexeme.clone()),
        None => None,
    }
}

/// The binary operator a token kind names (see `binary_op`).
fn convert_binary_op(op: &String) -> (r: Result<BinaryOp, String>)
    ensures
        res(r, binary_op(op@), |o: BinaryOp| o),
{
    if str_is(op, "PLUS") { Ok(BinaryOp::Add) }
    else if str_is(op, "MINUS") { Ok(BinaryOp::Sub) }
    else if str_is(op, "MULT") { Ok(BinaryOp::Mul) }
    else if str_is(op, "DIV") { Ok(BinaryOp::Div) }
    else if str_is(op, "MOD") { Ok(BinaryOp::Mod) }
    else if str_is(op, "POW") { Ok(BinaryOp::Pow) }
    else if str_is(op, "EQ") { Ok(BinaryOp::Eq) }
    else if str_is(op, "NEQ") { Ok(BinaryOp::Neq) }
    else if str_is(op, "LT") { Ok(BinaryOp::Lt) }
    else if str_is(op, "GT") { Ok(BinaryOp::Gt) }
    else if str_is(op, "LE") { Ok(BinaryOp::Le) }
    else if str_is(op, "GE") { Ok(BinaryOp::Ge) }
    else if str_is(op, "AND") { Ok(BinaryOp::And) }
    else if str_is(op, "OR") { Ok(BinaryOp::Or) }
    else if str_is(op, "CONCAT") { Ok(BinaryOp::Concat) }
    else if str_is(op, "CONCAT_WS") { Ok(BinaryOp::ConcatWs) }
    else {
        let mut m = String::from_str("Unknown binary operator: ");
        append_str(&mut m, op.as_str());
        Err(m)
    }
}

/// The declared type a name stands for (see `type_of_name`).
fn type_named(s: String) -> (t: Type)
    ensures
        type_model(t) == type_of_name(s@),
{
    if str_is(&s, "Number") { Type::Number }
    else if str_is(&s, "String") { Type::String }
    else if str_is(&s, "Boolean") { Type::Boolean }
    else { Type::Object(s) }
}

/// The symbol of the binary level `k` (see `level_name`).
fn level_name_of(k: usize) -> (s: &'static str)
    requires
        k <= 6,
    ensures
        s@ == level_name(k as int),
{
    if k == 0 { "OrExpr" }
    else if k == 1 { "AndExpr" }
    else if k == 2 { "CmpExpr" }
    else if k == 3 { "ConcatExpr" }
    else if k == 4 { "AddExpr" }
    else if k == 5 { "Term" }
    else { "Factor" }
}

/// Converts a derivation tree rooted at `Program` into the program's syntax tree (see
/// `cv_program`): an error message when the tree does not have the expected shape. Number
/// literals keep their text.
pub fn convert_to_ast(root: &DerivationNode) -> (r: Result<Program, String>)
    requires
        !(cv_program(tree_view(*root)) is Stuck),
    ensures
        res(r, cv_program(tree_view(*root)), |p: Program| program_model(p)),
{
    proof {
        lemma_node(*root);
    }
    if !sym_is(root, "Program") {
        return Err(String::from_str("CST root must be a Program node"));
    }
    let stmts = if root.children.len() > 0 {
        match convert_stmt_list(&root.children[0]) {
            Ok(v) => v,
            Err(m) => return Err(m),
        }
    } else {
        let v: Vec<Stmt> = Vec::new();
        assert(stmts_model(v@) =~= Seq::<StmtModel>::empty());
        v
    };
    Ok(Program { stmts })
}

fn convert_stmt_list(node: &DerivationNode) -> (r: Result<Vec<Stmt>, String>)
    requires
        !(cv_stmt_list(tree_view(*node)) is Stuck),
    ensures
        res(r, cv_stmt_list(tree_view(*node)), |v: Vec<Stmt>| stmts_model(v@)),
    decreases node, 0int,
{
    proof {
        lemma_node(*node);
    }
    if !sym_is(node, "StmtList") {
        return Err(String::from_str("Expected StmtList node"));
    }
    if sym_is(&node.children[0], "ε") {
        let v: Vec<Stmt> = Vec::new();
        assert(stmts_model(v@) =~= Seq::<StmtModel>::empty());
        return Ok(v);
    }
    let ts = &node.children[0];
    if !sym_is(ts, "TerminatedStmt") {
        return Err(String::from_str("Expected TerminatedStmt"));
    }
    proof {
        lemma_node(*ts);
    }
    let mut stmts: Vec<Stmt> = Vec::new();
    assert(stmts_model(stmts@) =~= Seq::<StmtModel>::empty());
    if ts.children.len() > 0 {
        match convert_stmt(&ts.children[0]) {
            Ok(s) => {
                proof {
                    lemma_stmts_push(stmts@, s);
                }
                stmts.push(s);
                assert(stmts_model(stmts@) =~= seq![stmt_model(s)]);
            },
            Err(m) => return Err(m),
        }
    }
    if node.children.len() > 1 {
        match convert_stmt_list(&node.children[1]) {
            Ok(mut rest) => {
                let ghost a = stmts@;
                let ghost b = rest@;
                stmts.append(&mut rest);
                proof {
                    lemma_stmts_concat(a, b);
                }
            },
            Err(m) => return Err(m),
        }
    }
    Ok(stmts)
}

fn convert_stmt(node: &DerivationNode) -> (r: Result<Stmt, String>)
    requires
        !(cv_stmt(tree_view(*node)) is Stuck),
    ensures
        res(r, cv_stmt(tree_view(*node)), |s: Stmt| stmt_model(s)),
    decreases node, 0int,
{
    proof {
        lemma_node(*node);
    }
    if !sym_is(node, "Stmt") {
        return Err(String::from_str("Expected Stmt node"));
    }
    if sym_is(&node.children[0], "ε") {
        return Err(String::from_str("Stmt node has no children"));
    }
    let child = &node.children[0];
    let span = get_span(node);
    if sym_is(child, "Expr") {
        match convert_expr(child) {
            Ok(e) => Ok(Stmt { kind: StmtKind::ExprStmt(e), span }),
            Err(m) => Err(m),
        }
    } else if sym_is(child, "FunctionDef") {
        match convert_function_def(child) {
            Ok(f) => {
                let (name, params, body, return_type) = f;
                Ok(Stmt { kind: StmtKind::FunctionDecl { name, params, body: Box::new(body), return_type }, span })
            },
            Err(m) => Err(m),
        }
    } else if sym_is(child, "TypeDef") {
        match convert_type_def(child) {
            Ok(d) => {
                let (name, type_params, attributes, methods, base_type, base_args) = d;
                Ok(Stmt { kind: StmtKind::TypeDecl { name, type_params, attributes, methods, base_type, base_args }, span })
            },
            Err(m) => Err(m),
        }
    } else if sym_is(child, "WhileStmt") {
        match convert_while(child) {
            Ok(e) => Ok(Stmt { kind: StmtKind::ExprStmt(e), span }),
            Err(m) => Err(m),
        }
    } else if sym_is(child, "ForStmt") {
        match convert_for(child) {
            Ok(e) => Ok(Stmt { kind: StmtKind::ExprStmt(e), span }),
            Err(m) => Err(m),
        }
    } else if sym_is(child, "BlockStmt") {
        match convert_block(child) {
            Ok(e) => Ok(Stmt { kind: StmtKind::ExprStmt(e), span }),
            Err(m) => Err(m),
        }
    } else {
        let mut m = String::from_str("Unsupported statement type: ");
        append_str(&mut m, child.symbol.as_str());
        Err(m)
    }
}

fn convert_expr(node: &DerivationNode) -> (r: Result<Expr, String>)
    requires
        !(cv_expr(tree_view(*node)) is Stuck),
    ensures
        res(r, cv_expr(tree_view(*node)), |e: Expr| expr_model(e)),
    decreases node, 0int,
{
    proof {
        lemma_node(*node);
    }
    if !sym_is(node, "Expr") {
        return Err(String::from_str("Expected Expr node"));
    }
    if sym_is(&node.children[0], "ε") {
        return Err(String::from_str("Expr node has no children"));
    }
    let child = &node.children[0];
    if sym_is(child, "OrExpr") {
        convert_level(0, child)
    } else if sym_is(child, "IfExpr") {
        convert_if(child)
    } else if sym_is(child, "LetExpr") {
        convert_let(child)
    } else {
        let mut m = String::from_str("Unsupported expression type: ");
        append_str(&mut m, child.symbol.as_str());
        Err(m)
    }
}

fn convert_operand(k: usize, node: &DerivationNode) -> (r: Result<Expr, String>)
    requires
        k <= 6,
        !(cv_operand(k as int, tree_view(*node)) is Stuck),
    ensures
        res(r, cv_operand(k as int, tree_view(*node)), |e: Expr| expr_model(e)),
    decreases node, 3int,
{
    if k < 6 {
        convert_level(k + 1, node)
    } else {
        convert_power(node)
    }
}

fn convert_level(k: usize, node: &DerivationNode) -> (r: Result<Expr, String>)
    requires
        k <= 6,
        !(cv_level(k as int, tree_view(*node)) is Stuck),
    ensures
        res(r, cv_level(k as int, tree_view(*node)), |e: Expr| expr_model(e)),
    decreases node, 2int,
{
    proof {
        lemma_node(*node);
    }
    let name = level_name_of(k);
    if !sym_is(node, name) {
        return Err(message3("Expected ", name, " node"));
    }
    if node.children.len() < 2 {
        return Err(message2(name, " requires two children"));
    }
    match convert_operand(k, &node.children[0]) {
        Ok(left) => convert_prime(k, left, &node.children[1]),
        Err(m) => Err(m),
    }
}

fn level_op_of(k: usize, op: &String) -> (r: Result<BinaryOp, String>)
    ensures
        res(r, level_op(k as int, op@), |o: BinaryOp| o),
{
    if k == 0 { Ok(BinaryOp::Or) }
    else if k == 1 { Ok(BinaryOp::And) }
    else if k == 6 { Ok(BinaryOp::Pow) }
    else { convert_binary_op(op) }
}

fn convert_prime(k: usize, left: Expr, node: &DerivationNode) -> (r: Result<Expr, String>)
    requires
        k <= 6,
        !(cv_prime(k as int, expr_model(left), tree_view(*node)) is Stuck),
    ensures
        res(r, cv_prime(k as int, expr_model(left), tree_view(*node)), |e: Expr| expr_model(e)),
    decreases node, 0int,
{
    proof {
        lemma_node(*node);
    }
    if sym_is(&node.children[0], "ε") {
        return Ok(left);
    }
    if node.children.len() < 3 {
        let name = level_name_of(k);
        return Err(message3("Invalid ", name, "' structure"));
    }
    if k == 2 && sym_is(&node.children[0], "IS") {
        match get_token_value(&node.children[1]) {
            Ok(n) => {
                let e = Expr { kind: ExprKind::Is { expr: Box::new(left), class_name: n }, span: None };
                convert_prime(k, e, &node.children[2])
            },
            Err(m) => Err(m),
        }
    } else {
        match level_op_of(k, &node.children[0].symbol) {
            Ok(op) => match convert_operand(k, &node.children[1]) {
                Ok(right) => {
                    let e = Expr { kind: ExprKind::Binary { op, left: Box::new(left), right: Box::new(right) }, span: None };
                    convert_prime(k, e, &node.children[2])
                },
                Err(m) => Err(m),
            },
            Err(m) => Err(m),
        }
    }
}

fn convert_power(node: &DerivationNode) -> (r: Result<Expr, String>)
    requires
        !(cv_power(tree_view(*node)) is Stuck),
    ensures
        res(r, cv_power(tree_view(*node)), |e: Expr| expr_model(e)),
    decreases node, 0int,
{
    proof {
        lemma_node(*node);
    }
    if !sym_is(node, "Power") {
        return Err(String::from_str("Expected Power node"));
    }
    if sym_is(&node.children[0], "ε") {
        return Err(String::from_str("Power node has no children"));
    }
    convert_unary(&node.children[0])
}

fn convert_unary(node: &DerivationNode) -> (r: Result<Expr, String>)
    requires
        !(cv_unary(tree_view(*node)) is Stuck),
    ensures
        res(r, cv_unary(tree_view(*node)), |e: Expr| expr_model(e)),
    decreases node, 0int,
{
    proof {
        lemma_node(*node);
    }
    if !sym_is(node, "Unary") {
        return Err(String::from_str("Expected Unary node"));
    }
    if sym_is(&node.children[0], "ε") {
        return Err(String::from_str("Unary node has no children"));
    }
    let span = get_span(&node.children[0]);
    if node.children.len() == 2 && sym_is(&node.children[0], "MINUS") {
        return match convert_unary(&node.children[1]) {
            Ok(e) => Ok(Expr { kind: ExprKind::Unary { op: UnaryOp::Neg, expr: Box::new(e) }, span }),
            Err(m) => Err(m),
        };
    }
    match convert_primary(&node.children[0]) {
        Ok(p) => if node.children.len() > 1 { convert_as(p, &node.children[1]) } else { Ok(p) },
        Err(m) => Err(m),
    }
}

fn convert_with_tail(e: Expr, node: &DerivationNode) -> (r: Result<Expr, String>)
    requires
        !(with_tail(expr_model(e), tree_view(*node)) is Stuck),
    ensures
        res(r, with_tail(expr_model(e), tree_view(*node)), |x: Expr| expr_model(x)),
    decreases node, 1int,
{
    proof {
        lemma_node(*node);
    }
    if node.children.len() > 1 { convert_tail(e, &node.children[1]) } else { Ok(e) }
}

fn convert_primary(node: &DerivationNode) -> (r: Result<Expr, String>)
    requires
        !(cv_primary(tree_view(*node)) is Stuck),
    ensures
        res(r, cv_primary(tree_view(*node)), |e: Expr| expr_model(e)),
    decreases node, 2int,
{
    proof {
        lemma_node(*node);
    }
    if !sym_is(node, "Primary") {
        return Err(String::from_str("Expected Primary node"));
    }
    if node.children.len() == 0 {
        return Err(String::from_str("Primary node has no children"));
    }
    let child = &node.children[0];
    let span = get_span(child);
    if sym_is(child, "NUMBER") {
        match token_text(child) {
            Some(v) => Ok(Expr { kind: ExprKind::Number(v), span }),
            None => {
                assert(false);
                Err(String::new())
            },
        }
    } else if sym_is(child, "STRING") {
        match token_text(child) {
            Some(v) => Ok(Expr { kind: ExprKind::String(v), span }),
            None => {
                assert(false);
                Err(String::new())
            },
        }
    } else if sym_is(child, "TRUE") {
        Ok(Expr { kind: ExprKind::Boolean(true), span })
    } else if sym_is(child, "FALSE") {
        Ok(Expr { kind: ExprKind::Boolean(false), span })
    } else if sym_is(child, "IDENT") {
        match token_text(child) {
            Some(v) => convert_with_tail(Expr { kind: ExprKind::Variable(v), span }, node),
            None => {
                assert(false);
                Err(String::new())
            },
        }
    } else if sym_is(child, "SELF") {
        convert_with_tail(Expr { kind: ExprKind::SelfExpr, span }, node)
    } else if sym_is(child, "BASE") {
        if node.children.len() < 4 {
            return Err(String::from_str("Invalid BASE expression"));
        }
        match convert_arg_list(&node.children[2]) {
            Ok(args) => Ok(Expr { kind: ExprKind::BaseCall { args }, span }),
            Err(m) => Err(m),
        }
    } else if sym_is(child, "NEW") {
        if node.children.len() < 5 {
            return Err(String::from_str("Invalid NEW expression"));
        }
        match token_text(&node.children[1]) {
            None => Err(String::from_str("Missing type name in NEW expression")),
            Some(class_name) => match convert_arg_list(&node.children[3]) {
                Ok(args) => Ok(Expr { kind: ExprKind::New { class_name, args }, span }),
                Err(m) => Err(m),
            },
        }
    } else if sym_is(child, "LPAREN") {
        if node.children.len() < 3 {
            return Err(String::from_str("Invalid parenthesized expression"));
        }
        convert_expr(&node.children[1])
    } else {
        let mut m = String::from_str("Unsupported primary expression: ");
        append_str(&mut m, child.symbol.as_str());
        Err(m)
    }
}

fn call_on_exec(base: Expr, args: Vec<Expr>) -> (r: Result<Expr, String>)
    ensures
        res(r, call_on(expr_model(base), exprs_model(args@)), |e: Expr| expr_model(e)),
{
    let span = base.span;
    match base.kind {
        ExprKind::Variable(function) => Ok(Expr { kind: ExprKind::Call { function, args }, span }),
        ExprKind::GetAttr { object, attr } => Ok(Expr { kind: ExprKind::MethodCall { object, method: attr, args }, span }),
        _ => Err(String::from_str("Invalid call expression")),
    }
}

fn assign_exec(base: Expr, value: Expr) -> (r: Result<Expr, String>)
    ensures
        res(r, assign_to(expr_model(base), expr_model(value)), |e: Expr| expr_model(e)),
{
    let span = base.span;
    match base.kind {
        ExprKind::Variable(var_name) => Ok(Expr { kind: ExprKind::Assign { var_name, value: Box::new(value) }, span }),
        ExprKind::GetAttr { object, attr } => Ok(Expr { kind: ExprKind::SetAttr { object, attr, value: Box::new(value) }, span }),
        _ => Err(String::from_str("Invalid assignment target")),
    }
}

fn convert_tail(base: Expr, node: &DerivationNode) -> (r: Result<Expr, String>)
    requires
        !(cv_tail(expr_model(base), tree_view(*node)) is Stuck),
    ensures
        res(r, cv_tail(expr_model(base), tree_view(*node)), |e: Expr| expr_model(e)),
    decreases node, 0int,
{
    proof {
        lemma_node(*node);
    }
    if !sym_is(node, "PrimaryTail") {
        return Err(String::from_str("Expected PrimaryTail node"));
    }
    if sym_is(&node.children[0], "ε") {
        return Ok(base);
    }
    let first = &node.children[0];
    if sym_is(first, "LPAREN") {
        if node.children.len() < 4 {
            return Err(String::from_str("Invalid function call"));
        }
        match convert_arg_list(&node.children[1]) {
            Ok(args) => match call_on_exec(base, args) {
                Ok(e) => convert_tail(e, &node.children[3]),
                Err(m) => Err(m),
            },
            Err(m) => Err(m),
        }
    } else if sym_is(first, "DOT") {
        if node.children.len() < 3 {
            return Err(String::from_str("Invalid attribute access"));
        }
        match token_text(&node.children[1]) {
            None => Err(String::from_str("Missing attribute name")),
            Some(attr) => {
                let span = base.span;
                let e = Expr { kind: ExprKind::GetAttr { object: Box::new(base), attr }, span };
                convert_tail(e, &node.children[2])
            },
        }
    } else if sym_is(first, "ASSIGN") || sym_is(first, "ASSIGN_DESTRUCT") {
        if node.children.len() < 2 {
            return Err(String::from_str("Invalid assignment"));
        }
        match convert_expr(&node.children[1]) {
            Ok(v) => assign_exec(base, v),
            Err(m) => Err(m),
        }
    } else {
        Ok(base)
    }
}

fn convert_as(base: Expr, node: &DerivationNode) -> (r: Result<Expr, String>)
    requires
        !(cv_as(expr_model(base), tree_view(*node)) is Stuck),
    ensures
        res(r, cv_as(expr_model(base), tree_view(*node)), |e: Expr| expr_model(e)),
    decreases node, 0int,
{
    proof {
        lemma_node(*node);
    }
    if !sym_is(node, "AsExpr") {
        return Err(String::from_str("Expected AsExpr node"));
    }
    if sym_is(&node.children[0], "ε") {
        return Ok(base);
    }
    if node.children.len() < 3 {
        return Err(String::from_str("Invalid AsExpr structure"));
    }
    match get_token_value(&node.children[1]) {
        Ok(n) => convert_as(Expr { kind: ExprKind::As { expr: Box::new(base), class_name: n }, span: None }, &node.children[2]),
        Err(m) => Err(m),
    }
}

/// The models of `elif` branches.
pub open spec fn elifs_model(v: Seq<(Expr, Expr)>) -> Seq<(ExprModel, ExprModel)> {
    v.map_values(|p: (Expr, Expr)| (expr_model(p.0), expr_model(p.1)))
}

/// Folding one more branch at the end wraps it around the innermost `else`.
proof fn lemma_fold_elifs_push(s: Seq<(ExprModel, ExprModel)>, x: (ExprModel, ExprModel), e: ExprModel)
    ensures
        fold_elifs(s.push(x), e) === fold_elifs(s, bare(ExprKindModel::If(Box::new(x.0), Box::new(x.1), Some(Box::new(e))))),
    decreases s.len(),
{
    let b = bare(ExprKindModel::If(Box::new(x.0), Box::new(x.1), Some(Box::new(e))));
    let sx = s.push(x);
    if s.len() > 0 {
        assert(sx.drop_first() =~= s.drop_first().push(x));
        assert(sx[0] == s[0]);
        lemma_fold_elifs_push(s.drop_first(), x, e);
        assert(fold_elifs(sx, e) === bare(ExprKindModel::If(Box::new(s[0].0), Box::new(s[0].1),
            Some(Box::new(fold_elifs(sx.drop_first(), e))))));
        assert(fold_elifs(s, b) === bare(ExprKindModel::If(Box::new(s[0].0), Box::new(s[0].1),
            Some(Box::new(fold_elifs(s.drop_first(), b))))));
    } else {
        assert(sx.drop_first() =~= Seq::<(ExprModel, ExprModel)>::empty());
        assert(sx[0] == x);
        assert(fold_elifs(sx.drop_first(), e) === e);
        assert(fold_elifs(sx, e) === b);
        assert(fold_elifs(s, b) === b);
    }
}

fn convert_if(node: &DerivationNode) -> (r: Result<Expr, String>)
    requires
        !(cv_if(tree_view(*node)) is Stuck),
    ensures
        res(r, cv_if(tree_view(*node)), |e: Expr| expr_model(e)),
    decreases node, 0int,
{
    proof {
        lemma_node(*node);
    }
    if !sym_is(node, "IfExpr") {
        return Err(String::from_str("Expected IfExpr node"));
    }
    if node.children.len() < 8 {
        return Err(String::from_str("Invalid IfExpr structure"));
    }
    let condition = match convert_expr(&node.children[2]) {
        Ok(e) => e,
        Err(m) => return Err(m),
    };
    let then_branch = match convert_body(&node.children[4], "IfBody") {
        Ok(e) => e,
        Err(m) => return Err(m),
    };
    let mut elifs = match convert_elif_list(&node.children[5]) {
        Ok(v) => v,
        Err(m) => return Err(m),
    };
    let else_branch = match convert_body(&node.children[7], "IfBody") {
        Ok(e) => e,
        Err(m) => return Err(m),
    };
    let ghost all = elifs_model(elifs@);
    let ghost els = expr_model(else_branch);
    let mut current = else_branch;
    while elifs.len() > 0
        invariant
            fold_elifs(all, els) == fold_elifs(elifs_model(elifs@), expr_model(current)),
        decreases elifs@.len(),
    {
        let ghost before = elifs@;
        let (c, th) = elifs.pop().unwrap();
        proof {
            assert(elifs_model(before) =~= elifs_model(elifs@).push((expr_model(c), expr_model(th))));
            lemma_fold_elifs_push(elifs_model(elifs@), (expr_model(c), expr_model(th)), expr_model(current));
        }
        current = Expr {
            kind: ExprKind::If { condition: Box::new(c), then_branch: Box::new(th), else_branch: Some(Box::new(current)) },
            span: None,
        };
    }
    assert(elifs_model(elifs@) =~= Seq::<(ExprModel, ExprModel)>::empty());
    let span = get_span(node);
    Ok(Expr {
        kind: ExprKind::If { condition: Box::new(condition), then_branch: Box::new(then_branch), else_branch: Some(Box::new(current)) },
        span,
    })
}

/// The models of `let` bindings.
pub open spec fn bindings_model(v: Seq<(String, Expr, Option<Type>)>) -> Seq<(Seq<char>, ExprModel, Option<TypeModel>)> {
    v.map_values(|b: (String, Expr, Option<Type>)| (b.0@, expr_model(b.1), opt_type_model(b.2)))
}

/// Folding one more binding at the end wraps it around the body.
proof fn lemma_fold_bindings_push(s: Seq<(Seq<char>, ExprModel, Option<TypeModel>)>, x: (Seq<char>, ExprModel, Option<TypeModel>), e: ExprModel)
    ensures
        fold_bindings(s.push(x), e) === fold_bindings(s, bare(ExprKindModel::Let(x.0, Box::new(x.1), Box::new(e), x.2))),
    decreases s.len(),
{
    let b = bare(ExprKindModel::Let(x.0, Box::new(x.1), Box::new(e), x.2));
    let sx = s.push(x);
    if s.len() > 0 {
        assert(sx.drop_first() =~= s.drop_first().push(x));
        assert(sx[0] == s[0]);
        lemma_fold_bindings_push(s.drop_first(), x, e);
        assert(fold_bindings(sx, e) === bare(ExprKindModel::Let(s[0].0, Box::new(s[0].1),
            Box::new(fold_bindings(sx.drop_first(), e)), s[0].2)));
        assert(fold_bindings(s, b) === bare(ExprKindModel::Let(s[0].0, Box::new(s[0].1),
            Box::new(fold_bindings(s.drop_first(), b)), s[0].2)));
    } else {
        assert(sx.drop_first() =~= Seq::<(Seq<char>, ExprModel, Option<TypeModel>)>::empty());
        assert(sx[0] == x);
        assert(fold_bindings(sx.drop_first(), e) === e);
        assert(fold_bindings(sx, e) === b);
        assert(fold_bindings(s, b) === b);
    }
}

fn convert_let(node: &DerivationNode) -> (r: Result<Expr, String>)
    requires
        !(cv_let(tree_view(*node)) is Stuck),
    ensures
        res(r, cv_let(tree_view(*node)), |e: Expr| expr_model(e)),
    decreases node, 0int,
{
    proof {
        lemma_node(*node);
    }
    if !sym_is(node, "LetExpr") {
        return Err(String::from_str("Expected LetExpr node"));
    }
    if node.children.len() < 4 {
        return Err(String::from_str("Invalid LetExpr structure"));
    }
    let mut bindings = match convert_bindings(&node.children[1]) {
        Ok(v) => v,
        Err(m) => return Err(m),
    };
    let body = match convert_body(&node.children[3], "LetBody") {
        Ok(e) => e,
        Err(m) => return Err(m),
    };
    let ghost all = bindings_model(bindings@);
    let ghost b0 = expr_model(body);
    let mut current = body;
    while bindings.len() > 0
        invariant
            fold_bindings(all, b0) == fold_bindings(bindings_model(bindings@), expr_model(current)),
        decreases bindings@.len(),
    {
        let ghost before = bindings@;
        let (name, value, declared_type) = bindings.pop().unwrap();
        proof {
            assert(bindings_model(before) =~= bindings_model(bindings@).push((name@, expr_model(value), opt_type_model(declared_type))));
            lemma_fold_bindings_push(bindings_model(bindings@), (name@, expr_model(value), opt_type_model(declared_type)), expr_model(current));
        }
        current = Expr {
            kind: ExprKind::Let { name, value: Box::new(value), body: Box::new(current), declared_type },
            span: None,
        };
    }
    assert(bindings_model(bindings@) =~= Seq::<(Seq<char>, ExprModel, Option<TypeModel>)>::empty());
    Ok(current)
}

fn convert_while(node: &DerivationNode) -> (r: Result<Expr, String>)
    requires
        !(cv_while(tree_view(*node)) is Stuck),
    ensures
        res(r, cv_while(tree_view(*node)), |e: Expr| expr_model(e)),
    decreases node, 0int,
{
    proof {
        lemma_node(*node);
    }
    if !sym_is(node, "WhileStmt") {
        return Err(String::from_str("Expected WhileStmt node"));
    }
    if node.children.len() < 3 {
        return Err(String::from_str("Invalid WhileStmt structure"));
    }
    let condition = match convert_expr(&node.children[1]) {
        Ok(e) => e,
        Err(m) => return Err(m),
    };
    let body = match convert_body(&node.children[2], "WhileBody") {
        Ok(e) => e,
        Err(m) => return Err(m),
    };
    let span = get_span(node);
    Ok(Expr { kind: ExprKind::While { condition: Box::new(condition), body: Box::new(body) }, span })
}

fn convert_for(node: &DerivationNode) -> (r: Result<Expr, String>)
    requires
        !(cv_for(tree_view(*node)) is Stuck),
    ensures
        res(r, cv_for(tree_view(*node)), |e: Expr| expr_model(e)),
    decreases node, 0int,
{
    proof {
        lemma_node(*node);
    }
    if !sym_is(node, "ForStmt") {
        return Err(String::from_str("Expected ForStmt node"));
    }
    if node.children.len() < 7 {
        return Err(String::from_str("Invalid ForStmt structure"));
    }
    let iterator = match get_token_value(&node.children[2]) {
        Ok(s) => s,
        Err(m) => return Err(m),
    };
    let collection = match convert_expr(&node.children[4]) {
        Ok(e) => e,
        Err(m) => return Err(m),
    };
    let body = match convert_body(&node.children[6], "ForBody") {
        Ok(e) => e,
        Err(m) => return Err(m),
    };
    let span = get_span(node);
    Ok(Expr { kind: ExprKind::For { iterator, collection: Box::new(collection), body: Box::new(body) }, span })
}

fn convert_block(node: &DerivationNode) -> (r: Result<Expr, String>)
    requires
        !(cv_block(tree_view(*node)) is Stuck),
    ensures
        res(r, cv_block(tree_view(*node)), |e: Expr| expr_model(e)),
    decreases node, 0int,
{
    proof {
        lemma_node(*node);
    }
    if !sym_is(node, "BlockStmt") {
        return Err(String::from_str("Expected BlockStmt node"));
    }
    if node.children.len() < 3 {
        return Err(String::from_str("Invalid BlockStmt structure"));
    }
    match convert_stmt_list(&node.children[1]) {
        Ok(stmts) => {
            let span = get_span(node);
            Ok(Expr { kind: ExprKind::Block { stmts }, span })
        },
        Err(m) => Err(m),
    }
}

fn convert_body(node: &DerivationNode, name: &str) -> (r: Result<Expr, String>)
    requires
        !(cv_body(tree_view(*node), name@) is Stuck),
    ensures
        res(r, cv_body(tree_view(*node), name@), |e: Expr| expr_model(e)),
    decreases node, 1int,
{
    proof {
        lemma_node(*node);
    }
    if !sym_is(node, name) {
        return Err(message2("Invalid ", name));
    }
    if node.children[0].children.len() == 0 {
        return Err(message2("Invalid ", name));
    }
    let child = &node.children[0];
    let is_let = str_is(&String::from_str(name), "LetBody");
    if sym_is(child, "BlockStmt") {
        convert_block(child)
    } else if sym_is(child, "Expr") {
        convert_expr(child)
    } else if is_let && sym_is(child, "WhileStmt") {
        convert_while(child)
    } else if is_let && sym_is(child, "ForStmt") {
        convert_for(child)
    } else {
        Err(message2("Unsupported ", name))
    }
}

fn convert_elif_list(node: &DerivationNode) -> (r: Result<Vec<(Expr, Expr)>, String>)
    requires
        !(cv_elif_list(tree_view(*node)) is Stuck),
    ensures
        res(r, cv_elif_list(tree_view(*node)), |v: Vec<(Expr, Expr)>| elifs_model(v@)),
    decreases node, 2int,
{
    proof {
        lemma_node(*node);
    }
    if !sym_is(node, "ElifList") {
        return Err(String::from_str("Expected ElifList node"));
    }
    let ghost ks = kids(tree_view(*node));
    let mut out: Vec<(Expr, Expr)> = Vec::new();
    assert(elifs_model(out@) =~= Seq::<(ExprModel, ExprModel)>::empty());
    assert(after(elifs_model(out@), cv_elifs_from(ks, 0)) == cv_elifs_from(ks, 0)) by {
        if let Conv::Done(r) = cv_elifs_from(ks, 0) {
            assert(elifs_model(out@) + r =~= r);
        }
    }
    let mut i: usize = 0;
    while i < node.children.len()
        invariant
            ks == kids(tree_view(*node)),
            ks.len() == node.children@.len(),
            forall|j: int| 0 <= j < node.children@.len() ==> #[trigger] ks[j] == tree_view(node.children@[j]),
            i <= ks.len(),
            !(cv_elif_list(tree_view(*node)) is Stuck),
            sym(tree_view(*node)) == "ElifList"@,
            cv_elifs_from(ks, 0) == after(elifs_model(out@), cv_elifs_from(ks, i as int)),
        decreases ks.len() - i,
    {
        let child = &node.children[i];
        if sym_is(child, "ElifBranch") {
            match convert_elif_branch(child) {
                Ok(b) => {
                    let ghost m = (expr_model(b.0), expr_model(b.1));
                    proof {
                        lemma_after_cons(elifs_model(out@), m, cv_elifs_from(ks, i + 1));
                    }
                    let ghost before = out@;
                    out.push(b);
                    assert(elifs_model(out@) =~= elifs_model(before).push(m));
                },
                Err(e) => return Err(e),
            }
        }
        i += 1;
    }
    assert(elifs_model(out@) + Seq::<(ExprModel, ExprModel)>::empty() =~= elifs_model(out@));
    Ok(out)
}

fn convert_elif_branch(node: &DerivationNode) -> (r: Result<(Expr, Expr), String>)
    requires
        !(cv_elif_branch(tree_view(*node)) is Stuck),
    ensures
        res(r, cv_elif_branch(tree_view(*node)), |b: (Expr, Expr)| (expr_model(b.0), expr_model(b.1))),
    decreases node, 0int,
{
    proof {
        lemma_node(*node);
    }
    if !sym_is(node, "ElifBranch") || node.children.len() < 5 {
        return Err(String::from_str("Invalid ElifBranch"));
    }
    let condition = match convert_expr(&node.children[2]) {
        Ok(e) => e,
        Err(m) => return Err(m),
    };
    match convert_body(&node.children[4], "IfBody") {
        Ok(b) => Ok((condition, b)),
        Err(m) => Err(m),
    }
}

fn convert_bindings(node: &DerivationNode) -> (r: Result<Vec<(String, Expr, Option<Type>)>, String>)
    requires
        !(cv_bindings(tree_view(*node)) is Stuck),
    ensures
        res(r, cv_bindings(tree_view(*node)), |v: Vec<(String, Expr, Option<Type>)>| bindings_model(v@)),
    decreases node, 2int,
{
    proof {
        lemma_node(*node);
    }
    if !sym_is(node, "VarBindingList") {
        return Err(String::from_str("Expected VarBindingList node"));
    }
    let ghost ks = kids(tree_view(*node));
    let mut out: Vec<(String, Expr, Option<Type>)> = Vec::new();
    assert(bindings_model(out@) =~= Seq::<(Seq<char>, ExprModel, Option<TypeModel>)>::empty());
    assert(after(bindings_model(out@), cv_bindings_from(ks, 0)) == cv_bindings_from(ks, 0)) by {
        if let Conv::Done(r) = cv_bindings_from(ks, 0) {
            assert(bindings_model(out@) + r =~= r);
        }
    }
    let mut i: usize = 0;
    while i < node.children.len()
        invariant
            ks == kids(tree_view(*node)),
            ks.len() == node.children@.len(),
            forall|j: int| 0 <= j < node.children@.len() ==> #[trigger] ks[j] == tree_view(node.children@[j]),
            i <= ks.len(),
            !(cv_bindings(tree_view(*node)) is Stuck),
            sym(tree_view(*node)) == "VarBindingList"@,
            cv_bindings_from(ks, 0) == after(bindings_model(out@), cv_bindings_from(ks, i as int)),
        decreases ks.len() - i,
    {
        let child = &node.children[i];
        if sym_is(child, "VarBinding") {
            match convert_binding(child) {
                Ok(b) => {
                    let ghost m = (b.0@, expr_model(b.1), opt_type_model(b.2));
                    proof {
                        lemma_after_cons(bindings_model(out@), m, cv_bindings_from(ks, i + 1));
                    }
                    let ghost before = out@;
                    out.push(b);
                    assert(bindings_model(out@) =~= bindings_model(before).push(m));
                },
                Err(e) => return Err(e),
            }
        }
        i += 1;
    }
    assert(bindings_model(out@) + Seq::<(Seq<char>, ExprModel, Option<TypeModel>)>::empty() =~= bindings_model(out@));
    Ok(out)
}

fn convert_binding(node: &DerivationNode) -> (r: Result<(String, Expr, Option<Type>), String>)
    requires
        !(cv_binding(tree_view(*node)) is Stuck),
    ensures
        res(r, cv_binding(tree_view(*node)), |b: (String, Expr, Option<Type>)| (b.0@, expr_model(b.1), opt_type_model(b.2))),
    decreases node, 0int,
{
    proof {
        lemma_node(*node);
    }
    if !sym_is(node, "VarBinding") || node.children.len() < 4 {
        return Err(String::from_str("Invalid VarBinding"));
    }
    let name = match get_token_value(&node.children[0]) {
        Ok(s) => s,
        Err(m) => return Err(m),
    };
    let declared_type = match convert_type_annotation(&node.children[1]) {
        Ok(t) => t,
        Err(m) => return Err(m),
    };
    match convert_expr(&node.children[3]) {
        Ok(v) => Ok((name, v, declared_type)),
        Err(m) => Err(m),
    }
}

fn convert_arg_list(node: &DerivationNode) -> (r: Result<Vec<Expr>, String>)
    requires
        !(cv_arg_list(tree_view(*node)) is Stuck),
    ensures
        res(r, cv_arg_list(tree_view(*node)), |v: Vec<Expr>| exprs_model(v@)),
    decreases node, 2int,
{
    proof {
        lemma_node(*node);
    }
    if !sym_is(node, "ArgList") {
        return Err(String::from_str("Expected ArgList node"));
    }
    proof {
        lemma_node(node.children@[0]);
    }
    let mut args: Vec<Expr> = Vec::new();
    assert(exprs_model(args@) =~= Seq::<ExprModel>::empty());
    if node.children[0].children.len() == 0 {
        return Ok(args);
    }
    match convert_expr(&node.children[0].children[0]) {
        Ok(a) => {
            proof {
                lemma_exprs_push(args@, a);
            }
            args.push(a);
            assert(exprs_model(args@) =~= seq![expr_model(a)]);
        },
        Err(m) => return Err(m),
    }
    if node.children.len() > 1 {
        match convert_arg_tail(&node.children[1]) {
            Ok(mut rest) => {
                let ghost a = args@;
                let ghost b = rest@;
                args.append(&mut rest);
                proof {
                    lemma_exprs_concat(a, b);
                }
            },
            Err(m) => return Err(m),
        }
    }
    Ok(args)
}

#[verifier::rlimit(60)]
fn convert_arg_tail(node: &DerivationNode) -> (r: Result<Vec<Expr>, String>)
    requires
        !(cv_arg_tail(tree_view(*node)) is Stuck),
    ensures
        res(r, cv_arg_tail(tree_view(*node)), |v: Vec<Expr>| exprs_model(v@)),
    decreases node, 1int,
{
    proof {
        lemma_node(*node);
    }
    if !sym_is(node, "ArgListTail") {
        return Err(String::from_str("Expected ArgListTail node"));
    }
    proof {
        lemma_node(node.children@[0]);
    }
    let mut args: Vec<Expr> = Vec::new();
    assert(exprs_model(args@) =~= Seq::<ExprModel>::empty());
    if node.children[0].children.len() == 0 {
        return Ok(args);
    }
    let ghost ks = kids(tree_view(*node));
    assert(after(exprs_model(args@), cv_exprs_from(ks, 1)) == cv_exprs_from(ks, 1)) by {
        if let Conv::Done(r) = cv_exprs_from(ks, 1) {
            assert(exprs_model(args@) + r =~= r);
        }
    }
    let mut i: usize = 1;
    while i < node.children.len()
        invariant
            ks == kids(tree_view(*node)),
            ks.len() == node.children@.len(),
            forall|j: int| 0 <= j < node.children@.len() ==> #[trigger] ks[j] == tree_view(node.children@[j]),
            1 <= i <= ks.len() + 1,
            !(cv_arg_tail(tree_view(*node)) is Stuck),
            cv_arg_tail(tree_view(*node)) == cv_exprs_from(ks, 1),
            cv_exprs_from(ks, 1) == after(exprs_model(args@), cv_exprs_from(ks, i as int)),
        decreases ks.len() + 2 - i,
    {
        match convert_expr(&node.children[i]) {
            Ok(a) => {
                proof {
                    lemma_after_cons(exprs_model(args@), expr_model(a), cv_exprs_from(ks, i + 2));
                    lemma_exprs_push(args@, a);
                }
                args.push(a);
            },
            Err(e) => return Err(e),
        }
        if node.children.len() - i <= 2 {
            i = node.children.len();
        } else {
            i = i + 2;
        }
    }
    assert(exprs_model(args@) + Seq::<ExprModel>::empty() =~= exprs_model(args@));
    Ok(args)
}

fn convert_type_annotation(node: &DerivationNode) -> (r: Result<Option<Type>, String>)
    requires
        !(cv_type_annotation(tree_view(*node)) is Stuck),
    ensures
        res(r, cv_type_annotation(tree_view(*node)), |t: Option<Type>| opt_type_model(t)),
{
    proof {
        lemma_node(*node);
    }
    if !sym_is(node, "TypeAnnotation") {
        return Ok(None);
    }
    proof {
        lemma_node(node.children@[0]);
    }
    if node.children[0].children.len() == 0 {
        return Ok(None);
    }
    if node.children.len() < 2 {
        return Err(String::from_str("Invalid type annotation"));
    }
    match token_text(&node.children[1]) {
        None => Err(String::from_str("Missing type name")),
        Some(n) => Ok(Some(type_named(n))),
    }
}

fn convert_params(node: &DerivationNode) -> (r: Result<Vec<(String, Option<Type>)>, String>)
    requires
        !(cv_params(tree_view(*node)) is Stuck),
    ensures
        res(r, cv_params(tree_view(*node)), |v: Vec<(String, Option<Type>)>| params_model(v@)),
{
    proof {
        lemma_node(*node);
    }
    if !sym_is(node, "ArgIdList") {
        return Err(String::from_str("Expected ArgIdList node"));
    }
    let ghost ks = kids(tree_view(*node));
    let mut out: Vec<(String, Option<Type>)> = Vec::new();
    assert(params_model(out@) =~= Seq::<(Seq<char>, Option<TypeModel>)>::empty());
    assert(after(params_model(out@), cv_params_from(ks, 0)) == cv_params_from(ks, 0)) by {
        if let Conv::Done(r) = cv_params_from(ks, 0) {
            assert(params_model(out@) + r =~= r);
        }
    }
    let mut i: usize = 0;
    while i < node.children.len()
        invariant
            ks == kids(tree_view(*node)),
            ks.len() == node.children@.len(),
            forall|j: int| 0 <= j < node.children@.len() ==> #[trigger] ks[j] == tree_view(node.children@[j]),
            i <= ks.len(),
            !(cv_params(tree_view(*node)) is Stuck),
            sym(tree_view(*node)) == "ArgIdList"@,
            cv_params_from(ks, 0) == after(params_model(out@), cv_params_from(ks, i as int)),
        decreases ks.len() - i,
    {
        let child = &node.children[i];
        proof {
            lemma_node(*child);
        }
        if sym_is(child, "ArgId") && child.children.len() >= 2 {
            let name = match token_text(&child.children[0]) {
                Some(n) => n,
                None => return Err(String::from_str("Missing parameter name")),
            };
            let ty = match convert_type_annotation(&child.children[1]) {
                Ok(t) => t,
                Err(e) => return Err(e),
            };
            let ghost m = (name@, opt_type_model(ty));
            proof {
                lemma_after_cons(params_model(out@), m, cv_params_from(ks, i + 1));
            }
            let ghost before = out@;
            out.push((name, ty));
            assert(params_model(out@) =~= params_model(before).push(m));
        }
        i += 1;
    }
    assert(params_model(out@) + Seq::<(Seq<char>, Option<TypeModel>)>::empty() =~= params_model(out@));
    Ok(out)
}

fn convert_function_body(node: &DerivationNode) -> (r: Result<Stmt, String>)
    requires
        !(cv_function_body(tree_view(*node)) is Stuck),
    ensures
        res(r, cv_function_body(tree_view(*node)), |s: Stmt| stmt_model(s)),
    decreases node, 1int,
{
    proof {
        lemma_node(*node);
        lemma_node(node.children@[0]);
    }
    if node.children[0].children.len() == 0 {
        return Err(String::from_str("Empty function body"));
    }
    let child = &node.children[0];
    if sym_is(child, "ARROW") {
        if node.children.len() < 2 {
            return Err(String::from_str("Invalid arrow function"));
        }
        match convert_expr(&node.children[1]) {
            Ok(e) => {
                let span = get_span(child);
                Ok(Stmt { kind: StmtKind::ExprStmt(e), span })
            },
            Err(m) => Err(m),
        }
    } else if sym_is(child, "BlockStmt") {
        convert_stmt(child)
    } else {
        Err(String::from_str("Unsupported function body"))
    }
}

fn convert_function_def(node: &DerivationNode) -> (r: Result<(String, Vec<(String, Option<Type>)>, Stmt, Option<Type>), String>)
    requires
        !(cv_function_def(tree_view(*node)) is Stuck),
    ensures
        res(r, cv_function_def(tree_view(*node)),
            |f: (String, Vec<(String, Option<Type>)>, Stmt, Option<Type>)| (f.0@, params_model(f.1@), stmt_model(f.2), opt_type_model(f.3))),
    decreases node, 2int,
{
    proof {
        lemma_node(*node);
    }
    if !sym_is(node, "FunctionDef") {
        return Err(String::from_str("Expected FunctionDef node"));
    }
    if node.children.len() < 7 {
        return Err(String::from_str("Invalid FunctionDef structure"));
    }
    let name = match token_text(&node.children[1]) {
        Some(n) => n,
        None => return Err(String::from_str("Missing function name")),
    };
    let params = match convert_params(&node.children[3]) {
        Ok(p) => p,
        Err(m) => return Err(m),
    };
    let return_type = match convert_type_annotation(&node.children[5]) {
        Ok(t) => t,
        Err(m) => return Err(m),
    };
    match convert_function_body(&node.children[6]) {
        Ok(body) => Ok((name, params, body, return_type)),
        Err(m) => Err(m),
    }
}

fn convert_type_params(node: &DerivationNode) -> (r: Result<Vec<String>, String>)
    ensures
        res(r, cv_type_params(tree_view(*node)), |v: Vec<String>| names_model(v@)),
{
    proof {
        lemma_node(*node);
    }
    if !sym_is(node, "TypeParams") {
        return Err(String::from_str("Expected TypeParams node"));
    }
    let ghost ks = kids(tree_view(*node));
    let mut out: Vec<String> = Vec::new();
    assert(names_model(out@) + idents_from(ks, 0) =~= idents_from(ks, 0));
    let mut i: usize = 0;
    while i < node.children.len()
        invariant
            ks == kids(tree_view(*node)),
            ks.len() == node.children@.len(),
            forall|j: int| 0 <= j < node.children@.len() ==> #[trigger] ks[j] == tree_view(node.children@[j]),
            i <= ks.len(),
            idents_from(ks, 0) == names_model(out@) + idents_from(ks, i as int),
        decreases ks.len() - i,
    {
        let child = &node.children[i];
        if sym_is(child, "IDENT") {
            match token_text(child) {
                Some(n) => {
                    let ghost before = names_model(out@);
                    out.push(n);
                    assert(names_model(out@) =~= before.push(n@));
                    assert(before + idents_from(ks, i as int) =~= names_model(out@) + idents_from(ks, i + 1));
                },
                None => {},
            }
        } else {
            proof {
                lemma_node(*child);
            }
        }
        i += 1;
    }
    assert(names_model(out@) + idents_from(ks, i as int) =~= names_model(out@));
    Ok(out)
}

fn convert_inheritance(node: &DerivationNode) -> (r: Result<(String, Vec<Expr>), String>)
    requires
        !(cv_inheritance(tree_view(*node)) is Stuck),
    ensures
        res(r, cv_inheritance(tree_view(*node)), |b: (String, Vec<Expr>)| (b.0@, exprs_model(b.1@))),
    decreases node, 2int,
{
    proof {
        lemma_node(*node);
    }
    if !sym_is(node, "TypeInheritance") {
        let v: Vec<Expr> = Vec::new();
        assert(exprs_model(v@) =~= Seq::<ExprModel>::empty());
        return Ok((String::from_str("Object"), v));
    }
    proof {
        lemma_node(node.children@[0]);
    }
    if node.children[0].children.len() == 0 {
        let v: Vec<Expr> = Vec::new();
        assert(exprs_model(v@) =~= Seq::<ExprModel>::empty());
        return Ok((String::from_str("Object"), v));
    }
    if node.children.len() < 3 {
        return Err(String::from_str("Invalid TypeInheritance structure"));
    }
    let base = match get_token_value(&node.children[1]) {
        Ok(s) => s,
        Err(m) => return Err(m),
    };
    match convert_base_args(&node.children[2]) {
        Ok(args) => Ok((base, args)),
        Err(m) => Err(m),
    }
}

fn convert_base_args(node: &DerivationNode) -> (r: Result<Vec<Expr>, String>)
    requires
        !(cv_base_args(tree_view(*node)) is Stuck),
    ensures
        res(r, cv_base_args(tree_view(*node)), |v: Vec<Expr>| exprs_model(v@)),
    decreases node, 1int,
{
    proof {
        lemma_node(*node);
    }
    let v: Vec<Expr> = Vec::new();
    assert(exprs_model(v@) =~= Seq::<ExprModel>::empty());
    if !sym_is(node, "TypeBaseArgs") {
        return Ok(v);
    }
    proof {
        lemma_node(node.children@[0]);
    }
    if node.children[0].children.len() == 0 {
        return Ok(v);
    }
    if node.children.len() < 3 {
        return Err(String::from_str("Invalid TypeBaseArgs structure"));
    }
    convert_arg_list(&node.children[1])
}

fn convert_type_def(node: &DerivationNode)
    -> (r: Result<(String, Vec<String>, Vec<AttributeDecl>, Vec<MethodDecl>, String, Vec<Expr>), String>)
    requires
        !(cv_type_def(tree_view(*node)) is Stuck),
    ensures
        res(r, cv_type_def(tree_view(*node)),
            |d: (String, Vec<String>, Vec<AttributeDecl>, Vec<MethodDecl>, String, Vec<Expr>)|
                (d.0@, names_model(d.1@), attrs_model(d.2@), methods_model(d.3@), d.4@, exprs_model(d.5@))),
    decreases node, 3int,
{
    proof {
        lemma_node(*node);
    }
    if !sym_is(node, "TypeDef") {
        return Err(String::from_str("Expected TypeDef node"));
    }
    if node.children.len() < 7 {
        return Err(String::from_str("Invalid TypeDef structure"));
    }
    let name = match token_text(&node.children[1]) {
        Some(n) => n,
        None => return Err(String::from_str("Missing type name")),
    };
    let type_params = match convert_type_params(&node.children[2]) {
        Ok(p) => p,
        Err(m) => return Err(m),
    };
    let (base_type, base_args) = match convert_inheritance(&node.children[3]) {
        Ok(b) => b,
        Err(m) => return Err(m),
    };
    match convert_type_body(&node.children[5]) {
        Ok(body) => {
            let (attributes, methods) = body;
            Ok((name, type_params, attributes, methods, base_type, base_args))
        },
        Err(m) => Err(m),
    }
}

/// The models of the attributes and methods of a type body.
pub open spec fn members_model(b: (Vec<AttributeDecl>, Vec<MethodDecl>)) -> (Seq<AttrModel>, Seq<MethodModel>) {
    (attrs_model(b.0@), methods_model(b.1@))
}

/// The models of a member's optional attribute and method.
pub open spec fn member_model(m: (Option<AttributeDecl>, Option<MethodDecl>)) -> (Option<AttrModel>, Option<MethodModel>) {
    (
        match m.0 { Some(a) => Some(attr_model(a)), None => None },
        match m.1 { Some(x) => Some(method_model(x)), None => None },
    )
}

/// Members found so far, followed by the rest.
pub open spec fn members_after(acc: (Seq<AttrModel>, Seq<MethodModel>), c: Conv<(Seq<AttrModel>, Seq<MethodModel>)>)
    -> Conv<(Seq<AttrModel>, Seq<MethodModel>)> {
    match c {
        Conv::Done(r) => Conv::Done((acc.0 + r.0, acc.1 + r.1)),
        Conv::Fail(m) => Conv::Fail(m),
        Conv::Stuck => Conv::Stuck,
    }
}

#[verifier::rlimit(60)]
fn convert_type_body(node: &DerivationNode) -> (r: Result<(Vec<AttributeDecl>, Vec<MethodDecl>), String>)
    requires
        !(cv_type_body(tree_view(*node)) is Stuck),
    ensures
        res(r, cv_type_body(tree_view(*node)), |b: (Vec<AttributeDecl>, Vec<MethodDecl>)| members_model(b)),
    decreases node, 2int,
{
    proof {
        lemma_node(*node);
    }
    if !sym_is(node, "TypeBody") {
        return Err(String::from_str("Expected TypeBody node"));
    }
    let ghost ks = kids(tree_view(*node));
    let mut attributes: Vec<AttributeDecl> = Vec::new();
    let mut methods: Vec<MethodDecl> = Vec::new();
    assert(attrs_model(attributes@) =~= Seq::<AttrModel>::empty());
    assert(methods_model(methods@) =~= Seq::<MethodModel>::empty());
    assert(members_after((attrs_model(attributes@), methods_model(methods@)), cv_members_from(ks, 0)) == cv_members_from(ks, 0)) by {
        if let Conv::Done(r) = cv_members_from(ks, 0) {
            assert(attrs_model(attributes@) + r.0 =~= r.0);
            assert(methods_model(methods@) + r.1 =~= r.1);
        }
    }
    let mut i: usize = 0;
    while i < node.children.len()
        invariant
            ks == kids(tree_view(*node)),
            ks.len() == node.children@.len(),
            forall|j: int| 0 <= j < node.children@.len() ==> #[trigger] ks[j] == tree_view(node.children@[j]),
            i <= ks.len(),
            !(cv_type_body(tree_view(*node)) is Stuck),
            sym(tree_view(*node)) == "TypeBody"@,
            cv_members_from(ks, 0) == members_after((attrs_model(attributes@), methods_model(methods@)), cv_members_from(ks, i as int)),
        decreases ks.len() - i,
    {
        let child = &node.children[i];
        if sym_is(child, "TypeMember") {
            match convert_type_member(child) {
                Ok(m) => {
                    let ghost am = attrs_model(attributes@);
                    let ghost mm = methods_model(methods@);
                    let ghost mmod = member_model(m);
                    let (a, x) = m;
                    match a {
                        Some(a) => {
                            proof {
                                lemma_attrs_push(attributes@, a);
                            }
                            attributes.push(a);
                        },
                        None => {},
                    }
                    match x {
                        Some(x) => {
                            proof {
                                lemma_methods_push(methods@, x);
                            }
                            methods.push(x);
                        },
                        None => {},
                    }
                    proof {
                        assert(attrs_model(attributes@) == am + match mmod.0 { Some(v) => seq![v], None => Seq::<AttrModel>::empty() }) by {
                            if mmod.0 is None {
                                assert(am + Seq::<AttrModel>::empty() =~= am);
                            } else {
                                assert(am.push(mmod.0.unwrap()) =~= am + seq![mmod.0.unwrap()]);
                            }
                        }
                        assert(methods_model(methods@) == mm + match mmod.1 { Some(v) => seq![v], None => Seq::<MethodModel>::empty() }) by {
                            if mmod.1 is None {
                                assert(mm + Seq::<MethodModel>::empty() =~= mm);
                            } else {
                                assert(mm.push(mmod.1.unwrap()) =~= mm + seq![mmod.1.unwrap()]);
                            }
                        }
                        if let Conv::Done(r) = cv_members_from(ks, i + 1) {
                            let c = cons_members(mmod, r);
                            assert(am + c.0 =~= attrs_model(attributes@) + r.0);
                            assert(mm + c.1 =~= methods_model(methods@) + r.1);
                        }
                    }
                },
                Err(e) => return Err(e),
            }
        }
        i += 1;
    }
    assert(attrs_model(attributes@) + Seq::<AttrModel>::empty() =~= attrs_model(attributes@));
    assert(methods_model(methods@) + Seq::<MethodModel>::empty() =~= methods_model(methods@));
    Ok((attributes, methods))
}

fn convert_type_member(node: &DerivationNode) -> (r: Result<(Option<AttributeDecl>, Option<MethodDecl>), String>)
    requires
        !(cv_type_member(tree_view(*node)) is Stuck),
    ensures
        res(r, cv_type_member(tree_view(*node)), |m: (Option<AttributeDecl>, Option<MethodDecl>)| member_model(m)),
    decreases node, 1int,
{
    proof {
        lemma_node(*node);
    }
    if !sym_is(node, "TypeMember") || node.children.len() < 2 {
        return Ok((None, None));
    }
    match get_token_value(&node.children[0]) {
        Ok(name) => convert_member_tail(name, &node.children[1]),
        Err(m) => Err(m),
    }
}

fn convert_member_tail(name: String, node: &DerivationNode) -> (r: Result<(Option<AttributeDecl>, Option<MethodDecl>), String>)
    requires
        !(cv_member_tail(name@, tree_view(*node)) is Stuck),
    ensures
        res(r, cv_member_tail(name@, tree_view(*node)), |m: (Option<AttributeDecl>, Option<MethodDecl>)| member_model(m)),
    decreases node, 0int,
{
    proof {
        lemma_node(*node);
    }
    if !sym_is(node, "TypeMemberTail") {
        return Ok((None, None));
    }
    proof {
        lemma_node(node.children@[0]);
    }
    if node.children[0].children.len() == 0 {
        return Ok((None, None));
    }
    let first = &node.children[0];
    if sym_is(first, "TypeAnnotation") {
        let declared_type = match convert_type_annotation(first) {
            Ok(t) => t,
            Err(m) => return Err(m),
        };
        let mut initializer: Option<Expr> = None;
        if node.children.len() > 1 {
            proof {
                lemma_node(node.children@[1]);
            }
            if node.children[1].children.len() > 1 {
                match convert_expr(&node.children[1].children[1]) {
                    Ok(e) => {
                        initializer = Some(e);
                    },
                    Err(m) => return Err(m),
                }
            }
        }
        let a = AttributeDecl { name, initializer, declared_type };
        Ok((Some(a), None))
    } else if sym_is(first, "LPAREN") {
        if node.children.len() < 6 {
            return Err(String::from_str("Invalid method declaration"));
        }
        let params = match convert_params(&node.children[1]) {
            Ok(p) => p,
            Err(m) => return Err(m),
        };
        let return_type = match convert_type_annotation(&node.children[3]) {
            Ok(t) => t,
            Err(m) => return Err(m),
        };
        match convert_function_body(&node.children[4]) {
            Ok(body) => {
                let x = MethodDecl { name, params, body: Box::new(body), return_type };
                Ok((None, Some(x)))
            },
            Err(m) => Err(m),
        }
    } else {
        Ok((None, None))
    }
}

} // verus!
