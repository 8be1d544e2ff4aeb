//! The syntax tree of a program as indented text: one line per node, the children of a node
//! one level (two spaces) deeper.

use vstd::prelude::*;
use crate::text::{append_str, debug_str, str_debug_text};
use crate::parser::cst::indent;
use crate::parser::ll1::views;
use crate::parser::parser::{debug_strings, strings_debug_text};
use crate::parser::syntax::{Type, BinaryOp, Expr, ExprKind, Stmt, StmtKind, AttributeDecl, MethodDecl, Program,
    TypeModel, ExprModel, ExprKindModel, StmtModel, StmtKindModel, AttrModel, MethodModel, type_model, opt_type_model,
    params_model, names_model, expr_model, exprs_model, stmt_model, stmts_model, attrs_model, methods_model, program_model,
    attr_model, method_model};

verus! {

/// A line at indentation `ind`.
pub open spec fn line(ind: nat, s: Seq<char>) -> Seq<char> {
    indent(ind) + s + "\n"@
}

/// A declared type as `{:?}` writes it.
pub open spec fn type_debug(t: TypeModel) -> Seq<char> {
    match t {
        TypeModel::Number => "Number"@,
        TypeModel::String => "String"@,
        TypeModel::Boolean => "Boolean"@,
        TypeModel::Object(n) => "Object("@ + str_debug_text(n) + ")"@,
    }
}

/// An optional declared type as `{:?}` writes it.
pub open spec fn opt_type_debug(t: Option<TypeModel>) -> Seq<char> {
    match t {
        Some(x) => "Some("@ + type_debug(x) + ")"@,
        None => "None"@,
    }
}

/// The name of a binary operator.
pub open spec fn binary_op_name(op: BinaryOp) -> Seq<char> {
    match op {
        BinaryOp::Add => "Add"@,
        BinaryOp::Sub => "Sub"@,
        BinaryOp::Mul => "Mul"@,
        BinaryOp::Div => "Div"@,
        BinaryOp::Mod => "Mod"@,
        BinaryOp::Pow => "Pow"@,
        BinaryOp::Eq => "Eq"@,
        BinaryOp::Neq => "Neq"@,
        BinaryOp::Lt => "Lt"@,
        BinaryOp::Gt => "Gt"@,
        BinaryOp::Le => "Le"@,
        BinaryOp::Ge => "Ge"@,
        BinaryOp::And => "And"@,
        BinaryOp::Or => "Or"@,
        BinaryOp::Concat => "Concat"@,
        BinaryOp::ConcatWs => "ConcatWs"@,
    }
}

/// A boolean as `{}` writes it.
pub open spec fn bool_text(b: bool) -> Seq<char> {
    if b { "true"@ } else { "false"@ }
}

/// An expression at indentation `ind`: a line naming its form, then its parts deeper.
pub open spec fn expr_text(e: ExprModel, ind: nat) -> Seq<char>
    decreases e, 0int,
{
    match e {
        ExprModel::Node(k, _) => match k {
            ExprKindModel::Number(n) => line(ind, "Number: "@ + n),
            ExprKindModel::String(s) => line(ind, "String: "@ + str_debug_text(s)),
            ExprKindModel::Boolean(b) => line(ind, "Boolean: "@ + bool_text(b)),
            ExprKindModel::Variable(n) => line(ind, "Variable: "@ + n),
            ExprKindModel::SelfExpr => line(ind, "Self"@),
            ExprKindModel::BaseCall(args) => line(ind, "BaseCall:"@) + exprs_text(args, ind + 1),
            ExprKindModel::New(t, args) => line(ind, "New: "@ + t) + exprs_text(args, ind + 1),
            ExprKindModel::Call(f, args) => line(ind, "Call: "@ + f) + exprs_text(args, ind + 1),
            ExprKindModel::MethodCall(o, m, args) =>
                line(ind, "MethodCall: "@ + m) + expr_text(*o, ind + 1) + exprs_text(args, ind + 1),
            ExprKindModel::GetAttr(o, a) => line(ind, "GetAttr: "@ + a) + expr_text(*o, ind + 1),
            ExprKindModel::Assign(v, x) => line(ind, "Assign: "@ + v) + expr_text(*x, ind + 1),
            ExprKindModel::SetAttr(o, a, x) =>
                line(ind, "SetAttr: "@ + a) + expr_text(*o, ind + 1) + expr_text(*x, ind + 1),
            ExprKindModel::Binary(op, l, r) =>
                line(ind, "BinaryOp: "@ + binary_op_name(op)) + expr_text(*l, ind + 1) + expr_text(*r, ind + 1),
            ExprKindModel::Unary(_, x) => line(ind, "UnaryOp: Neg"@) + expr_text(*x, ind + 1),
            ExprKindModel::As(x, t) => line(ind, "As: "@ + t) + expr_text(*x, ind + 1),
            ExprKindModel::Is(x, t) => line(ind, "Is: "@ + t) + expr_text(*x, ind + 1),
            ExprKindModel::If(c, t, el) => line(ind, "If:"@) + line(ind, "  Condition:"@) + expr_text(*c, ind + 2)
                + line(ind, "  Then:"@) + expr_text(*t, ind + 2) + match el {
                    Some(x) => line(ind, "  Else:"@) + expr_text(*x, ind + 2),
                    None => Seq::<char>::empty(),
                },
            ExprKindModel::Let(n, v, b, dt) => line(ind, "Let: "@ + n + " "@ + opt_type_debug(dt))
                + line(ind, "  Value:"@) + expr_text(*v, ind + 2) + line(ind, "  Body:"@) + expr_text(*b, ind + 2),
            ExprKindModel::While(c, b) => line(ind, "While:"@) + line(ind, "  Condition:"@) + expr_text(*c, ind + 2)
                + line(ind, "  Body:"@) + expr_text(*b, ind + 2),
            ExprKindModel::For(it, c, b) => line(ind, "For: "@ + it) + line(ind, "  Collection:"@) + expr_text(*c, ind + 2)
                + line(ind, "  Body:"@) + expr_text(*b, ind + 2),
            ExprKindModel::Block(ss) => line(ind, "Block:"@) + stmts_text(ss, ind + 1),
        },
    }
}

/// Expressions one after the other, each at indentation `ind`.
pub open spec fn exprs_text(v: Seq<ExprModel>, ind: nat) -> Seq<char>
    decreases v, 0int,
{
    if v.len() == 0 {
        Seq::<char>::empty()
    } else {
        exprs_text(v.subrange(0, v.len() - 1), ind) + expr_text(v[v.len() - 1], ind)
    }
}

/// The parameter lines of a function: name and declared type.
pub open spec fn params_text(ps: Seq<(Seq<char>, Option<TypeModel>)>, ind: nat) -> Seq<char>
    decreases ps.len(),
{
    if ps.len() == 0 {
        Seq::<char>::empty()
    } else {
        params_text(ps.drop_last(), ind) + line(ind, "    "@ + ps.last().0 + ": "@ + opt_type_debug(ps.last().1))
    }
}

/// The attribute lines of a type: name and declared type.
pub open spec fn attrs_text(v: Seq<AttrModel>, ind: nat) -> Seq<char>
    decreases v.len(),
{
    if v.len() == 0 {
        Seq::<char>::empty()
    } else {
        attrs_text(v.drop_last(), ind) + match v.last() {
            AttrModel::Attr(n, _, dt) => line(ind, "    "@ + n + ": "@ + opt_type_debug(dt)),
        }
    }
}

/// The method lines of a type: their names.
pub open spec fn methods_text(v: Seq<MethodModel>, ind: nat) -> Seq<char>
    decreases v.len(),
{
    if v.len() == 0 {
        Seq::<char>::empty()
    } else {
        methods_text(v.drop_last(), ind) + match v.last() {
            MethodModel::Method(n, _, _, _) => line(ind, "    Method: "@ + n),
        }
    }
}

/// A statement at indentation `ind`.
pub open spec fn stmt_text(s: StmtModel, ind: nat) -> Seq<char>
    decreases s, 0int,
{
    match s {
        StmtModel::Node(k, _) => match k {
            StmtKindModel::ExprStmt(e) => line(ind, "ExprStmt:"@) + expr_text(e, ind + 1),
            StmtKindModel::FunctionDecl(n, ps, body, rt) => line(ind, "FunctionDecl: "@ + n) + line(ind, "  Params:"@)
                + params_text(ps, ind) + line(ind, "  ReturnType: "@ + opt_type_debug(rt)) + line(ind, "  Body:"@)
                + stmt_text(*body, ind + 2),
            StmtKindModel::TypeDecl(n, tps, attrs, methods, bt, bargs) => line(ind, "TypeDecl: "@ + n)
                + line(ind, "  TypeParams: "@ + strings_debug_text(tps)) + line(ind, "  BaseType: "@ + bt)
                + line(ind, "  BaseArgs:"@) + exprs_text(bargs, ind + 2) + line(ind, "  Attributes:"@)
                + attrs_text(attrs, ind) + line(ind, "  Methods:"@) + methods_text(methods, ind),
        },
    }
}

/// Statements one after the other, each at indentation `ind`.
pub open spec fn stmts_text(v: Seq<StmtModel>, ind: nat) -> Seq<char>
    decreases v, 0int,
{
    if v.len() == 0 {
        Seq::<char>::empty()
    } else {
        stmts_text(v.subrange(0, v.len() - 1), ind) + stmt_text(v[v.len() - 1], ind)
    }
}

/// A program as text: a `Program:` line, then its statements one level deeper.
pub open spec fn program_text(p: Seq<StmtModel>) -> Seq<char> {
    "Program:\n"@ + stmts_text(p, 1)
}

/// Appends a line at the indentation `pad` holding `a` then `b`.
fn put_line(out: &mut String, pad: &String, Ghost(ind): Ghost<nat>, a: &str, b: &str)
    requires
        pad@ == indent(ind),
    ensures
        final(out)@ == old(out)@ + line(ind, a@ + b@),
{
    append_str(out, pad.as_str());
    append_str(out, a);
    append_str(out, b);
    append_str(out, "\n");
    assert(final(out)@ =~= old(out)@ + line(ind, a@ + b@));
}

/// Appends a line at the indentation `pad` holding `a`.
fn put_line1(out: &mut String, pad: &String, Ghost(ind): Ghost<nat>, a: &str)
    requires
        pad@ == indent(ind),
    ensures
        final(out)@ == old(out)@ + line(ind, a@),
{
    append_str(out, pad.as_str());
    append_str(out, a);
    append_str(out, "\n");
    assert(final(out)@ =~= old(out)@ + line(ind, a@));
}

/// The indentation one level deeper than `pad`.
fn deeper(pad: &String, Ghost(ind): Ghost<nat>) -> (d: String)
    requires
        pad@ == indent(ind),
    ensures
        d@ == indent(ind + 1),
{
    let mut d = pad.clone();
    append_str(&mut d, "  ");
    proof {
        reveal_strlit("  ");
        assert(d@ =~= indent(ind + 1));
    }
    d
}

/// A declared type as `{:?}` writes it (see `type_debug`).
fn type_debug_text(t: &Type) -> (s: String)
    ensures
        s@ == type_debug(type_model(*t)),
{
    match t {
        Type::Number => String::from_str("Number"),
        Type::String => String::from_str("String"),
        Type::Boolean => String::from_str("Boolean"),
        Type::Object(n) => {
            let mut s = String::from_str("Object(");
            let d = debug_str(n.as_str());
            append_str(&mut s, d.as_str());
            append_str(&mut s, ")");
            s
        },
    }
}

/// An optional declared type as `{:?}` writes it (see `opt_type_debug`).
fn opt_type_debug_text(t: &Option<Type>) -> (s: String)
    ensures
        s@ == opt_type_debug(opt_type_model(*t)),
{
    match t {
        Some(x) => {
            let mut s = String::from_str("Some(");
            let d = type_debug_text(x);
            append_str(&mut s, d.as_str());
            append_str(&mut s, ")");
            s
        },
        None => String::from_str("None"),
    }
}

/// The name of a binary operator (see `binary_op_name`).
fn binary_op_text(op: BinaryOp) -> (s: &'static str)
    ensures
        s@ == binary_op_name(op),
{
    match op {
        BinaryOp::Add => "Add",
        BinaryOp::Sub => "Sub",
        BinaryOp::Mul => "Mul",
        BinaryOp::Div => "Div",
        BinaryOp::Mod => "Mod",
        BinaryOp::Pow => "Pow",
        BinaryOp::Eq => "Eq",
        BinaryOp::Neq => "Neq",
        BinaryOp::Lt => "Lt",
        BinaryOp::Gt => "Gt",
        BinaryOp::Le => "Le",
        BinaryOp::Ge => "Ge",
        BinaryOp::And => "And",
        BinaryOp::Or => "Or",
        BinaryOp::Concat => "Concat",
        BinaryOp::ConcatWs => "ConcatWs",
    }
}

/// Appends an expression at indentation `ind` (see `expr_text`).
#[verifier::spinoff_prover]
#[verifier::rlimit(40)]
fn write_expr(e: &Expr, pad: &String, Ghost(ind): Ghost<nat>, out: &mut String)
    requires
        pad@ == indent(ind),
    ensures
        final(out)@ == old(out)@ + expr_text(expr_model(*e), ind),
    decreases e, 0int,
{
    let ghost start = out@;
    let p1 = deeper(pad, Ghost(ind));
    match &e.kind {
        ExprKind::Number(n) => {
            put_line(out, pad, Ghost(ind), "Number: ", n.as_str());
            assert(out@ =~= start + expr_text(expr_model(*e), ind));
        },
        ExprKind::String(x) => {
            let d = debug_str(x.as_str());
            put_line(out, pad, Ghost(ind), "String: ", d.as_str());
            assert(out@ =~= start + expr_text(expr_model(*e), ind));
        },
        ExprKind::Boolean(b) => {
            put_line(out, pad, Ghost(ind), "Boolean: ", if *b { "true" } else { "false" });
            assert(out@ =~= start + expr_text(expr_model(*e), ind));
        },
        ExprKind::Variable(n) => {
            put_line(out, pad, Ghost(ind), "Variable: ", n.as_str());
            assert(out@ =~= start + expr_text(expr_model(*e), ind));
        },
        ExprKind::SelfExpr => {
            put_line1(out, pad, Ghost(ind), "Self");
            assert(out@ =~= start + expr_text(expr_model(*e), ind));
        },
        ExprKind::BaseCall { args } => {
            put_line1(out, pad, Ghost(ind), "BaseCall:");
            write_exprs(args, &p1, Ghost(ind + 1), out);
            assert(out@ =~= start + expr_text(expr_model(*e), ind));
        },
        ExprKind::New { class_name, args } => {
            put_line(out, pad, Ghost(ind), "New: ", class_name.as_str());
            write_exprs(args, &p1, Ghost(ind + 1), out);
            assert(out@ =~= start + expr_text(expr_model(*e), ind));
        },
        ExprKind::Call { function, args } => {
            put_line(out, pad, Ghost(ind), "Call: ", function.as_str());
            write_exprs(args, &p1, Ghost(ind + 1), out);
            assert(out@ =~= start + expr_text(expr_model(*e), ind));
        },
        ExprKind::MethodCall { object, method, args } => {
            put_line(out, pad, Ghost(ind), "MethodCall: ", method.as_str());
            let ghost mid = out@;
            write_expr(object, &p1, Ghost(ind + 1), out);
            write_exprs(args, &p1, Ghost(ind + 1), out);
            assert(out@ =~= start + expr_text(expr_model(*e), ind));
        },
        ExprKind::GetAttr { object, attr } => {
            put_line(out, pad, Ghost(ind), "GetAttr: ", attr.as_str());
            write_expr(object, &p1, Ghost(ind + 1), out);
            assert(out@ =~= start + expr_text(expr_model(*e), ind));
        },
        ExprKind::Assign { var_name, value } => {
            put_line(out, pad, Ghost(ind), "Assign: ", var_name.as_str());
            write_expr(value, &p1, Ghost(ind + 1), out);
            assert(out@ =~= start + expr_text(expr_model(*e), ind));
        },
        ExprKind::SetAttr { object, attr, value } => {
            put_line(out, pad, Ghost(ind), "SetAttr: ", attr.as_str());
            write_expr(object, &p1, Ghost(ind + 1), out);
            write_expr(value, &p1, Ghost(ind + 1), out);
            assert(out@ =~= start + expr_text(expr_model(*e), ind));
        },
        ExprKind::Binary { op, left, right } => {
            put_line(out, pad, Ghost(ind), "BinaryOp: ", binary_op_text(*op));
            write_expr(left, &p1, Ghost(ind + 1), out);
            write_expr(right, &p1, Ghost(ind + 1), out);
            assert(out@ =~= start + expr_text(expr_model(*e), ind));
        },
        ExprKind::Unary { op: _, expr } => {
            put_line1(out, pad, Ghost(ind), "UnaryOp: Neg");
            write_expr(expr, &p1, Ghost(ind + 1), out);
            assert(out@ =~= start + expr_text(expr_model(*e), ind));
        },
        ExprKind::As { expr, class_name } => {
            put_line(out, pad, Ghost(ind), "As: ", class_name.as_str());
            write_expr(expr, &p1, Ghost(ind + 1), out);
            assert(out@ =~= start + expr_text(expr_model(*e), ind));
        },
        ExprKind::Is { expr, class_name } => {
            put_line(out, pad, Ghost(ind), "Is: ", class_name.as_str());
            write_expr(expr, &p1, Ghost(ind + 1), out);
            assert(out@ =~= start + expr_text(expr_model(*e), ind));
        },
        ExprKind::If { condition, then_branch, else_branch } => {
            let p2 = deeper(&p1, Ghost(ind + 1));
            put_line1(out, pad, Ghost(ind), "If:");
            put_line1(out, pad, Ghost(ind), "  Condition:");
            write_expr(condition, &p2, Ghost(ind + 2), out);
            put_line1(out, pad, Ghost(ind), "  Then:");
            write_expr(then_branch, &p2, Ghost(ind + 2), out);
            let ghost before_else = out@;
            match else_branch {
                Some(x) => {
                    put_line1(out, pad, Ghost(ind), "  Else:");
                    write_expr(x, &p2, Ghost(ind + 2), out);
                },
                None => {
                    assert(out@ =~= before_else + Seq::<char>::empty());
                },
            }
            assert(out@ =~= start + expr_text(expr_model(*e), ind));
        },
        ExprKind::Let { name, value, body, declared_type } => {
            let p2 = deeper(&p1, Ghost(ind + 1));
            let mut head = name.clone();
            append_str(&mut head, " ");
            let d = opt_type_debug_text(declared_type);
            append_str(&mut head, d.as_str());
            put_line(out, pad, Ghost(ind), "Let: ", head.as_str());
            put_line1(out, pad, Ghost(ind), "  Value:");
            write_expr(value, &p2, Ghost(ind + 2), out);
            put_line1(out, pad, Ghost(ind), "  Body:");
            write_expr(body, &p2, Ghost(ind + 2), out);
            assert("Let: "@ + head@ =~= "Let: "@ + name@ + " "@ + opt_type_debug(opt_type_model(*declared_type)));
            assert(out@ =~= start + expr_text(expr_model(*e), ind));
        },
        ExprKind::While { condition, body } => {
            let p2 = deeper(&p1, Ghost(ind + 1));
            put_line1(out, pad, Ghost(ind), "While:");
            put_line1(out, pad, Ghost(ind), "  Condition:");
            write_expr(condition, &p2, Ghost(ind + 2), out);
            put_line1(out, pad, Ghost(ind), "  Body:");
            write_expr(body, &p2, Ghost(ind + 2), out);
            assert(out@ =~= start + expr_text(expr_model(*e), ind));
        },
        ExprKind::For { iterator, collection, body } => {
            let p2 = deeper(&p1, Ghost(ind + 1));
            put_line(out, pad, Ghost(ind), "For: ", iterator.as_str());
            put_line1(out, pad, Ghost(ind), "  Collection:");
            write_expr(collection, &p2, Ghost(ind + 2), out);
            put_line1(out, pad, Ghost(ind), "  Body:");
            write_expr(body, &p2, Ghost(ind + 2), out);
            assert(out@ =~= start + expr_text(expr_model(*e), ind));
        },
        ExprKind::Block { stmts } => {
            put_line1(out, pad, Ghost(ind), "Block:");
            write_stmts(stmts, &p1, Ghost(ind + 1), out);
            assert(out@ =~= start + expr_text(expr_model(*e), ind));
        },
    }
}

/// Appends expressions at indentation `ind` (see `exprs_text`).
fn write_exprs(v: &Vec<Expr>, pad: &String, Ghost(ind): Ghost<nat>, out: &mut String)
    requires
        pad@ == indent(ind),
    ensures
        final(out)@ == old(out)@ + exprs_text(exprs_model(v@), ind),
    decreases v, 0int,
{
    let ghost start = out@;
    let mut i: usize = 0;
    assert(exprs_model(v@.subrange(0, 0)) =~= Seq::<ExprModel>::empty());
    assert(out@ =~= start + exprs_text(exprs_model(v@.subrange(0, 0)), ind));
    while i < v.len()
        invariant
            i <= v@.len(),
            pad@ == indent(ind),
            out@ == start + exprs_text(exprs_model(v@.subrange(0, i as int)), ind),
        decreases v@.len() - i,
    {
        write_expr(&v[i], pad, Ghost(ind), out);
        proof {
            let s1 = v@.subrange(0, i + 1);
            assert(s1.subrange(0, s1.len() - 1) =~= v@.subrange(0, i as int));
            let m = exprs_model(s1);
            assert(m.subrange(0, m.len() - 1) =~= exprs_model(v@.subrange(0, i as int)));
        }
        i += 1;
    }
    assert(v@.subrange(0, v@.len() as int) =~= v@);
}

/// Appends the parameter lines of a function (see `params_text`).
fn write_params(v: &Vec<(String, Option<Type>)>, pad: &String, Ghost(ind): Ghost<nat>, out: &mut String)
    requires
        pad@ == indent(ind),
    ensures
        final(out)@ == old(out)@ + params_text(params_model(v@), ind),
{
    let ghost start = out@;
    let mut i: usize = 0;
    assert(params_model(v@.subrange(0, 0)) =~= Seq::<(Seq<char>, Option<TypeModel>)>::empty());
    assert(out@ =~= start + params_text(params_model(v@.subrange(0, 0)), ind));
    while i < v.len()
        invariant
            i <= v@.len(),
            pad@ == indent(ind),
            out@ == start + params_text(params_model(v@.subrange(0, i as int)), ind),
        decreases v@.len() - i,
    {
        let (name, ty) = &v[i];
        let mut text = name.clone();
        append_str(&mut text, ": ");
        let d = opt_type_debug_text(ty);
        append_str(&mut text, d.as_str());
        put_line(out, pad, Ghost(ind), "    ", text.as_str());
        proof {
            let s1 = params_model(v@.subrange(0, i + 1));
            assert(s1.drop_last() =~= params_model(v@.subrange(0, i as int)));
            assert("    "@ + text@ =~= "    "@ + s1.last().0 + ": "@ + opt_type_debug(s1.last().1));
        }
        i += 1;
    }
    assert(v@.subrange(0, v@.len() as int) =~= v@);
}

/// Appends the attribute lines of a type (see `attrs_text`).
fn write_attrs(v: &Vec<AttributeDecl>, pad: &String, Ghost(ind): Ghost<nat>, out: &mut String)
    requires
        pad@ == indent(ind),
    ensures
        final(out)@ == old(out)@ + attrs_text(attrs_model(v@), ind),
{
    let ghost start = out@;
    let mut i: usize = 0;
    assert(attrs_model(v@.subrange(0, 0)) =~= Seq::<AttrModel>::empty());
    assert(out@ =~= start + attrs_text(attrs_model(v@.subrange(0, 0)), ind));
    while i < v.len()
        invariant
            i <= v@.len(),
            pad@ == indent(ind),
            out@ == start + attrs_text(attrs_model(v@.subrange(0, i as int)), ind),
        decreases v@.len() - i,
    {
        let a = &v[i];
        let mut text = a.name.clone();
        append_str(&mut text, ": ");
        let d = opt_type_debug_text(&a.declared_type);
        append_str(&mut text, d.as_str());
        put_line(out, pad, Ghost(ind), "    ", text.as_str());
        proof {
            let s1 = v@.subrange(0, i + 1);
            assert(s1.subrange(0, s1.len() - 1) =~= v@.subrange(0, i as int));
            let m = attrs_model(s1);
            assert(m.drop_last() =~= attrs_model(v@.subrange(0, i as int)));
            assert(m.last() == attr_model(v@[i as int]));
            assert("    "@ + text@ =~= "    "@ + a.name@ + ": "@ + opt_type_debug(opt_type_model(a.declared_type)));
        }
        i += 1;
    }
    assert(v@.subrange(0, v@.len() as int) =~= v@);
}

/// Appends the method lines of a type (see `methods_text`).
fn write_methods(v: &Vec<MethodDecl>, pad: &String, Ghost(ind): Ghost<nat>, out: &mut String)
    requires
        pad@ == indent(ind),
    ensures
        final(out)@ == old(out)@ + methods_text(methods_model(v@), ind),
{
    let ghost start = out@;
    let mut i: usize = 0;
    assert(methods_model(v@.subrange(0, 0)) =~= Seq::<MethodModel>::empty());
    assert(out@ =~= start + methods_text(methods_model(v@.subrange(0, 0)), ind));
    while i < v.len()
        invariant
            i <= v@.len(),
            pad@ == indent(ind),
            out@ == start + methods_text(methods_model(v@.subrange(0, i as int)), ind),
        decreases v@.len() - i,
    {
        put_line(out, pad, Ghost(ind), "    Method: ", v[i].name.as_str());
        proof {
            let s1 = v@.subrange(0, i + 1);
            assert(s1.subrange(0, s1.len() - 1) =~= v@.subrange(0, i as int));
            let m = methods_model(s1);
            assert(m.drop_last() =~= methods_model(v@.subrange(0, i as int)));
            assert(m.last() == method_model(v@[i as int]));
        }
        i += 1;
    }
    assert(v@.subrange(0, v@.len() as int) =~= v@);
}

/// Appends a statement at indentation `ind` (see `stmt_text`).
fn write_stmt(st: &Stmt, pad: &String, Ghost(ind): Ghost<nat>, out: &mut String)
    requires
        pad@ == indent(ind),
    ensures
        final(out)@ == old(out)@ + stmt_text(stmt_model(*st), ind),
    decreases st, 0int,
{
    let ghost start = out@;
    let p1 = deeper(pad, Ghost(ind));
    match &st.kind {
        StmtKind::ExprStmt(e) => {
            put_line1(out, pad, Ghost(ind), "ExprStmt:");
            write_expr(e, &p1, Ghost(ind + 1), out);
        },
        StmtKind::FunctionDecl { name, params, body, return_type } => {
            let p2 = deeper(&p1, Ghost(ind + 1));
            put_line(out, pad, Ghost(ind), "FunctionDecl: ", name.as_str());
            put_line1(out, pad, Ghost(ind), "  Params:");
            write_params(params, pad, Ghost(ind), out);
            let d = opt_type_debug_text(return_type);
            put_line(out, pad, Ghost(ind), "  ReturnType: ", d.as_str());
            put_line1(out, pad, Ghost(ind), "  Body:");
            write_stmt(body, &p2, Ghost(ind + 2), out);
        },
        StmtKind::TypeDecl { name, type_params, attributes, methods, base_type, base_args } => {
            let p2 = deeper(&p1, Ghost(ind + 1));
            put_line(out, pad, Ghost(ind), "TypeDecl: ", name.as_str());
            let d = debug_strings(type_params);
            assert(views(type_params@) =~= names_model(type_params@));
            put_line(out, pad, Ghost(ind), "  TypeParams: ", d.as_str());
            put_line(out, pad, Ghost(ind), "  BaseType: ", base_type.as_str());
            put_line1(out, pad, Ghost(ind), "  BaseArgs:");
            write_exprs(base_args, &p2, Ghost(ind + 2), out);
            put_line1(out, pad, Ghost(ind), "  Attributes:");
            write_attrs(attributes, pad, Ghost(ind), out);
            put_line1(out, pad, Ghost(ind), "  Methods:");
            write_methods(methods, pad, Ghost(ind), out);
        },
    }
    assert(out@ =~= start + stmt_text(stmt_model(*st), ind));
}

/// Appends statements at indentation `ind` (see `stmts_text`).
fn write_stmts(v: &Vec<Stmt>, pad: &String, Ghost(ind): Ghost<nat>, out: &mut String)
    requires
        pad@ == indent(ind),
    ensures
        final(out)@ == old(out)@ + stmts_text(stmts_model(v@), ind),
    decreases v, 0int,
{
    let ghost start = out@;
    let mut i: usize = 0;
    assert(stmts_model(v@.subrange(0, 0)) =~= Seq::<StmtModel>::empty());
    assert(out@ =~= start + stmts_text(stmts_model(v@.subrange(0, 0)), ind));
    while i < v.len()
        invariant
            i <= v@.len(),
            pad@ == indent(ind),
            out@ == start + stmts_text(stmts_model(v@.subrange(0, i as int)), ind),
        decreases v@.len() - i,
    {
        write_stmt(&v[i], pad, Ghost(ind), out);
        proof {
            let s1 = v@.subrange(0, i + 1);
            assert(s1.subrange(0, s1.len() - 1) =~= v@.subrange(0, i as int));
            let m = stmts_model(s1);
            assert(m.subrange(0, m.len() - 1) =~= stmts_model(v@.subrange(0, i as int)));
        }
        i += 1;
    }
    assert(v@.subrange(0, v@.len() as int) =~= v@);
}

/// The syntax tree of a program as text (see `program_text`): a `Program:` line, then each
/// statement one level deeper, each node on its own line with its parts below it. Number
/// literals appear as they were written.
pub fn ast_text(p: &Program) -> (s: String)
    ensures
        s@ == program_text(program_model(*p)),
{
    let mut out = String::from_str("Program:\n");
    let pad = String::from_str("  ");
    proof {
        reveal_strlit("  ");
        assert(pad@ =~= indent(1));
    }
    write_stmts(&p.stmts, &pad, Ghost(1), &mut out);
    out
}

} // verus!
