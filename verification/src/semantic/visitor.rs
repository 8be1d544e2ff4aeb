//! Semantic analysis of a program's expressions: the type of each expression by the typing
//! rules of the language, with the errors found on the way, in a scope of typed variables.
//! Types are compared by name (the tree holds one type per name).

use vstd::prelude::*;
use crate::typings::types_ast::{TypeAST, lookup, in_tree, finite_chain, chain_fuel, chain_ends, lca_spec, lemma_lookup_name,
    lemma_lca_in_tree, basic_names, basic_type, parent_of};
use crate::typings::types_node::{TypeNode, TypeNodeModel, FnModel, assoc};
use crate::typings::types_ast::method_lookup;
use crate::typings::function_def::{FunctionParams, params_model};
use crate::semantic::error::{SemanticError, TokenPos};
use crate::parser::syntax::{BinaryOp, UnaryOp, Expr, ExprKind, Stmt, StmtKind, Program, ExprModel, ExprKindModel,
    StmtModel, StmtKindModel, expr_model, exprs_model, stmt_model, stmts_model, program_model};

verus! {

/// An error found by the analysis as plain values: the kind, with type and other names.
pub enum ErrModel {
    BinaryOp(Seq<char>, Seq<char>, Seq<char>),
    UnaryOp(Seq<char>, Seq<char>),
    UndefinedIdentifier(Seq<char>),
    UndefinedType(Seq<char>),
    Condition(Seq<char>),
    Redefinition(Seq<char>),
    UndeclaredFunction(Seq<char>),
    PropertyAccess(Seq<char>, Seq<char>),
    ArgCount(nat, nat, Seq<char>),
    TypeArgCount(nat, nat, Seq<char>),
    TypeArgument(Seq<char>, Seq<char>, Seq<char>, nat, Seq<char>),
    FunctionAccess(Seq<char>, Seq<char>),
    TypeRedefinition(Seq<char>),
    Other(Seq<char>),
    Elsewhere,
}

/// An error as plain values.
pub open spec fn err_model(e: SemanticError) -> ErrModel {
    match e {
        SemanticError::InvalidBinaryOperation(l, r, op, _) => ErrModel::BinaryOp(l.name@, r.name@, op@),
        SemanticError::InvalidUnaryOperation(t, op, _) => ErrModel::UnaryOp(t.name@, op@),
        SemanticError::UndefinedIdentifier(id, _) => ErrModel::UndefinedIdentifier(id@),
        SemanticError::UndefinedType(t, _) => ErrModel::UndefinedType(t@),
        SemanticError::InvalidConditionType(t, _) => ErrModel::Condition(t.name@),
        SemanticError::RedefinitionOfVariable(v, _) => ErrModel::Redefinition(v@),
        SemanticError::UndeclaredFunction(f, _) => ErrModel::UndeclaredFunction(f@),
        SemanticError::InvalidTypePropertyAccess(t, p, _) => ErrModel::PropertyAccess(t@, p@),
        SemanticError::InvalidArgumentsCount(a, b, f, _) => ErrModel::ArgCount(a as nat, b as nat, f@),
        SemanticError::InvalidTypeArgumentCount(a, b, t, _) => ErrModel::TypeArgCount(a as nat, b as nat, t@),
        SemanticError::InvalidTypeArgument(k, a, b, i, n, _) => ErrModel::TypeArgument(k@, a@, b@, i as nat, n@),
        SemanticError::InvalidTypeFunctionAccess(t, f, _) => ErrModel::FunctionAccess(t@, f@),
        SemanticError::RedefinitionOfType(t, _) => ErrModel::TypeRedefinition(t@),
        SemanticError::UnknownError(m, _) => ErrModel::Other(m@),
        _ => ErrModel::Elsewhere,
    }
}

/// Errors as plain values.
pub open spec fn errs_model(v: Seq<SemanticError>) -> Seq<ErrModel> {
    v.map_values(|e: SemanticError| err_model(e))
}

/// The type named `n` in the tree.
pub open spec fn basic(nodes: Seq<TypeNode>, n: Seq<char>) -> TypeNodeModel {
    lookup(nodes, n).unwrap()
}

/// The tree can be analysed against: it holds the basic types, and following parents from
/// any of its types ends.
pub open spec fn analyzable(nodes: Seq<TypeNode>) -> bool {
    &&& lookup(nodes, "Number"@) is Some
    &&& lookup(nodes, "String"@) is Some
    &&& lookup(nodes, "Boolean"@) is Some
    &&& lookup(nodes, "Unknown"@) is Some
    &&& forall|m: TypeNodeModel| #[trigger] in_tree(nodes, m) ==> finite_chain(nodes, m)
}

/// A type the analysis can give: one of the tree, or the root.
pub open spec fn valid_ty(nodes: Seq<TypeNode>, root: TypeNodeModel, t: TypeNodeModel) -> bool {
    in_tree(nodes, t) || t == root
}

/// The text of a binary operator.
pub open spec fn op_symbol(op: BinaryOp) -> Seq<char> {
    match op {
        BinaryOp::Add => "+"@,
        BinaryOp::Sub => "-"@,
        BinaryOp::Mul => "*"@,
        BinaryOp::Div => "/"@,
        BinaryOp::Mod => "%"@,
        BinaryOp::Pow => "^"@,
        BinaryOp::Eq => "=="@,
        BinaryOp::Neq => "!="@,
        BinaryOp::Lt => "<"@,
        BinaryOp::Gt => ">"@,
        BinaryOp::Le => "<="@,
        BinaryOp::Ge => ">="@,
        BinaryOp::And => "&"@,
        BinaryOp::Or => "|"@,
        BinaryOp::Concat => "@"@,
        BinaryOp::ConcatWs => "@@"@,
    }
}

/// A type that `@` can join: a string, a boolean or a number.
pub open spec fn printable(t: TypeNodeModel) -> bool {
    t.name == "String"@ || t.name == "Boolean"@ || t.name == "Number"@
}

/// The typing rule of a binary operator on operands of types `l` and `r`: the type of the
/// result, and the error when the rule rejects them (the result is then `Unknown`).
/// Arithmetic takes numbers to a number; comparisons take numbers to a boolean; `@` joins
/// strings, booleans and numbers into a string; `&` and `|` take booleans to a boolean; `@@`
/// is not supported.
pub open spec fn binary_rule(nodes: Seq<TypeNode>, op: BinaryOp, l: TypeNodeModel, r: TypeNodeModel)
    -> (TypeNodeModel, Option<ErrModel>) {
    let bad = (basic(nodes, "Unknown"@), Some(ErrModel::BinaryOp(l.name, r.name, op_symbol(op))));
    match op {
        BinaryOp::Add | BinaryOp::Sub | BinaryOp::Mul | BinaryOp::Div | BinaryOp::Mod | BinaryOp::Pow =>
            if l.name == "Number"@ && r.name == "Number"@ { (basic(nodes, "Number"@), None) } else { bad },
        BinaryOp::Eq | BinaryOp::Neq | BinaryOp::Lt | BinaryOp::Gt | BinaryOp::Le | BinaryOp::Ge =>
            if l.name == "Number"@ && r.name == "Number"@ { (basic(nodes, "Boolean"@), None) } else { bad },
        BinaryOp::Concat =>
            if printable(l) && printable(r) { (basic(nodes, "String"@), None) } else { bad },
        BinaryOp::And | BinaryOp::Or =>
            if l.name == "Boolean"@ && r.name == "Boolean"@ { (basic(nodes, "Boolean"@), None) } else { bad },
        BinaryOp::ConcatWs => (basic(nodes, "Unknown"@),
            Some(ErrModel::Other("Operator ( ConcatWs ) not supported in binary operation"@))),
    }
}

/// The typing rules of the operators, operator by operator. Each of the arithmetic
/// operators `+ - * / % ^` on two numbers gives a number, and each comparison
/// `== != < > <= >=` on two numbers gives a boolean; `&` and `|` on two booleans give a
/// boolean; `@` on strings, booleans or numbers gives a string. None of these adds an error.
/// An operator whose operands do not meet its rule gives `Unknown` and reports the two
/// operand types and the operator's symbol; `@@` always gives `Unknown` and an error.
pub proof fn lemma_operator_typing(nodes: Seq<TypeNode>, op: BinaryOp, l: TypeNodeModel, r: TypeNodeModel)
    ensures
        (op == BinaryOp::Add || op == BinaryOp::Sub || op == BinaryOp::Mul || op == BinaryOp::Div
            || op == BinaryOp::Mod || op == BinaryOp::Pow) && l.name == "Number"@ && r.name == "Number"@
            ==> binary_rule(nodes, op, l, r) == (lookup(nodes, "Number"@).unwrap(), None::<ErrModel>),
        (op == BinaryOp::Eq || op == BinaryOp::Neq || op == BinaryOp::Lt || op == BinaryOp::Gt
            || op == BinaryOp::Le || op == BinaryOp::Ge) && l.name == "Number"@ && r.name == "Number"@
            ==> binary_rule(nodes, op, l, r) == (lookup(nodes, "Boolean"@).unwrap(), None::<ErrModel>),
        (op == BinaryOp::And || op == BinaryOp::Or) && l.name == "Boolean"@ && r.name == "Boolean"@
            ==> binary_rule(nodes, op, l, r) == (lookup(nodes, "Boolean"@).unwrap(), None::<ErrModel>),
        op == BinaryOp::Concat && (l.name == "String"@ || l.name == "Boolean"@ || l.name == "Number"@)
            && (r.name == "String"@ || r.name == "Boolean"@ || r.name == "Number"@)
            ==> binary_rule(nodes, op, l, r) == (lookup(nodes, "String"@).unwrap(), None::<ErrModel>),
        (op == BinaryOp::Add || op == BinaryOp::Sub || op == BinaryOp::Mul || op == BinaryOp::Div
            || op == BinaryOp::Mod || op == BinaryOp::Pow || op == BinaryOp::Eq || op == BinaryOp::Neq
            || op == BinaryOp::Lt || op == BinaryOp::Gt || op == BinaryOp::Le || op == BinaryOp::Ge)
            && !(l.name == "Number"@ && r.name == "Number"@)
            ==> binary_rule(nodes, op, l, r) == (lookup(nodes, "Unknown"@).unwrap(),
                Some(ErrModel::BinaryOp(l.name, r.name, op_symbol(op)))),
        (op == BinaryOp::And || op == BinaryOp::Or) && !(l.name == "Boolean"@ && r.name == "Boolean"@)
            ==> binary_rule(nodes, op, l, r) == (lookup(nodes, "Unknown"@).unwrap(),
                Some(ErrModel::BinaryOp(l.name, r.name, op_symbol(op)))),
        op == BinaryOp::Concat && !((l.name == "String"@ || l.name == "Boolean"@ || l.name == "Number"@)
            && (r.name == "String"@ || r.name == "Boolean"@ || r.name == "Number"@))
            ==> binary_rule(nodes, op, l, r) == (lookup(nodes, "Unknown"@).unwrap(),
                Some(ErrModel::BinaryOp(l.name, r.name, op_symbol(op)))),
        op == BinaryOp::ConcatWs ==> binary_rule(nodes, op, l, r).0 == lookup(nodes, "Unknown"@).unwrap()
            && binary_rule(nodes, op, l, r).1 is Some,
{
}

/// The typing rule of negation: a number to a number.
pub open spec fn unary_rule(nodes: Seq<TypeNode>, t: TypeNodeModel) -> (TypeNodeModel, Option<ErrModel>) {
    if t.name == "Number"@ {
        (basic(nodes, "Number"@), None)
    } else {
        (basic(nodes, "Unknown"@), Some(ErrModel::UnaryOp(t.name, "-"@)))
    }
}

/// Adds an optional error to a list.
pub open spec fn with_err(errs: Seq<ErrModel>, e: Option<ErrModel>) -> Seq<ErrModel> {
    match e {
        Some(x) => errs.push(x),
        None => errs,
    }
}

/// The latest binding of `name` in a scope, if any.
pub open spec fn var_lookup(env: Seq<(Seq<char>, TypeNodeModel)>, name: Seq<char>) -> Option<TypeNodeModel>
    decreases env.len(),
{
    if env.len() == 0 {
        None
    } else if env.last().0 == name {
        Some(env.last().1)
    } else {
        var_lookup(env.drop_last(), name)
    }
}

/// The common ancestor the tree gives for two types (the root when there is none).
pub open spec fn lca_of(nodes: Seq<TypeNode>, root: TypeNodeModel, a: TypeNodeModel, b: TypeNodeModel) -> TypeNodeModel {
    match lca_spec(nodes, a, b, chain_fuel(nodes, a), chain_fuel(nodes, b)) {
        Some(m) => m,
        None => root,
    }
}

/// The expressions the analysis covers: literals, variables, operators, conditionals,
/// loops, blocks of expression statements, `let`, assignment to a variable, attribute reads
/// and calls of functions.
pub open spec fn core_expr(e: ExprModel) -> bool
    decreases e, 0int,
{
    match e {
        ExprModel::Node(k, _) => match k {
            ExprKindModel::Number(_) | ExprKindModel::String(_) | ExprKindModel::Boolean(_)
            | ExprKindModel::Variable(_) | ExprKindModel::SelfExpr | ExprKindModel::Call(_, _) => true,
            ExprKindModel::Binary(_, l, r) => core_expr(*l) && core_expr(*r),
            ExprKindModel::Unary(_, x) => core_expr(*x),
            ExprKindModel::GetAttr(o, _) => core_expr(*o),
            ExprKindModel::Assign(_, v) => core_expr(*v),
            ExprKindModel::If(c, t, el) => core_expr(*c) && core_expr(*t) && match el {
                Some(x) => core_expr(*x),
                None => true,
            },
            ExprKindModel::Let(_, v, b, _) => core_expr(*v) && core_expr(*b),
            ExprKindModel::While(c, b) => core_expr(*c) && core_expr(*b),
            ExprKindModel::For(_, _, b) => core_expr(*b),
            ExprKindModel::Block(ss) => core_stmts(ss),
            ExprKindModel::New(_, args) => core_exprs(args),
            ExprKindModel::MethodCall(o, _, args) => core_expr(*o) && core_exprs(args),
            ExprKindModel::SetAttr(o, _, v) => core_expr(*o) && core_expr(*v),
            ExprKindModel::BaseCall(_) => true,
            _ => false,
        },
    }
}

/// Covered expressions.
pub open spec fn core_exprs(v: Seq<ExprModel>) -> bool
    decreases v, 0int,
{
    if v.len() == 0 {
        true
    } else {
        core_exprs(v.subrange(0, v.len() - 1)) && core_expr(v[v.len() - 1])
    }
}

/// The signatures of parameters.
pub open spec fn param_sigs(ps: Seq<(Seq<char>, Seq<char>)>) -> Seq<Seq<char>> {
    ps.map_values(|p: (Seq<char>, Seq<char>)| p.1)
}

/// The method `m` as found from the type named `name` upwards, if the type is in the tree.
pub open spec fn method_of(nodes: Seq<TypeNode>, name: Seq<char>, m: Seq<char>) -> Option<FnModel> {
    match lookup(nodes, name) {
        Some(n) => method_lookup(nodes, name, m, chain_fuel(nodes, n)),
        None => None,
    }
}

/// Expression statements of covered expressions.
pub open spec fn core_stmts(ss: Seq<StmtModel>) -> bool
    decreases ss, 0int,
{
    if ss.len() == 0 {
        true
    } else {
        core_stmts(ss.subrange(0, ss.len() - 1)) && match ss[ss.len() - 1] {
            StmtModel::Node(StmtKindModel::ExprStmt(e), _) => core_expr(e),
            _ => false,
        }
    }
}

/// The analysis of an expression in the scope `env`, after the errors `errs`: its type, the
/// scope after it, and the errors after it.
pub open spec fn check(nodes: Seq<TypeNode>, root: TypeNodeModel, env: Seq<(Seq<char>, TypeNodeModel)>,
    errs: Seq<ErrModel>, e: ExprModel) -> (TypeNodeModel, Seq<(Seq<char>, TypeNodeModel)>, Seq<ErrModel>)
    decreases e, 0int,
{
    let unknown = basic(nodes, "Unknown"@);
    match e {
        ExprModel::Node(k, _) => match k {
            ExprKindModel::Number(_) => (basic(nodes, "Number"@), env, errs),
            ExprKindModel::String(_) => (basic(nodes, "String"@), env, errs),
            ExprKindModel::Boolean(_) => (basic(nodes, "Boolean"@), env, errs),
            ExprKindModel::Variable(id) => check_var(nodes, env, errs, id),
            ExprKindModel::SelfExpr => check_var(nodes, env, errs, "self"@),
            ExprKindModel::Call(f, _) => (unknown, env, errs.push(ErrModel::UndeclaredFunction(f))),
            ExprKindModel::Binary(op, l, r) => {
                let (lt, env1, errs1) = check(nodes, root, env, errs, *l);
                let (rt, env2, errs2) = check(nodes, root, env1, errs1, *r);
                let (t, err) = binary_rule(nodes, op, lt, rt);
                (t, env2, with_err(errs2, err))
            },
            ExprKindModel::Unary(_, x) => {
                let (xt, env1, errs1) = check(nodes, root, env, errs, *x);
                let (t, err) = unary_rule(nodes, xt);
                (t, env1, with_err(errs1, err))
            },
            ExprKindModel::GetAttr(o, a) => {
                let (ot, env1, errs1) = check(nodes, root, env, errs, *o);
                (unknown, env1, errs1.push(ErrModel::PropertyAccess(ot.name, a)))
            },
            ExprKindModel::Assign(name, v) => match var_lookup(env, name) {
                Some(_) => {
                    let (vt, env1, errs1) = check(nodes, root, env, errs, *v);
                    (vt, env1.push((name, vt)), errs1)
                },
                None => (unknown, env, errs.push(ErrModel::UndefinedIdentifier(name))),
            },
            ExprKindModel::If(c, t, el) => {
                let (ct, env1, errs1) = check(nodes, root, env, errs, *c);
                let errs2 = if ct.name != "Boolean"@ { errs1.push(ErrModel::Condition(ct.name)) } else { errs1 };
                let (tt, env3, errs3) = check(nodes, root, env1, errs2, *t);
                let (et, env4, errs4) = match el {
                    Some(x) => check(nodes, root, env3, errs3, *x),
                    None => (unknown, env3, errs3),
                };
                if tt.name != et.name {
                    let lca = lca_of(nodes, root, tt, et);
                    let errs5 = if lca.name == "Unknown"@ {
                        errs4.push(ErrModel::Other("Incompatible types in if-else branches"@))
                    } else {
                        errs4
                    };
                    (lca, env4, errs5)
                } else {
                    (tt, env4, errs4)
                }
            },
            ExprKindModel::Let(name, v, b, _) => {
                let (vt, env1, errs1) = check(nodes, root, env, errs, *v);
                let (env2, errs2) = if var_lookup(env1, name) is Some {
                    (env1, errs1.push(ErrModel::Redefinition(name)))
                } else {
                    (env1.push((name, vt)), errs1)
                };
                let (bt, _, errs3) = check(nodes, root, env2, errs2, *b);
                (bt, env, errs3)
            },
            ExprKindModel::While(c, b) => {
                let (ct, env1, errs1) = check(nodes, root, env, errs, *c);
                let errs2 = if ct.name != "Boolean"@ { errs1.push(ErrModel::Condition(ct.name)) } else { errs1 };
                check(nodes, root, env1, errs2, *b)
            },
            ExprKindModel::For(it, _, b) => {
                let (bt, _, errs1) = check(nodes, root, env.push((it, basic(nodes, "Number"@))), errs, *b);
                (bt, env, errs1)
            },
            ExprKindModel::Block(ss) => {
                let (t, _, errs1) = check_stmts(nodes, root, env, errs, ss);
                (t, env, errs1)
            },
            ExprKindModel::New(class, args) => match lookup(nodes, class) {
                None => (unknown, env, errs.push(ErrModel::UndefinedType(class))),
                Some(tn) => if tn.params.len() != args.len() {
                    (unknown, env, errs.push(ErrModel::TypeArgCount(args.len(), tn.params.len(), class)))
                } else {
                    let (env1, errs1) = check_args(nodes, root, env, errs, args, param_sigs(tn.params), "types"@, class, 0);
                    (tn, env1, errs1)
                },
            },
            ExprKindModel::MethodCall(o, m, args) => {
                let (ot, env1, errs1) = check(nodes, root, env, errs, *o);
                match method_of(nodes, ot.name, m) {
                    None => (unknown, env1, errs1.push(ErrModel::FunctionAccess(ot.name, m))),
                    Some(f) => if f.1.len() != args.len() {
                        (unknown, env1, errs1.push(ErrModel::ArgCount(args.len(), f.1.len(), m)))
                    } else {
                        let (env2, errs2) = check_args(nodes, root, env1, errs1, args, param_sigs(f.1), "function"@, m, 0);
                        match lookup(nodes, f.2) {
                            Some(rt) => (rt, env2, errs2),
                            None => (unknown, env2, errs2.push(ErrModel::UndefinedType(f.2))),
                        }
                    },
                }
            },
            ExprKindModel::SetAttr(o, a, v) => {
                let (ot, env1, errs1) = check(nodes, root, env, errs, *o);
                if assoc(ot.variables, a) is Some {
                    check(nodes, root, env1, errs1, *v)
                } else {
                    (unknown, env1, errs1.push(ErrModel::PropertyAccess(ot.name, a)))
                }
            },
            ExprKindModel::BaseCall(_) => (unknown, env, errs.push(ErrModel::UndeclaredFunction("base"@))),
            _ => (unknown, env, errs),
        },
    }
}

/// The arguments from position `i` on, each checked against its parameter's signature: an
/// error naming the call (`kind` and `name`) for each whose type differs.
pub open spec fn check_args(nodes: Seq<TypeNode>, root: TypeNodeModel, env: Seq<(Seq<char>, TypeNodeModel)>,
    errs: Seq<ErrModel>, args: Seq<ExprModel>, sigs: Seq<Seq<char>>, kind: Seq<char>, name: Seq<char>, i: int)
    -> (Seq<(Seq<char>, TypeNodeModel)>, Seq<ErrModel>)
    decreases args, args.len() - i,
{
    if i < 0 || i >= args.len() {
        (env, errs)
    } else {
        let (t, env1, errs1) = check(nodes, root, env, errs, args[i]);
        let errs2 = if t.name != sigs[i] {
            errs1.push(ErrModel::TypeArgument(kind, t.name, sigs[i], i as nat, name))
        } else {
            errs1
        };
        check_args(nodes, root, env1, errs2, args, sigs, kind, name, i + 1)
    }
}

/// A variable: the type of its latest binding; `Unknown` and an error when it has none.
pub open spec fn check_var(nodes: Seq<TypeNode>, env: Seq<(Seq<char>, TypeNodeModel)>, errs: Seq<ErrModel>, id: Seq<char>)
    -> (TypeNodeModel, Seq<(Seq<char>, TypeNodeModel)>, Seq<ErrModel>) {
    match var_lookup(env, id) {
        Some(t) => match lookup(nodes, t.name) {
            Some(n) => (n, env, errs),
            None => (basic(nodes, "Unknown"@), env, errs.push(ErrModel::UndefinedType(t.name))),
        },
        None => (basic(nodes, "Unknown"@), env, errs.push(ErrModel::UndefinedIdentifier(id))),
    }
}

/// Expression statements one after the other: the type of the last (`Unknown` when there are
/// none), the scope and the errors after them.
pub open spec fn check_stmts(nodes: Seq<TypeNode>, root: TypeNodeModel, env: Seq<(Seq<char>, TypeNodeModel)>,
    errs: Seq<ErrModel>, ss: Seq<StmtModel>) -> (TypeNodeModel, Seq<(Seq<char>, TypeNodeModel)>, Seq<ErrModel>)
    decreases ss, 0int,
{
    if ss.len() == 0 {
        (basic(nodes, "Unknown"@), env, errs)
    } else {
        let (_, env1, errs1) = check_stmts(nodes, root, env, errs, ss.subrange(0, ss.len() - 1));
        match ss[ss.len() - 1] {
            StmtModel::Node(StmtKindModel::ExprStmt(e), _) => check(nodes, root, env1, errs1, e),
            _ => (basic(nodes, "Unknown"@), env1, errs1),
        }
    }
}

/// A scope: its variables and their types, the latest binding of a name last, and the names
/// of the types the program declares.
pub struct Scope {
    pub variables: Vec<(String, TypeNode)>,
    pub declared_types: Vec<String>,
}

/// The type declarations of statements from position `i` on, after the declared names
/// `declared` and the errors `errs`: a type already in the tree or declared before is an
/// error; otherwise it is declared (an error too when it names itself as its base).
pub open spec fn type_definitions(nodes: Seq<TypeNode>, declared: Seq<Seq<char>>, errs: Seq<ErrModel>,
    ss: Seq<StmtModel>, i: int) -> (Seq<Seq<char>>, Seq<ErrModel>)
    decreases ss.len() - i,
{
    if i < 0 || i >= ss.len() {
        (declared, errs)
    } else {
        match ss[i] {
            StmtModel::Node(StmtKindModel::TypeDecl(n, _, _, _, base, _), _) =>
                if lookup(nodes, n) is Some || declared.contains(n) {
                    type_definitions(nodes, declared, errs.push(ErrModel::TypeRedefinition(n)), ss, i + 1)
                } else {
                    let errs1 = if n == base {
                        errs.push(ErrModel::Other("Type cannot inherit from itself"@))
                    } else {
                        errs
                    };
                    type_definitions(nodes, declared.push(n), errs1, ss, i + 1)
                },
            _ => type_definitions(nodes, declared, errs, ss, i + 1),
        }
    }
}

/// The semantic analyser: the current scope, the errors found so far, and the tree of types.
pub struct SemanticVisitor {
    pub current_scope: Scope,
    pub errors: Vec<SemanticError>,
    pub type_ast: TypeAST,
}

/// Variables as plain values.
pub open spec fn env_model(v: Seq<(String, TypeNode)>) -> Seq<(Seq<char>, TypeNodeModel)> {
    v.map_values(|p: (String, TypeNode)| (p.0@, p.1.model()))
}

/// The position given to the errors of the analysis, whose syntax tree keeps no byte offsets.
pub open spec fn no_pos() -> TokenPos {
    TokenPos { start: 0, end: 0 }
}

/// A visit of an expression took the analyser from `a` to `b` and gave `t`, as `check` says,
/// leaving the tree of types as it was and keeping the scope it started with as a prefix.
pub open spec fn visited(a: SemanticVisitor, b: SemanticVisitor, e: ExprModel, t: TypeNode) -> bool {
    let c = check(a.type_ast.nodes@, a.type_ast.root.model(), env_model(a.current_scope.variables@),
        errs_model(a.errors@), e);
    &&& b.type_ast == a.type_ast
    &&& b.wf()
    &&& t.model() == c.0
    &&& env_model(b.current_scope.variables@) == c.1
    &&& errs_model(b.errors@) == c.2
    &&& valid_ty(a.type_ast.nodes@, a.type_ast.root.model(), t.model())
    &&& a.current_scope.variables@.len() <= b.current_scope.variables@.len()
    &&& b.current_scope.variables@.subrange(0, a.current_scope.variables@.len() as int) == a.current_scope.variables@
}

impl SemanticVisitor {
    /// The analyser can work: its tree holds the basic types and all chains end, and its scope
    /// gives types that the analysis can give.
    pub open spec fn wf(&self) -> bool {
        &&& analyzable(self.type_ast.nodes@)
        &&& finite_chain(self.type_ast.nodes@, self.type_ast.root.model())
        &&& forall|i: int| 0 <= i < self.current_scope.variables@.len() ==>
            valid_ty(self.type_ast.nodes@, self.type_ast.root.model(), #[trigger] self.current_scope.variables@[i].1.model())
    }

    /// An analyser with no variables and no errors, over the tree of the basic types.
    pub fn new() -> (v: Self)
        ensures
            v.wf(),
            v.current_scope.variables@.len() == 0,
            v.errors@.len() == 0,
    {
        let t = TypeAST::new();
        proof {
            let nodes = t.nodes@;
            assert(basic_names()[0] == "String"@);
            assert(basic_names()[1] == "Number"@);
            assert(basic_names()[2] == "Boolean"@);
            assert(basic_names()[3] == "Unknown"@);
            assert(lookup(nodes, basic_names()[0]) is Some);
            assert(lookup(nodes, basic_names()[1]) is Some);
            assert(lookup(nodes, basic_names()[2]) is Some);
            assert(lookup(nodes, basic_names()[3]) is Some);
            let obj = basic_type("Object"@, 0, None, basic_names());
            assert(chain_ends(nodes, obj, 0));
            assert forall|m: TypeNodeModel| #[trigger] in_tree(nodes, m) implies finite_chain(nodes, m) by {
                if m.name == "Object"@ {
                    assert(chain_ends(nodes, m, 0));
                } else if basic_names().contains(m.name) {
                    let i = choose|i: int| 0 <= i < basic_names().len() && basic_names()[i] == m.name;
                    assert(lookup(nodes, basic_names()[i]) == Some(basic_type(basic_names()[i], 1, Some("Object"@), seq![])));
                    assert(parent_of(nodes, m) == Some(obj));
                    assert(chain_ends(nodes, obj, 0));
                    assert(chain_ends(nodes, m, 1));
                } else {
                    assert(lookup(nodes, m.name) is None);
                }
            }
            assert(chain_ends(nodes, t.root.model(), 0));
        }
        SemanticVisitor { current_scope: Scope { variables: Vec::new(), declared_types: Vec::new() }, errors: Vec::new(), type_ast: t }
    }

    /// The basic type named `name`, copied.
    fn basic_type_node(&self, name: &str) -> (t: TypeNode)
        requires
            lookup(self.type_ast.nodes@, name@) is Some,
        ensures
            t.model() == basic(self.type_ast.nodes@, name@),
            in_tree(self.type_ast.nodes@, t.model()),
    {
        proof {
            lemma_lookup_name(self.type_ast.nodes@, name@);
        }
        match self.type_ast.get_type(name) {
            Some(t) => t,
            None => {
                assert(false);
                self.type_ast.root.duplicate()
            },
        }
    }

    /// The latest binding of `name` in the scope, copied.
    fn lookup_var(&self, name: &String) -> (r: Option<TypeNode>)
        ensures
            match r {
                Some(t) => var_lookup(env_model(self.current_scope.variables@), name@) == Some(t.model()),
                None => var_lookup(env_model(self.current_scope.variables@), name@) is None,
            },
    {
        let ghost env = env_model(self.current_scope.variables@);
        let mut i = self.current_scope.variables.len();
        assert(env.subrange(0, i as int) =~= env);
        while i > 0
            invariant
                i <= self.current_scope.variables@.len(),
                env == env_model(self.current_scope.variables@),
                var_lookup(env, name@) == var_lookup(env.subrange(0, i as int), name@),
            decreases i,
        {
            let ghost pre = env.subrange(0, i as int);
            assert(pre.drop_last() =~= env.subrange(0, i - 1));
            if self.current_scope.variables[i - 1].0 == *name {
                return Some(self.current_scope.variables[i - 1].1.duplicate());
            }
            i -= 1;
        }
        None
    }

    /// Records an error.
    fn new_error(&mut self, e: SemanticError)
        ensures
            final(self).current_scope == old(self).current_scope,
            final(self).type_ast == old(self).type_ast,
            errs_model(final(self).errors@) == errs_model(old(self).errors@).push(err_model(e)),
    {
        let ghost before = self.errors@;
        self.errors.push(e);
        assert(errs_model(self.errors@) =~= errs_model(before).push(err_model(e)));
    }

    /// The type of a binary operation on operand types `left` and `right` (see
    /// `binary_rule`): when the rule rejects them, one error is recorded and the type is
    /// `Unknown`.
    pub fn binary_type(&mut self, op: BinaryOp, left: TypeNode, right: TypeNode) -> (t: TypeNode)
        requires
            old(self).wf(),
        ensures
            final(self).current_scope == old(self).current_scope,
            final(self).type_ast == old(self).type_ast,
            t.model() == binary_rule(old(self).type_ast.nodes@, op, left.model(), right.model()).0,
            in_tree(old(self).type_ast.nodes@, t.model()),
            errs_model(final(self).errors@) == with_err(errs_model(old(self).errors@),
                binary_rule(old(self).type_ast.nodes@, op, left.model(), right.model()).1),
    {
        let num = String::from_str("Number");
        let boo = String::from_str("Boolean");
        let st = String::from_str("String");
        let l_num = left.name == num;
        let r_num = right.name == num;
        let l_bool = left.name == boo;
        let r_bool = right.name == boo;
        let l_print = left.name == st || l_bool || l_num;
        let r_print = right.name == st || r_bool || r_num;
        let (ok, result): (bool, &str) = match op {
            BinaryOp::Add | BinaryOp::Sub | BinaryOp::Mul | BinaryOp::Div | BinaryOp::Mod | BinaryOp::Pow =>
                (l_num && r_num, "Number"),
            BinaryOp::Eq | BinaryOp::Neq | BinaryOp::Lt | BinaryOp::Gt | BinaryOp::Le | BinaryOp::Ge =>
                (l_num && r_num, "Boolean"),
            BinaryOp::Concat => (l_print && r_print, "String"),
            BinaryOp::And | BinaryOp::Or => (l_bool && r_bool, "Boolean"),
            BinaryOp::ConcatWs => {
                self.new_error(SemanticError::UnknownError(
                    String::from_str("Operator ( ConcatWs ) not supported in binary operation"), TokenPos { start: 0, end: 0 }));
                return self.basic_type_node("Unknown");
            },
        };
        if ok {
            self.basic_type_node(result)
        } else {
            let sym = op_text(op);
            self.new_error(SemanticError::InvalidBinaryOperation(left, right, String::from_str(sym), TokenPos { start: 0, end: 0 }));
            self.basic_type_node("Unknown")
        }
    }

    /// Visits a binary operation: its left operand, its right operand, then the rule of the
    /// operator (see `binary_rule`).
    pub fn visit_binary_expr(&mut self, e: &Expr) -> (t: TypeNode)
        requires
            old(self).wf(),
            e.kind is Binary,
            core_expr(expr_model(*e)),
        ensures
            visited(*old(self), *final(self), expr_model(*e), t),
        decreases e, 1int,
    {
        match &e.kind {
            ExprKind::Binary { op, left, right } => {
                let lt = self.visit_expr(left);
                let ghost mid = *self;
                let rt = self.visit_expr(right);
                let t = self.binary_type(*op, lt, rt);
                proof {
                    lemma_prefix_trans(old(self).current_scope.variables@, mid.current_scope.variables@,
                        self.current_scope.variables@);
                }
                t
            },
            _ => {
                assert(false);
                self.basic_type_node("Unknown")
            },
        }
    }

    /// The type of a negation of an operand of type `t` (see `unary_rule`).
    fn unary_type(&mut self, t: TypeNode) -> (r: TypeNode)
        requires
            old(self).wf(),
        ensures
            final(self).current_scope == old(self).current_scope,
            final(self).type_ast == old(self).type_ast,
            r.model() == unary_rule(old(self).type_ast.nodes@, t.model()).0,
            in_tree(old(self).type_ast.nodes@, r.model()),
            errs_model(final(self).errors@) == with_err(errs_model(old(self).errors@), unary_rule(old(self).type_ast.nodes@, t.model()).1),
    {
        let num = String::from_str("Number");
        if t.name == num {
            self.basic_type_node("Number")
        } else {
            self.new_error(SemanticError::InvalidUnaryOperation(t, String::from_str("-"), TokenPos { start: 0, end: 0 }));
            self.basic_type_node("Unknown")
        }
    }

    /// Visits a variable (see `check_var`).
    fn visit_var(&mut self, id: &String) -> (t: TypeNode)
        requires
            old(self).wf(),
        ensures
            final(self).current_scope == old(self).current_scope,
            final(self).type_ast == old(self).type_ast,
            valid_ty(old(self).type_ast.nodes@, old(self).type_ast.root.model(), t.model()),
            t.model() == check_var(old(self).type_ast.nodes@, env_model(old(self).current_scope.variables@),
                errs_model(old(self).errors@), id@).0,
            errs_model(final(self).errors@) == check_var(old(self).type_ast.nodes@, env_model(old(self).current_scope.variables@),
                errs_model(old(self).errors@), id@).2,
    {
        match self.lookup_var(id) {
            Some(v) => match self.type_ast.get_type(v.name.as_str()) {
                Some(n) => {
                    proof {
                        lemma_lookup_name(self.type_ast.nodes@, v.name@);
                    }
                    n
                },
                None => {
                    self.new_error(SemanticError::UndefinedType(v.name, TokenPos { start: 0, end: 0 }));
                    self.basic_type_node("Unknown")
                },
            },
            None => {
                self.new_error(SemanticError::UndefinedIdentifier(id.clone(), TokenPos { start: 0, end: 0 }));
                self.basic_type_node("Unknown")
            },
        }
    }

    /// Visits an expression (see `check`): its type by the rules of the language, recording
    /// the errors found, in the current scope.
    pub fn visit_expr(&mut self, e: &Expr) -> (t: TypeNode)
        requires
            old(self).wf(),
            core_expr(expr_model(*e)),
        ensures
            visited(*old(self), *final(self), expr_model(*e), t),
        decreases e, 2int,
    {
        let ghost v0 = old(self).current_scope.variables@;
        assert(v0.subrange(0, v0.len() as int) =~= v0);
        match &e.kind {
            ExprKind::Number(_) => self.basic_type_node("Number"),
            ExprKind::String(_) => self.basic_type_node("String"),
            ExprKind::Boolean(_) => self.basic_type_node("Boolean"),
            ExprKind::Variable(id) => self.visit_var(id),
            ExprKind::SelfExpr => {
                let s = String::from_str("self");
                self.visit_var(&s)
            },
            ExprKind::Call { function, args: _ } => {
                self.new_error(SemanticError::UndeclaredFunction(function.clone(), TokenPos { start: 0, end: 0 }));
                self.basic_type_node("Unknown")
            },
            ExprKind::Binary { .. } => self.visit_binary_expr(e),
            ExprKind::Unary { op: _, expr } => {
                let xt = self.visit_expr(expr);
                self.unary_type(xt)
            },
            ExprKind::GetAttr { object, attr } => {
                let ot = self.visit_expr(object);
                self.new_error(SemanticError::InvalidTypePropertyAccess(ot.name, attr.clone(), TokenPos { start: 0, end: 0 }));
                self.basic_type_node("Unknown")
            },
            ExprKind::Assign { .. } => self.visit_assign(e),
            ExprKind::If { .. } => self.visit_if_else(e),
            ExprKind::Let { .. } => self.visit_let_in(e),
            ExprKind::While { .. } => self.visit_while_loop(e),
            ExprKind::For { .. } => self.visit_for_expr(e),
            ExprKind::Block { .. } => self.visit_code_block(e),
            ExprKind::New { .. } => self.visit_new_type_instance(e),
            ExprKind::MethodCall { .. } => self.visit_function_access(e),
            ExprKind::SetAttr { .. } => self.visit_attribute_assignment(e),
            ExprKind::BaseCall { .. } => {
                self.new_error(SemanticError::UndeclaredFunction(String::from_str("base"), TokenPos { start: 0, end: 0 }));
                self.basic_type_node("Unknown")
            },
            _ => {
                assert(false);
                self.basic_type_node("Unknown")
            },
        }
    }

    /// Visits the arguments of a call from position `i` on, checking each against its
    /// parameter's signature (see `check_args`).
    fn visit_args(&mut self, args: &Vec<Expr>, params: &Vec<FunctionParams>, kind: &str, name: &String)
        -> (r: bool)
        requires
            old(self).wf(),
            core_exprs(exprs_model(args@)),
            params@.len() == args@.len(),
        ensures
            ({
                let c = check_args(old(self).type_ast.nodes@, old(self).type_ast.root.model(),
                    env_model(old(self).current_scope.variables@), errs_model(old(self).errors@), exprs_model(args@),
                    param_sigs(params_model(params@)), kind@, name@, 0);
                &&& final(self).type_ast == old(self).type_ast
                &&& final(self).wf()
                &&& env_model(final(self).current_scope.variables@) == c.0
                &&& errs_model(final(self).errors@) == c.1
                &&& old(self).current_scope.variables@.len() <= final(self).current_scope.variables@.len()
                &&& final(self).current_scope.variables@.subrange(0, old(self).current_scope.variables@.len() as int)
                    == old(self).current_scope.variables@
            }),
        decreases args, 1int,
    {
        let ghost v0 = old(self).current_scope.variables@;
        let ghost nodes = old(self).type_ast.nodes@;
        let ghost root = old(self).type_ast.root.model();
        let ghost am = exprs_model(args@);
        let ghost sigs = param_sigs(params_model(params@));
        let ghost total = check_args(nodes, root, env_model(v0), errs_model(old(self).errors@), am, sigs, kind@, name@, 0);
        proof {
            lemma_exprs_len(args@);
        }
        assert(v0.subrange(0, v0.len() as int) =~= v0);
        let mut i: usize = 0;
        while i < args.len()
            invariant
                i <= args@.len(),
                params@.len() == args@.len(),
                am == exprs_model(args@),
                am.len() == args@.len(),
                sigs == param_sigs(params_model(params@)),
                core_exprs(am),
                self.wf(),
                self.type_ast == old(self).type_ast,
                nodes == self.type_ast.nodes@,
                root == self.type_ast.root.model(),
                v0.len() <= self.current_scope.variables@.len(),
                self.current_scope.variables@.subrange(0, v0.len() as int) == v0,
                total == check_args(nodes, root, env_model(self.current_scope.variables@), errs_model(self.errors@),
                    am, sigs, kind@, name@, i as int),
            decreases args@.len() - i,
        {
            proof {
                lemma_core_exprs_at(args@, i as int);
            }
            let ghost s0 = self.current_scope.variables@;
            let t = self.visit_expr(&args[i]);
            proof {
                lemma_prefix_trans(v0, s0, self.current_scope.variables@);
            }
            if t.name != params[i].signature {
                let found = t.name;
                self.new_error(SemanticError::InvalidTypeArgument(String::from_str(kind), found,
                    params[i].signature.clone(), i, name.clone(), TokenPos { start: 0, end: 0 }));
            }
            i += 1;
        }
        true
    }

    /// Visits a `new`: the type must exist and take as many arguments as given, each of the
    /// type its parameter names.
    fn visit_new_type_instance(&mut self, e: &Expr) -> (t: TypeNode)
        requires
            old(self).wf(),
            e.kind is New,
            core_expr(expr_model(*e)),
        ensures
            visited(*old(self), *final(self), expr_model(*e), t),
        decreases e, 1int,
    {
        let ghost v0 = old(self).current_scope.variables@;
        assert(v0.subrange(0, v0.len() as int) =~= v0);
        match &e.kind {
            ExprKind::New { class_name, args } => {
                proof {
                    lemma_exprs_len(args@);
                }
                match self.type_ast.get_type(class_name.as_str()) {
                    None => {
                        self.new_error(SemanticError::UndefinedType(class_name.clone(), TokenPos { start: 0, end: 0 }));
                        self.basic_type_node("Unknown")
                    },
                    Some(tn) => {
                        proof {
                            lemma_lookup_name(self.type_ast.nodes@, class_name@);
                        }
                        if tn.params.len() != args.len() {
                            self.new_error(SemanticError::InvalidTypeArgumentCount(args.len(), tn.params.len(),
                                class_name.clone(), TokenPos { start: 0, end: 0 }));
                            self.basic_type_node("Unknown")
                        } else {
                            self.visit_args(args, &tn.params, "types", class_name);
                            tn
                        }
                    },
                }
            },
            _ => {
                assert(false);
                self.basic_type_node("Unknown")
            },
        }
    }

    /// Visits a method call: the object, then the method as found from the object's type
    /// upwards, its argument count and types, and its return type.
    fn visit_function_access(&mut self, e: &Expr) -> (t: TypeNode)
        requires
            old(self).wf(),
            e.kind is MethodCall,
            core_expr(expr_model(*e)),
        ensures
            visited(*old(self), *final(self), expr_model(*e), t),
        decreases e, 1int,
    {
        let ghost v0 = old(self).current_scope.variables@;
        assert(v0.subrange(0, v0.len() as int) =~= v0);
        match &e.kind {
            ExprKind::MethodCall { object, method, args } => {
                proof {
                    lemma_exprs_len(args@);
                }
                let ot = self.visit_expr(object);
                let ghost s1 = self.current_scope.variables@;
                proof {
                    if lookup(self.type_ast.nodes@, ot.name@) is Some {
                        lemma_lookup_name(self.type_ast.nodes@, ot.name@);
                        assert(in_tree(self.type_ast.nodes@, lookup(self.type_ast.nodes@, ot.name@).unwrap()));
                    }
                }
                match self.type_ast.find_method(ot.name.clone(), method.clone()) {
                    None => {
                        self.new_error(SemanticError::InvalidTypeFunctionAccess(ot.name, method.clone(), TokenPos { start: 0, end: 0 }));
                        self.basic_type_node("Unknown")
                    },
                    Some(f) => {
                        if f.params.len() != args.len() {
                            self.new_error(SemanticError::InvalidArgumentsCount(args.len(), f.params.len(), method.clone(),
                                TokenPos { start: 0, end: 0 }));
                            self.basic_type_node("Unknown")
                        } else {
                            self.visit_args(args, &f.params, "function", method);
                            let ghost s2 = self.current_scope.variables@;
                            proof {
                                lemma_prefix_trans(v0, s1, s2);
                            }
                            match self.type_ast.get_type(f.return_type.as_str()) {
                                Some(rt) => {
                                    proof {
                                        lemma_lookup_name(self.type_ast.nodes@, f.return_type@);
                                    }
                                    rt
                                },
                                None => {
                                    self.new_error(SemanticError::UndefinedType(f.return_type.clone(), TokenPos { start: 0, end: 0 }));
                                    self.basic_type_node("Unknown")
                                },
                            }
                        }
                    },
                }
            },
            _ => {
                assert(false);
                self.basic_type_node("Unknown")
            },
        }
    }

    /// Visits an assignment to an attribute: the object, then, when its type has the
    /// attribute, the new value.
    fn visit_attribute_assignment(&mut self, e: &Expr) -> (t: TypeNode)
        requires
            old(self).wf(),
            e.kind is SetAttr,
            core_expr(expr_model(*e)),
        ensures
            visited(*old(self), *final(self), expr_model(*e), t),
        decreases e, 1int,
    {
        let ghost v0 = old(self).current_scope.variables@;
        assert(v0.subrange(0, v0.len() as int) =~= v0);
        match &e.kind {
            ExprKind::SetAttr { object, attr, value } => {
                let ot = self.visit_expr(object);
                let ghost s1 = self.current_scope.variables@;
                if ot.has_variable(attr) {
                    let vt = self.visit_expr(value);
                    proof {
                        lemma_prefix_trans(v0, s1, self.current_scope.variables@);
                    }
                    vt
                } else {
                    self.new_error(SemanticError::InvalidTypePropertyAccess(ot.name, attr.clone(), TokenPos { start: 0, end: 0 }));
                    self.basic_type_node("Unknown")
                }
            },
            _ => {
                assert(false);
                self.basic_type_node("Unknown")
            },
        }
    }

    /// Visits an assignment to a variable: the new value's type becomes the variable's (see `check`).
    fn visit_assign(&mut self, e: &Expr) -> (t: TypeNode)
        requires
            old(self).wf(),
            e.kind is Assign,
            core_expr(expr_model(*e)),
        ensures
            visited(*old(self), *final(self), expr_model(*e), t),
        decreases e, 1int,
    {
        let ghost v0 = old(self).current_scope.variables@;
        assert(v0.subrange(0, v0.len() as int) =~= v0);
        match &e.kind {
            ExprKind::Assign { var_name, value } => match self.lookup_var(var_name) {
                Some(_) => {
                    let vt = self.visit_expr(value);
                    let ghost mid = self.current_scope.variables@;
                    let copy = vt.duplicate();
                    self.current_scope.variables.push((var_name.clone(), copy));
                    proof {
                        assert(env_model(self.current_scope.variables@) =~= env_model(mid).push((var_name@, vt.model())));
                        assert(self.current_scope.variables@.subrange(0, v0.len() as int) =~= mid.subrange(0, v0.len() as int));
                    }
                    vt
                },
                None => {
                    self.new_error(SemanticError::UndefinedIdentifier(var_name.clone(), TokenPos { start: 0, end: 0 }));
                    self.basic_type_node("Unknown")
                },
            },
            _ => {
                assert(false);
                self.basic_type_node("Unknown")
            },
        }
    }

    /// Visits a conditional: a boolean condition, then both branches; different branch types join at their closest common ancestor.
    fn visit_if_else(&mut self, e: &Expr) -> (t: TypeNode)
        requires
            old(self).wf(),
            e.kind is If,
            core_expr(expr_model(*e)),
        ensures
            visited(*old(self), *final(self), expr_model(*e), t),
        decreases e, 1int,
    {
        let ghost v0 = old(self).current_scope.variables@;
        assert(v0.subrange(0, v0.len() as int) =~= v0);
        match &e.kind {
            ExprKind::If { condition, then_branch, else_branch } => {
                let ct = self.visit_expr(condition);
                let ghost s1 = *self;
                let boo = String::from_str("Boolean");
                if ct.name != boo {
                    self.new_error(SemanticError::InvalidConditionType(ct, TokenPos { start: 0, end: 0 }));
                }
                let ghost s2 = *self;
                let tt = self.visit_expr(then_branch);
                let ghost s3 = *self;
                let et = match else_branch {
                    Some(x) => self.visit_expr(x),
                    None => self.basic_type_node("Unknown"),
                };
                let ghost s4 = *self;
                proof {
                    assert(s2.current_scope == s1.current_scope);
                    assert(s3.current_scope.variables@.subrange(0, s3.current_scope.variables@.len() as int)
                        =~= s3.current_scope.variables@);
                    lemma_prefix_trans(v0, s1.current_scope.variables@, s3.current_scope.variables@);
                    lemma_prefix_trans(v0, s3.current_scope.variables@, s4.current_scope.variables@);
                }
                proof {
                    let nodes = self.type_ast.nodes@;
                    if in_tree(nodes, tt.model()) {
                        assert(finite_chain(nodes, tt.model()));
                    }
                    if in_tree(nodes, et.model()) {
                        assert(finite_chain(nodes, et.model()));
                    }
                }
                if tt.name != et.name {
                    let lca = self.type_ast.find_lca(&tt, &et);
                    proof {
                        lemma_lca_in_tree(self.type_ast.nodes@, tt.model(), et.model(),
                            chain_fuel(self.type_ast.nodes@, tt.model()), chain_fuel(self.type_ast.nodes@, et.model()));
                    }
                    let unk = String::from_str("Unknown");
                    if lca.name == unk {
                        self.new_error(SemanticError::UnknownError(String::from_str("Incompatible types in if-else branches"),
                            TokenPos { start: 0, end: 0 }));
                    }
                    lca
                } else {
                    tt
                }
            },
            _ => {
                assert(false);
                self.basic_type_node("Unknown")
            },
        }
    }

    /// Visits a `let`: its value, then its body in a scope where the name is bound (an error when the name is bound already).
    fn visit_let_in(&mut self, e: &Expr) -> (t: TypeNode)
        requires
            old(self).wf(),
            e.kind is Let,
            core_expr(expr_model(*e)),
        ensures
            visited(*old(self), *final(self), expr_model(*e), t),
        decreases e, 1int,
    {
        let ghost v0 = old(self).current_scope.variables@;
        assert(v0.subrange(0, v0.len() as int) =~= v0);
        match &e.kind {
            ExprKind::Let { name, value, body, declared_type: _ } => {
                let saved = self.current_scope.variables.len();
                let vt = self.visit_expr(value);
                let ghost s1 = *self;
                match self.lookup_var(name) {
                    Some(_) => {
                        self.new_error(SemanticError::RedefinitionOfVariable(name.clone(), TokenPos { start: 0, end: 0 }));
                    },
                    None => {
                        self.current_scope.variables.push((name.clone(), vt));
                        assert(env_model(self.current_scope.variables@) =~= env_model(s1.current_scope.variables@).push((name@, vt.model())));
                    },
                }
                let ghost s2 = *self;
                assert(s2.current_scope.variables@.subrange(0, saved as int) =~= v0) by {
                    assert(s2.current_scope.variables@.subrange(0, saved as int) =~= s1.current_scope.variables@.subrange(0, saved as int));
                }
                let bt = self.visit_expr(body);
                let ghost s3 = *self;
                self.current_scope.variables.truncate(saved);
                proof {
                    lemma_prefix_trans(v0, s2.current_scope.variables@, s3.current_scope.variables@);
                    assert(self.current_scope.variables@ =~= v0);
                }
                bt
            },
            _ => {
                assert(false);
                self.basic_type_node("Unknown")
            },
        }
    }

    /// Visits a `while` loop: a boolean condition, then its body.
    fn visit_while_loop(&mut self, e: &Expr) -> (t: TypeNode)
        requires
            old(self).wf(),
            e.kind is While,
            core_expr(expr_model(*e)),
        ensures
            visited(*old(self), *final(self), expr_model(*e), t),
        decreases e, 1int,
    {
        let ghost v0 = old(self).current_scope.variables@;
        assert(v0.subrange(0, v0.len() as int) =~= v0);
        match &e.kind {
            ExprKind::While { condition, body } => {
                let ct = self.visit_expr(condition);
                let ghost s1 = *self;
                let boo = String::from_str("Boolean");
                if ct.name != boo {
                    self.new_error(SemanticError::InvalidConditionType(ct, TokenPos { start: 0, end: 0 }));
                }
                let bt = self.visit_expr(body);
                proof {
                    lemma_prefix_trans(v0, s1.current_scope.variables@, self.current_scope.variables@);
                }
                bt
            },
            _ => {
                assert(false);
                self.basic_type_node("Unknown")
            },
        }
    }

    /// Visits a `for` loop: its body in a scope where the iterator is a number.
    fn visit_for_expr(&mut self, e: &Expr) -> (t: TypeNode)
        requires
            old(self).wf(),
            e.kind is For,
            core_expr(expr_model(*e)),
        ensures
            visited(*old(self), *final(self), expr_model(*e), t),
        decreases e, 1int,
    {
        let ghost v0 = old(self).current_scope.variables@;
        assert(v0.subrange(0, v0.len() as int) =~= v0);
        match &e.kind {
            ExprKind::For { iterator, collection: _, body } => {
                let saved = self.current_scope.variables.len();
                let n = self.basic_type_node("Number");
                self.current_scope.variables.push((iterator.clone(), n));
                assert(env_model(self.current_scope.variables@) =~= env_model(v0).push((iterator@, n.model())));
                let ghost s2 = *self;
                assert(s2.current_scope.variables@.subrange(0, saved as int) =~= v0);
                let bt = self.visit_expr(body);
                let ghost s3 = *self;
                self.current_scope.variables.truncate(saved);
                proof {
                    lemma_prefix_trans(v0, s2.current_scope.variables@, s3.current_scope.variables@);
                    assert(self.current_scope.variables@ =~= v0);
                }
                bt
            },
            _ => {
                assert(false);
                self.basic_type_node("Unknown")
            },
        }
    }

    /// Visits a block: its statements in a scope of their own.
    fn visit_code_block(&mut self, e: &Expr) -> (t: TypeNode)
        requires
            old(self).wf(),
            e.kind is Block,
            core_expr(expr_model(*e)),
        ensures
            visited(*old(self), *final(self), expr_model(*e), t),
        decreases e, 1int,
    {
        let ghost v0 = old(self).current_scope.variables@;
        assert(v0.subrange(0, v0.len() as int) =~= v0);
        match &e.kind {
            ExprKind::Block { stmts } => {
                let saved = self.current_scope.variables.len();
                let (t, _) = self.visit_stmts(stmts);
                let ghost s3 = *self;
                self.current_scope.variables.truncate(saved);
                proof {
                    assert(self.current_scope.variables@ =~= v0);
                }
                t
            },
            _ => {
                assert(false);
                self.basic_type_node("Unknown")
            },
        }
    }

    /// Visits expression statements one after the other (see `check_stmts`), in the current
    /// scope: the type of the last one, `Unknown` when there is none.
    pub fn visit_stmts(&mut self, stmts: &Vec<Stmt>) -> (r: (TypeNode, bool))
        requires
            old(self).wf(),
            core_stmts(stmts_model(stmts@)),
        ensures
            ({
                let c = check_stmts(old(self).type_ast.nodes@, old(self).type_ast.root.model(),
                    env_model(old(self).current_scope.variables@), errs_model(old(self).errors@), stmts_model(stmts@));
                &&& final(self).type_ast == old(self).type_ast
                &&& final(self).wf()
                &&& r.0.model() == c.0
                &&& env_model(final(self).current_scope.variables@) == c.1
                &&& errs_model(final(self).errors@) == c.2
                &&& valid_ty(old(self).type_ast.nodes@, old(self).type_ast.root.model(), r.0.model())
                &&& old(self).current_scope.variables@.len() <= final(self).current_scope.variables@.len()
                &&& final(self).current_scope.variables@.subrange(0, old(self).current_scope.variables@.len() as int)
                    == old(self).current_scope.variables@
            }),
        decreases stmts, 1int,
    {
        let ghost v0 = old(self).current_scope.variables@;
        let ghost nodes = old(self).type_ast.nodes@;
        let ghost root = old(self).type_ast.root.model();
        let ghost env0 = env_model(v0);
        let ghost errs0 = errs_model(old(self).errors@);
        let mut last = self.basic_type_node("Unknown");
        let mut i: usize = 0;
        assert(stmts_model(stmts@.subrange(0, 0)) =~= Seq::<StmtModel>::empty());
        assert(v0.subrange(0, v0.len() as int) =~= v0);
        while i < stmts.len()
            invariant
                i <= stmts@.len(),
                self.wf(),
                self.type_ast == old(self).type_ast,
                nodes == self.type_ast.nodes@,
                root == self.type_ast.root.model(),
                core_stmts(stmts_model(stmts@)),
                v0.len() <= self.current_scope.variables@.len(),
                self.current_scope.variables@.subrange(0, v0.len() as int) == v0,
                valid_ty(nodes, root, last.model()),
                ({
                    let c = check_stmts(nodes, root, env0, errs0, stmts_model(stmts@.subrange(0, i as int)));
                    &&& last.model() == c.0
                    &&& env_model(self.current_scope.variables@) == c.1
                    &&& errs_model(self.errors@) == c.2
                }),
            decreases stmts@.len() - i,
        {
            proof {
                lemma_core_stmts_at(stmts@, i as int);
                let s1 = stmts@.subrange(0, i + 1);
                assert(s1.subrange(0, s1.len() - 1) =~= stmts@.subrange(0, i as int));
                let m = stmts_model(s1);
                lemma_stmts_len(stmts@.subrange(0, i as int));
                assert(s1[i as int] == stmts@[i as int]);
                assert(m.subrange(0, m.len() - 1) =~= stmts_model(stmts@.subrange(0, i as int)));
                assert(m[i as int] == stmt_model(stmts@[i as int]));
            }
            match &stmts[i].kind {
                StmtKind::ExprStmt(x) => {
                    let ghost s0 = self.current_scope.variables@;
                    last = self.visit_expr(x);
                    proof {
                        lemma_prefix_trans(v0, s0, self.current_scope.variables@);
                    }
                },
                _ => {
                    assert(false);
                },
            }
            i += 1;
        }
        assert(stmts@.subrange(0, stmts@.len() as int) =~= stmts@);
        (last, true)
    }
}

/// The text of a binary operator (see `op_symbol`).
fn op_text(op: BinaryOp) -> (s: &'static str)
    ensures
        s@ == op_symbol(op),
{
    match op {
        BinaryOp::Add => "+",
        BinaryOp::Sub => "-",
        BinaryOp::Mul => "*",
        BinaryOp::Div => "/",
        BinaryOp::Mod => "%",
        BinaryOp::Pow => "^",
        BinaryOp::Eq => "==",
        BinaryOp::Neq => "!=",
        BinaryOp::Lt => "<",
        BinaryOp::Gt => ">",
        BinaryOp::Le => "<=",
        BinaryOp::Ge => ">=",
        BinaryOp::And => "&",
        BinaryOp::Or => "|",
        BinaryOp::Concat => "@",
        BinaryOp::ConcatWs => "@@",
    }
}

/// One model per expression.
proof fn lemma_exprs_len(v: Seq<Expr>)
    ensures
        exprs_model(v).len() == v.len(),
    decreases v.len(),
{
    if v.len() > 0 {
        lemma_exprs_len(v.subrange(0, v.len() - 1));
    }
}

/// The expressions of a covered list are covered.
proof fn lemma_core_exprs_at(v: Seq<Expr>, i: int)
    requires
        core_exprs(exprs_model(v)),
        0 <= i < v.len(),
    ensures
        core_expr(expr_model(v[i])),
        exprs_model(v)[i] == expr_model(v[i]),
    decreases v.len(),
{
    let init = v.subrange(0, v.len() - 1);
    lemma_exprs_len(init);
    assert(exprs_model(v).subrange(0, exprs_model(v).len() - 1) =~= exprs_model(init));
    assert(exprs_model(v)[v.len() - 1] == expr_model(v[v.len() - 1]));
    if i < v.len() - 1 {
        lemma_core_exprs_at(init, i);
        assert(init[i] == v[i]);
        assert(exprs_model(v)[i] == exprs_model(init)[i]);
    }
}

/// One model per statement.
proof fn lemma_stmts_len(v: Seq<Stmt>)
    ensures
        stmts_model(v).len() == v.len(),
    decreases v.len(),
{
    if v.len() > 0 {
        lemma_stmts_len(v.subrange(0, v.len() - 1));
    }
}

/// A prefix of a prefix is a prefix.
proof fn lemma_prefix_trans<T>(a: Seq<T>, b: Seq<T>, c: Seq<T>)
    requires
        a.len() <= b.len(),
        b.subrange(0, a.len() as int) == a,
        b.len() <= c.len(),
        c.subrange(0, b.len() as int) == b,
    ensures
        a.len() <= c.len(),
        c.subrange(0, a.len() as int) == a,
{
    assert(c.subrange(0, a.len() as int) =~= b.subrange(0, a.len() as int));
}

/// The statements of a covered list are expression statements of covered expressions.
proof fn lemma_core_stmts_at(v: Seq<Stmt>, i: int)
    requires
        core_stmts(stmts_model(v)),
        0 <= i < v.len(),
    ensures
        v[i].kind is ExprStmt,
        v[i].kind matches StmtKind::ExprStmt(x) ==> core_expr(expr_model(x)),
        core_stmts(stmts_model(v.subrange(0, i + 1))),
    decreases v.len(),
{
    let init = v.subrange(0, v.len() - 1);
    lemma_stmts_len(init);
    assert(stmts_model(v).subrange(0, stmts_model(v).len() - 1) =~= stmts_model(init));
    assert(stmts_model(v)[v.len() - 1] == stmt_model(v[v.len() - 1]));
    if i == v.len() - 1 {
        assert(v.subrange(0, i + 1) =~= v);
    } else {
        lemma_core_stmts_at(init, i);
        assert(init[i] == v[i]);
        assert(init.subrange(0, i + 1) =~= v.subrange(0, i + 1));
    }
}

impl SemanticVisitor {
    /// Analyses a program of expression statements in the current scope (see `check_stmts`):
    /// `Ok` exactly when no error was recorded, otherwise the errors recorded, in order.
    pub fn analyze(&mut self, program: &Program) -> (r: Result<(), Vec<SemanticError>>)
        requires
            old(self).wf(),
            core_stmts(program_model(*program)),
        ensures
            ({
                let c = check_stmts(old(self).type_ast.nodes@, old(self).type_ast.root.model(),
                    env_model(old(self).current_scope.variables@), errs_model(old(self).errors@), program_model(*program));
                &&& errs_model(final(self).errors@) == c.2
                &&& match r {
                    Ok(_) => c.2.len() == 0,
                    Err(v) => c.2.len() > 0 && errs_model(v@) == c.2,
                }
            }),
    {
        let _ = self.visit_stmts(&program.stmts);
        if self.errors.len() == 0 {
            Ok(())
        } else {
            let mut out: Vec<SemanticError> = Vec::new();
            let mut i: usize = 0;
            while i < self.errors.len()
                invariant
                    i <= self.errors@.len(),
                    errs_model(out@) == errs_model(self.errors@.subrange(0, i as int)),
                decreases self.errors@.len() - i,
            {
                let ghost before = out@;
                out.push(self.errors[i].duplicate());
                proof {
                    assert(errs_model(out@) =~= errs_model(before).push(err_model(self.errors@[i as int])));
                    assert(self.errors@.subrange(0, i + 1) =~= self.errors@.subrange(0, i as int).push(self.errors@[i as int]));
                    assert(errs_model(self.errors@.subrange(0, i + 1)) =~= errs_model(self.errors@.subrange(0, i as int)).push(err_model(self.errors@[i as int])));
                }
                i += 1;
            }
            assert(self.errors@.subrange(0, self.errors@.len() as int) =~= self.errors@);
            Err(out)
        }
    }
}

impl SemanticError {
    /// A copy of this error.
    pub fn duplicate(&self) -> (r: SemanticError)
        ensures
            err_model(r) == err_model(*self),
    {
        match self {
            SemanticError::DivisionByZero(p) => SemanticError::DivisionByZero(*p),
            SemanticError::UndefinedIdentifier(a, p) => SemanticError::UndefinedIdentifier(a.clone(), *p),
            SemanticError::InvalidConditionType(t, p) => SemanticError::InvalidConditionType(t.duplicate(), *p),
            SemanticError::InvalidBinaryOperation(l, r, op, p) =>
                SemanticError::InvalidBinaryOperation(l.duplicate(), r.duplicate(), op.clone(), *p),
            SemanticError::InvalidUnaryOperation(t, op, p) => SemanticError::InvalidUnaryOperation(t.duplicate(), op.clone(), *p),
            SemanticError::RedefinitionOfFunction(a, p) => SemanticError::RedefinitionOfFunction(a.clone(), *p),
            SemanticError::UndeclaredFunction(a, p) => SemanticError::UndeclaredFunction(a.clone(), *p),
            SemanticError::UnknownError(a, p) => SemanticError::UnknownError(a.clone(), *p),
            SemanticError::InvalidArgumentsCount(a, b, c, p) => SemanticError::InvalidArgumentsCount(*a, *b, c.clone(), *p),
            SemanticError::InvalidTypeArgument(a, b, c, d, f, p) =>
                SemanticError::InvalidTypeArgument(a.clone(), b.clone(), c.clone(), *d, f.clone(), *p),
            SemanticError::InvalidFunctionReturn(a, b, c, p) =>
                SemanticError::InvalidFunctionReturn(a.duplicate(), b.duplicate(), c.clone(), *p),
            SemanticError::RedefinitionOfVariable(a, p) => SemanticError::RedefinitionOfVariable(a.clone(), *p),
            SemanticError::UndefinedType(a, p) => SemanticError::UndefinedType(a.clone(), *p),
            SemanticError::ParamNameAlreadyExist(a, b, c, p) => SemanticError::ParamNameAlreadyExist(a.clone(), b.clone(), c.clone(), *p),
            SemanticError::RedefinitionOfType(a, p) => SemanticError::RedefinitionOfType(a.clone(), *p),
            SemanticError::CycleDetected(a, p) => SemanticError::CycleDetected(a.clone(), *p),
            SemanticError::InvalidTypeArgumentCount(a, b, c, p) => SemanticError::InvalidTypeArgumentCount(*a, *b, c.clone(), *p),
            SemanticError::InvalidTypeFunctionAccess(a, b, p) => SemanticError::InvalidTypeFunctionAccess(a.clone(), b.clone(), *p),
            SemanticError::InvalidTypePropertyAccess(a, b, p) => SemanticError::InvalidTypePropertyAccess(a.clone(), b.clone(), *p),
            SemanticError::InvalidTypeProperty(a, b, p) => SemanticError::InvalidTypeProperty(a.clone(), b.clone(), *p),
            SemanticError::InvalidPrint(a, p) => SemanticError::InvalidPrint(a.clone(), *p),
            SemanticError::InvalidIterable(a, b, p) => SemanticError::InvalidIterable(a.clone(), *b, *p),
        }
    }
}

impl SemanticVisitor {
    /// The basic type named `built_in`, copied.
    pub fn get_type(&self, built_in: &str) -> (t: TypeNode)
        requires
            lookup(self.type_ast.nodes@, built_in@) is Some,
        ensures
            t.model() == basic(self.type_ast.nodes@, built_in@),
    {
        self.basic_type_node(built_in)
    }

    /// Records the types a program declares (see `type_definitions`).
    pub fn get_types_definitions(&mut self, program: &Program)
        ensures
            final(self).type_ast == old(self).type_ast,
            final(self).current_scope.variables == old(self).current_scope.variables,
            (views_of(final(self).current_scope.declared_types@), errs_model(final(self).errors@)) == type_definitions(
                old(self).type_ast.nodes@, views_of(old(self).current_scope.declared_types@), errs_model(old(self).errors@),
                program_model(*program), 0),
    {
        let ghost ss = program_model(*program);
        proof {
            lemma_stmts_len(program.stmts@);
        }
        let mut i: usize = 0;
        while i < program.stmts.len()
            invariant
                i <= program.stmts@.len(),
                ss == program_model(*program),
                ss.len() == program.stmts@.len(),
                self.type_ast == old(self).type_ast,
                self.current_scope.variables == old(self).current_scope.variables,
                type_definitions(old(self).type_ast.nodes@, views_of(old(self).current_scope.declared_types@),
                    errs_model(old(self).errors@), ss, 0) == type_definitions(self.type_ast.nodes@,
                    views_of(self.current_scope.declared_types@), errs_model(self.errors@), ss, i as int),
            decreases program.stmts@.len() - i,
        {
            proof {
                lemma_stmts_at(program.stmts@, i as int);
            }
            match &program.stmts[i].kind {
                StmtKind::TypeDecl { name, base_type, .. } => {
                    let known = match self.type_ast.get_type(name.as_str()) {
                        Some(_) => true,
                        None => false,
                    };
                    if known || self.is_declared(name) {
                        self.new_error(SemanticError::RedefinitionOfType(name.clone(), TokenPos { start: 0, end: 0 }));
                    } else {
                        if *name == *base_type {
                            self.new_error(SemanticError::UnknownError(String::from_str("Type cannot inherit from itself"),
                                TokenPos { start: 0, end: 0 }));
                        }
                        let ghost before = self.current_scope.declared_types@;
                        self.current_scope.declared_types.push(name.clone());
                        assert(views_of(self.current_scope.declared_types@) =~= views_of(before).push(name@));
                    }
                },
                _ => {},
            }
            i += 1;
        }
    }

    /// Whether the program declared a type named `name`.
    fn is_declared(&self, name: &String) -> (b: bool)
        ensures
            b == views_of(self.current_scope.declared_types@).contains(name@),
    {
        let mut i: usize = 0;
        while i < self.current_scope.declared_types.len()
            invariant
                i <= self.current_scope.declared_types@.len(),
                forall|j: int| 0 <= j < i ==> self.current_scope.declared_types@[j]@ != name@,
            decreases self.current_scope.declared_types@.len() - i,
        {
            if self.current_scope.declared_types[i] == *name {
                assert(views_of(self.current_scope.declared_types@)[i as int] == name@);
                return true;
            }
            i += 1;
        }
        assert forall|j: int| 0 <= j < views_of(self.current_scope.declared_types@).len()
            implies views_of(self.current_scope.declared_types@)[j] != name@ by {
            assert(self.current_scope.declared_types@[j]@ != name@);
        }
        false
    }
}

/// Strings as plain values.
pub open spec fn views_of(v: Seq<String>) -> Seq<Seq<char>> {
    v.map_values(|s: String| s@)
}

/// The model of the statement at position `i` is the statement's model.
proof fn lemma_stmts_at(v: Seq<Stmt>, i: int)
    requires
        0 <= i < v.len(),
    ensures
        stmts_model(v)[i] == stmt_model(v[i]),
    decreases v.len(),
{
    let init = v.subrange(0, v.len() - 1);
    lemma_stmts_len(init);
    assert(stmts_model(v)[v.len() - 1] == stmt_model(v[v.len() - 1]));
    if i < v.len() - 1 {
        lemma_stmts_at(init, i);
        assert(init[i] == v[i]);
    }
}

/// Whether the analysis covers an expression (see `core_expr`).
pub fn covered_expr(e: &Expr) -> (b: bool)
    ensures
        b == core_expr(expr_model(*e)),
    decreases e, 1int,
{
    match &e.kind {
        ExprKind::Number(_) | ExprKind::String(_) | ExprKind::Boolean(_) | ExprKind::Variable(_)
        | ExprKind::SelfExpr | ExprKind::Call { .. } | ExprKind::BaseCall { .. } => true,
        ExprKind::Binary { op: _, left, right } => covered_expr(left) && covered_expr(right),
        ExprKind::Unary { op: _, expr } => covered_expr(expr),
        ExprKind::GetAttr { object, attr: _ } => covered_expr(object),
        ExprKind::Assign { var_name: _, value } => covered_expr(value),
        ExprKind::If { condition, then_branch, else_branch } => {
            covered_expr(condition) && covered_expr(then_branch) && match else_branch {
                Some(x) => covered_expr(x),
                None => true,
            }
        },
        ExprKind::Let { name: _, value, body, declared_type: _ } => covered_expr(value) && covered_expr(body),
        ExprKind::While { condition, body } => covered_expr(condition) && covered_expr(body),
        ExprKind::For { iterator: _, collection: _, body } => covered_expr(body),
        ExprKind::Block { stmts } => covered_stmts(stmts),
        ExprKind::New { class_name: _, args } => covered_exprs(args),
        ExprKind::MethodCall { object, method: _, args } => covered_expr(object) && covered_exprs(args),
        ExprKind::SetAttr { object, attr: _, value } => covered_expr(object) && covered_expr(value),
        ExprKind::As { .. } | ExprKind::Is { .. } => false,
    }
}

/// Whether the analysis covers every expression of a list (see `core_exprs`).
fn covered_exprs(v: &Vec<Expr>) -> (b: bool)
    ensures
        b == core_exprs(exprs_model(v@)),
    decreases v, 0int,
{
    let mut i: usize = 0;
    assert(exprs_model(v@.subrange(0, 0)) =~= Seq::<ExprModel>::empty());
    while i < v.len()
        invariant
            i <= v@.len(),
            core_exprs(exprs_model(v@.subrange(0, i as int))),
        decreases v@.len() - i,
    {
        let ok = covered_expr(&v[i]);
        proof {
            let s1 = v@.subrange(0, i + 1);
            assert(s1.subrange(0, s1.len() - 1) =~= v@.subrange(0, i as int));
            assert(s1[i as int] == v@[i as int]);
            lemma_exprs_len(v@.subrange(0, i as int));
            let m = exprs_model(s1);
            assert(m.subrange(0, m.len() - 1) =~= exprs_model(v@.subrange(0, i as int)));
            assert(m[i as int] == expr_model(v@[i as int]));
        }
        if !ok {
            proof {
                if core_exprs(exprs_model(v@)) {
                    lemma_core_exprs_prefix(v@, i + 1);
                }
            }
            return false;
        }
        i += 1;
    }
    assert(v@.subrange(0, v@.len() as int) =~= v@);
    true
}

/// Whether the analysis covers a list of statements (see `core_stmts`).
fn covered_stmts(v: &Vec<Stmt>) -> (b: bool)
    ensures
        b == core_stmts(stmts_model(v@)),
    decreases v, 0int,
{
    let mut i: usize = 0;
    assert(stmts_model(v@.subrange(0, 0)) =~= Seq::<StmtModel>::empty());
    while i < v.len()
        invariant
            i <= v@.len(),
            core_stmts(stmts_model(v@.subrange(0, i as int))),
        decreases v@.len() - i,
    {
        let ok = match &v[i].kind {
            StmtKind::ExprStmt(x) => covered_expr(x),
            _ => false,
        };
        proof {
            let s1 = v@.subrange(0, i + 1);
            assert(s1.subrange(0, s1.len() - 1) =~= v@.subrange(0, i as int));
            assert(s1[i as int] == v@[i as int]);
            lemma_stmts_len(v@.subrange(0, i as int));
            let m = stmts_model(s1);
            assert(m.subrange(0, m.len() - 1) =~= stmts_model(v@.subrange(0, i as int)));
            assert(m[i as int] == stmt_model(v@[i as int]));
        }
        if !ok {
            proof {
                if core_stmts(stmts_model(v@)) {
                    lemma_core_stmts_prefix(v@, i + 1);
                }
            }
            return false;
        }
        i += 1;
    }
    assert(v@.subrange(0, v@.len() as int) =~= v@);
    true
}

/// Whether the analysis covers a program (see `core_stmts`): `analyze` can be called on it.
pub fn covered_program(p: &Program) -> (b: bool)
    ensures
        b == core_stmts(program_model(*p)),
{
    covered_stmts(&p.stmts)
}

/// A covered list has covered prefixes.
proof fn lemma_core_exprs_prefix(v: Seq<Expr>, n: int)
    requires
        0 <= n <= v.len(),
        core_exprs(exprs_model(v)),
    ensures
        core_exprs(exprs_model(v.subrange(0, n))),
    decreases v.len(),
{
    if n < v.len() {
        let init = v.subrange(0, v.len() - 1);
        assert(exprs_model(v).subrange(0, exprs_model(v).len() - 1) =~= exprs_model(init));
        lemma_exprs_len(init);
        lemma_core_exprs_prefix(init, n);
        assert(init.subrange(0, n) =~= v.subrange(0, n));
    } else {
        assert(v.subrange(0, n) =~= v);
    }
}

/// A covered list of statements has covered prefixes.
proof fn lemma_core_stmts_prefix(v: Seq<Stmt>, n: int)
    requires
        0 <= n <= v.len(),
        core_stmts(stmts_model(v)),
    ensures
        core_stmts(stmts_model(v.subrange(0, n))),
    decreases v.len(),
{
    if n < v.len() {
        let init = v.subrange(0, v.len() - 1);
        assert(stmts_model(v).subrange(0, stmts_model(v).len() - 1) =~= stmts_model(init));
        lemma_stmts_len(init);
        lemma_core_stmts_prefix(init, n);
        assert(init.subrange(0, n) =~= v.subrange(0, n));
    } else {
        assert(v.subrange(0, n) =~= v);
    }
}

} // verus!
