use hulk_compiler::typings::function_def::FunctionDef;
use hulk_compiler::parser::cst::DerivationNode;
use hulk_compiler::parser::token::{make_token, TokenType};
use hulk_compiler::parser::cst_to_ast::convert_to_ast;
use hulk_compiler::parser::ast_print::ast_text;
use hulk_compiler::parser::syntax::{BinaryOp, Expr, ExprKind, Program, Stmt, StmtKind};
use hulk_compiler::parser::ll1_table::LL1Table;
use hulk_compiler::parser::grammar::Production;
use hulk_compiler::parser::ll1::{compute_first, compute_follow};
use hulk_compiler::semantic::visitor::SemanticVisitor;
use hulk_compiler::semantic::error::SemanticError;

fn leaf(sym: &str, text: &str) -> DerivationNode {
    DerivationNode::with_token(sym, make_token(TokenType::IDENT, text, 1, 1))
}

fn node(sym: &str, kids: Vec<DerivationNode>) -> DerivationNode {
    let mut n = DerivationNode::new(sym);
    for k in kids {
        n.add_child(k);
    }
    n
}

fn eps() -> DerivationNode {
    node("ε", vec![])
}

fn unary(primary_child: DerivationNode) -> DerivationNode {
    node("Unary", vec![node("Primary", vec![primary_child]), node("AsExpr", vec![eps()])])
}

fn term(primary_child: DerivationNode) -> DerivationNode {
    let factor = node("Factor", vec![node("Power", vec![unary(primary_child)]), node("Factor'", vec![eps()])]);
    node("Term", vec![factor, node("Term'", vec![eps()])])
}

fn expr_of_add(add: DerivationNode) -> DerivationNode {
    let concat = node("ConcatExpr", vec![add, node("ConcatExpr'", vec![eps()])]);
    let cmp = node("CmpExpr", vec![concat, node("CmpExpr'", vec![eps()])]);
    let and = node("AndExpr", vec![cmp, node("AndExpr'", vec![eps()])]);
    let or = node("OrExpr", vec![and, node("OrExpr'", vec![eps()])]);
    node("Expr", vec![or])
}

fn program_of(expr: DerivationNode) -> DerivationNode {
    let stmt = node("Stmt", vec![expr]);
    let list = node("StmtList", vec![node("TerminatedStmt", vec![stmt]), node("StmtList", vec![eps()])]);
    node("Program", vec![list])
}

fn sum_tree() -> DerivationNode {
    let add = node("AddExpr", vec![
        term(leaf("NUMBER", "1")),
        node("AddExpr'", vec![leaf("PLUS", "+"), term(leaf("IDENT", "x")), node("AddExpr'", vec![eps()])]),
    ]);
    program_of(expr_of_add(add))
}

#[test]
fn number_statement_converts() {
    let add = node("AddExpr", vec![term(leaf("NUMBER", "42")), node("AddExpr'", vec![eps()])]);
    let p = convert_to_ast(&program_of(expr_of_add(add))).unwrap();
    assert_eq!(p.stmts.len(), 1);
    match &p.stmts[0].kind {
        StmtKind::ExprStmt(e) => match &e.kind {
            ExprKind::Number(n) => assert_eq!(n, "42"),
            _ => panic!("expected a number"),
        },
        _ => panic!("expected an expression statement"),
    }
}

#[test]
fn sum_converts_to_binary_add() {
    let p = convert_to_ast(&sum_tree()).unwrap();
    match &p.stmts[0].kind {
        StmtKind::ExprStmt(e) => match &e.kind {
            ExprKind::Binary { op, left, right } => {
                assert_eq!(*op, BinaryOp::Add);
                assert!(matches!(&left.kind, ExprKind::Number(n) if n == "1"));
                assert!(matches!(&right.kind, ExprKind::Variable(v) if v == "x"));
            },
            _ => panic!("expected a binary expression"),
        },
        _ => panic!("expected an expression statement"),
    }
}

#[test]
fn root_must_be_program() {
    let err = convert_to_ast(&node("Foo", vec![])).unwrap_err();
    assert_eq!(err, "CST root must be a Program node");
}

#[test]
fn empty_program_has_no_statements() {
    let p = convert_to_ast(&node("Program", vec![])).unwrap();
    assert!(p.stmts.is_empty());
}

#[test]
fn unknown_statement_kind_is_reported() {
    let tree = program_of(node("Weird", vec![eps()]));
    assert_eq!(convert_to_ast(&tree).unwrap_err(), "Unsupported statement type: Weird");
}

#[test]
fn unknown_operator_is_reported() {
    let add = node("AddExpr", vec![
        term(leaf("NUMBER", "1")),
        node("AddExpr'", vec![leaf("HASH", "#"), term(leaf("NUMBER", "2")), node("AddExpr'", vec![eps()])]),
    ]);
    assert_eq!(convert_to_ast(&program_of(expr_of_add(add))).unwrap_err(), "Unknown binary operator: HASH");
}

#[test]
fn syntax_tree_text_of_sum() {
    let p = convert_to_ast(&sum_tree()).unwrap();
    assert_eq!(ast_text(&p), "Program:\n  ExprStmt:\n    BinaryOp: Add\n      Number: 1\n      Variable: x\n");
}

fn bin(op: BinaryOp, l: Expr, r: Expr) -> Expr {
    Expr { kind: ExprKind::Binary { op, left: Box::new(l), right: Box::new(r) }, span: None }
}

fn num(s: &str) -> Expr {
    Expr { kind: ExprKind::Number(s.to_string()), span: None }
}

fn stmt(e: Expr) -> Stmt {
    Stmt { kind: StmtKind::ExprStmt(e), span: None }
}

#[test]
fn well_typed_sum_has_no_errors() {
    let mut v = SemanticVisitor::new();
    let p = Program { stmts: vec![stmt(bin(BinaryOp::Add, num("1"), num("2")))] };
    assert!(v.analyze(&p).is_ok());
}

#[test]
fn adding_a_boolean_is_an_error() {
    let mut v = SemanticVisitor::new();
    let t = Expr { kind: ExprKind::Boolean(true), span: None };
    let p = Program { stmts: vec![stmt(bin(BinaryOp::Add, num("1"), t))] };
    let errs = v.analyze(&p).unwrap_err();
    assert_eq!(errs.len(), 1);
    match &errs[0] {
        SemanticError::InvalidBinaryOperation(l, r, op, _) => {
            assert_eq!(l.name, "Number");
            assert_eq!(r.name, "Boolean");
            assert_eq!(op, "+");
        },
        _ => panic!("expected a binary operation error"),
    }
}

#[test]
fn comparison_gives_boolean_and_let_binds() {
    let mut v = SemanticVisitor::new();
    let body = bin(BinaryOp::Lt, Expr { kind: ExprKind::Variable("x".to_string()), span: None }, num("3"));
    let e = Expr { kind: ExprKind::Let { name: "x".to_string(), value: Box::new(num("1")), body: Box::new(body), declared_type: None }, span: None };
    let t = v.visit_expr(&e);
    assert_eq!(t.name, "Boolean");
    assert!(v.errors.is_empty());
    assert!(v.current_scope.variables.is_empty());
}

#[test]
fn undefined_variable_is_reported() {
    let mut v = SemanticVisitor::new();
    let t = v.visit_expr(&Expr { kind: ExprKind::Variable("y".to_string()), span: None });
    assert_eq!(t.name, "Unknown");
    assert!(matches!(&v.errors[0], SemanticError::UndefinedIdentifier(n, _) if n == "y"));
}

#[test]
fn concat_of_number_and_string_is_string() {
    let mut v = SemanticVisitor::new();
    let s = Expr { kind: ExprKind::String("a".to_string()), span: None };
    let t = v.visit_expr(&bin(BinaryOp::Concat, num("1"), s));
    assert_eq!(t.name, "String");
}

fn prod(lhs: &str, rhs: &[&str]) -> Production {
    Production { lhs: lhs.to_string(), rhs: rhs.iter().map(|s| s.to_string()).collect() }
}

#[test]
fn parse_table_cells_follow_first_and_follow() {
    let g = vec![prod("S", &["a", "S"]), prod("S", &[])];
    let t = LL1Table::new(&g, "S");
    assert_eq!(t.get_production("S", "a"), Some(vec!["a".to_string(), "S".to_string()]));
    assert_eq!(t.get_production("S", "EOF"), Some(Vec::<String>::new()));
    assert_eq!(t.get_production("S", "b"), None);
    assert_eq!(t.get_production("T", "a"), None);
}

#[test]
fn follow_sets_never_hold_epsilon() {
    let g = vec![prod("S", &["A", "B"]), prod("A", &[]), prod("B", &["b"]), prod("B", &[])];
    let first = compute_first(&g);
    let follow = compute_follow(&g, &first, "S");
    for (_, set) in &follow {
        assert!(!set.iter().any(|s| s == "ε"));
    }
}

#[test]
fn new_instance_and_method_call_are_typed() {
    let mut v = SemanticVisitor::new();
    let speak = FunctionDef { name: "speak".to_string(), params: vec![], return_type: "String".to_string() };
    v.type_ast.add_type("Dog".to_string(), vec![], None, vec![], vec![("speak".to_string(), speak)]);
    let dog = Expr { kind: ExprKind::New { class_name: "Dog".to_string(), args: vec![] }, span: None };
    let call = Expr { kind: ExprKind::MethodCall { object: Box::new(dog), method: "speak".to_string(), args: vec![] }, span: None };
    assert_eq!(v.visit_expr(&call).name, "String");
    assert!(v.errors.is_empty());
    let dog2 = Expr { kind: ExprKind::New { class_name: "Dog".to_string(), args: vec![] }, span: None };
    let fly = Expr { kind: ExprKind::MethodCall { object: Box::new(dog2), method: "fly".to_string(), args: vec![] }, span: None };
    assert_eq!(v.visit_expr(&fly).name, "Unknown");
    assert!(matches!(&v.errors[0], SemanticError::InvalidTypeFunctionAccess(t, m, _) if t == "Dog" && m == "fly"));
}

#[test]
fn new_of_unknown_type_is_reported() {
    let mut v = SemanticVisitor::new();
    let e = Expr { kind: ExprKind::New { class_name: "Cat".to_string(), args: vec![] }, span: None };
    assert_eq!(v.visit_expr(&e).name, "Unknown");
    assert!(matches!(&v.errors[0], SemanticError::UndefinedType(t, _) if t == "Cat"));
}

fn type_decl(name: &str, base: &str) -> Stmt {
    Stmt {
        kind: StmtKind::TypeDecl {
            name: name.to_string(),
            type_params: vec![],
            attributes: vec![],
            methods: vec![],
            base_type: base.to_string(),
            base_args: vec![],
        },
        span: None,
    }
}

#[test]
fn type_definitions_are_recorded_once() {
    let mut v = SemanticVisitor::new();
    let p = Program { stmts: vec![type_decl("Number", "Object"), type_decl("Dog", "Dog"), type_decl("Dog", "Object")] };
    v.get_types_definitions(&p);
    assert_eq!(v.current_scope.declared_types, vec!["Dog".to_string()]);
    assert_eq!(v.errors.len(), 3);
    assert!(matches!(&v.errors[0], SemanticError::RedefinitionOfType(t, _) if t == "Number"));
    assert!(matches!(&v.errors[1], SemanticError::UnknownError(m, _) if m == "Type cannot inherit from itself"));
    assert!(matches!(&v.errors[2], SemanticError::RedefinitionOfType(t, _) if t == "Dog"));
}
