//! The syntax tree of a HULK program, as built from a derivation tree: statements,
//! expressions, declarations and their source positions, with their plain-value models.

use vstd::prelude::*;

verus! {

/// A source position: line and column.
#[derive(Debug, Clone, Copy, PartialEq, Eq, Structural)]
pub struct Span {
    pub line: usize,
    pub column: usize,
}

/// A declared type.
#[derive(Debug)]
pub enum Type {
    Number,
    String,
    Boolean,
    Object(String),
}

/// Binary operators.
#[derive(Debug, Clone, Copy, PartialEq, Eq, Structural)]
pub enum BinaryOp {
    Add,
    Sub,
    Mul,
    Div,
    Mod,
    Pow,
    Eq,
    Neq,
    Lt,
    Gt,
    Le,
    Ge,
    And,
    Or,
    Concat,
    ConcatWs,
}

/// Unary operators.
#[derive(Debug, Clone, Copy, PartialEq, Eq, Structural)]
pub enum UnaryOp {
    Neg,
}

/// An expression and where it starts.
#[derive(Debug)]
pub struct Expr {
    pub kind: ExprKind,
    pub span: Option<Span>,
}

/// The forms of expressions. A number literal keeps the text it was written with.
#[derive(Debug)]
pub enum ExprKind {
    Number(String),
    String(String),
    Boolean(bool),
    Variable(String),
    SelfExpr,
    BaseCall { args: Vec<Expr> },
    New { class_name: String, args: Vec<Expr> },
    Call { function: String, args: Vec<Expr> },
    MethodCall { object: Box<Expr>, method: String, args: Vec<Expr> },
    GetAttr { object: Box<Expr>, attr: String },
    Assign { var_name: String, value: Box<Expr> },
    SetAttr { object: Box<Expr>, attr: String, value: Box<Expr> },
    Binary { op: BinaryOp, left: Box<Expr>, right: Box<Expr> },
    Unary { op: UnaryOp, expr: Box<Expr> },
    As { expr: Box<Expr>, class_name: String },
    Is { expr: Box<Expr>, class_name: String },
    If { condition: Box<Expr>, then_branch: Box<Expr>, else_branch: Option<Box<Expr>> },
    Let { name: String, value: Box<Expr>, body: Box<Expr>, declared_type: Option<Type> },
    While { condition: Box<Expr>, body: Box<Expr> },
    For { iterator: String, collection: Box<Expr>, body: Box<Expr> },
    Block { stmts: Vec<Stmt> },
}

/// An attribute of a type declaration.
#[derive(Debug)]
pub struct AttributeDecl {
    pub name: String,
    pub initializer: Option<Expr>,
    pub declared_type: Option<Type>,
}

/// A method of a type declaration.
#[derive(Debug)]
pub struct MethodDecl {
    pub name: String,
    pub params: Vec<(String, Option<Type>)>,
    pub body: Box<Stmt>,
    pub return_type: Option<Type>,
}

/// A statement and where it starts.
#[derive(Debug)]
pub struct Stmt {
    pub kind: StmtKind,
    pub span: Option<Span>,
}

/// The forms of statements.
#[derive(Debug)]
pub enum StmtKind {
    ExprStmt(Expr),
    FunctionDecl { name: String, params: Vec<(String, Option<Type>)>, body: Box<Stmt>, return_type: Option<Type> },
    TypeDecl {
        name: String,
        type_params: Vec<String>,
        attributes: Vec<AttributeDecl>,
        methods: Vec<MethodDecl>,
        base_type: String,
        base_args: Vec<Expr>,
    },
}

/// A program: its statements in order.
#[derive(Debug)]
pub struct Program {
    pub stmts: Vec<Stmt>,
}

/// A declared type as plain values.
pub enum TypeModel {
    Number,
    String,
    Boolean,
    Object(Seq<char>),
}

/// An expression as plain values.
pub enum ExprModel {
    Node(ExprKindModel, Option<Span>),
}

/// The forms of expressions as plain values.
pub enum ExprKindModel {
    Number(Seq<char>),
    String(Seq<char>),
    Boolean(bool),
    Variable(Seq<char>),
    SelfExpr,
    BaseCall(Seq<ExprModel>),
    New(Seq<char>, Seq<ExprModel>),
    Call(Seq<char>, Seq<ExprModel>),
    MethodCall(Box<ExprModel>, Seq<char>, Seq<ExprModel>),
    GetAttr(Box<ExprModel>, Seq<char>),
    Assign(Seq<char>, Box<ExprModel>),
    SetAttr(Box<ExprModel>, Seq<char>, Box<ExprModel>),
    Binary(BinaryOp, Box<ExprModel>, Box<ExprModel>),
    Unary(UnaryOp, Box<ExprModel>),
    As(Box<ExprModel>, Seq<char>),
    Is(Box<ExprModel>, Seq<char>),
    If(Box<ExprModel>, Box<ExprModel>, Option<Box<ExprModel>>),
    Let(Seq<char>, Box<ExprModel>, Box<ExprModel>, Option<TypeModel>),
    While(Box<ExprModel>, Box<ExprModel>),
    For(Seq<char>, Box<ExprModel>, Box<ExprModel>),
    Block(Seq<StmtModel>),
}

/// An attribute as plain values: name, initializer and declared type.
pub enum AttrModel {
    Attr(Seq<char>, Option<ExprModel>, Option<TypeModel>),
}

/// A method as plain values: name, parameters, body and return type.
pub enum MethodModel {
    Method(Seq<char>, Seq<(Seq<char>, Option<TypeModel>)>, Box<StmtModel>, Option<TypeModel>),
}

/// A statement as plain values.
pub enum StmtModel {
    Node(StmtKindModel, Option<Span>),
}

/// The forms of statements as plain values.
pub enum StmtKindModel {
    ExprStmt(ExprModel),
    FunctionDecl(Seq<char>, Seq<(Seq<char>, Option<TypeModel>)>, Box<StmtModel>, Option<TypeModel>),
    TypeDecl(Seq<char>, Seq<Seq<char>>, Seq<AttrModel>, Seq<MethodModel>, Seq<char>, Seq<ExprModel>),
}

/// A declared type as plain values.
pub open spec fn type_model(t: Type) -> TypeModel {
    match t {
        Type::Number => TypeModel::Number,
        Type::String => TypeModel::String,
        Type::Boolean => TypeModel::Boolean,
        Type::Object(s) => TypeModel::Object(s@),
    }
}

/// An optional declared type as plain values.
pub open spec fn opt_type_model(t: Option<Type>) -> Option<TypeModel> {
    match t {
        Some(x) => Some(type_model(x)),
        None => None,
    }
}

/// Parameters as plain values.
pub open spec fn params_model(v: Seq<(String, Option<Type>)>) -> Seq<(Seq<char>, Option<TypeModel>)> {
    v.map_values(|p: (String, Option<Type>)| (p.0@, opt_type_model(p.1)))
}

/// Strings as plain values.
pub open spec fn names_model(v: Seq<String>) -> Seq<Seq<char>> {
    v.map_values(|s: String| s@)
}

/// An expression as plain values.
pub open spec fn expr_model(e: Expr) -> ExprModel
    decreases e, 0int,
{
    ExprModel::Node(kind_model(e.kind), e.span)
}

/// An expression form as plain values.
pub open spec fn kind_model(k: ExprKind) -> ExprKindModel
    decreases k, 0int,
{
    match k {
        ExprKind::Number(s) => ExprKindModel::Number(s@),
        ExprKind::String(s) => ExprKindModel::String(s@),
        ExprKind::Boolean(b) => ExprKindModel::Boolean(b),
        ExprKind::Variable(s) => ExprKindModel::Variable(s@),
        ExprKind::SelfExpr => ExprKindModel::SelfExpr,
        ExprKind::BaseCall { args } => ExprKindModel::BaseCall(exprs_model(args@)),
        ExprKind::New { class_name, args } => ExprKindModel::New(class_name@, exprs_model(args@)),
        ExprKind::Call { function, args } => ExprKindModel::Call(function@, exprs_model(args@)),
        ExprKind::MethodCall { object, method, args } =>
            ExprKindModel::MethodCall(Box::new(expr_model(*object)), method@, exprs_model(args@)),
        ExprKind::GetAttr { object, attr } => ExprKindModel::GetAttr(Box::new(expr_model(*object)), attr@),
        ExprKind::Assign { var_name, value } => ExprKindModel::Assign(var_name@, Box::new(expr_model(*value))),
        ExprKind::SetAttr { object, attr, value } =>
            ExprKindModel::SetAttr(Box::new(expr_model(*object)), attr@, Box::new(expr_model(*value))),
        ExprKind::Binary { op, left, right } =>
            ExprKindModel::Binary(op, Box::new(expr_model(*left)), Box::new(expr_model(*right))),
        ExprKind::Unary { op, expr } => ExprKindModel::Unary(op, Box::new(expr_model(*expr))),
        ExprKind::As { expr, class_name } => ExprKindModel::As(Box::new(expr_model(*expr)), class_name@),
        ExprKind::Is { expr, class_name } => ExprKindModel::Is(Box::new(expr_model(*expr)), class_name@),
        ExprKind::If { condition, then_branch, else_branch } => ExprKindModel::If(
            Box::new(expr_model(*condition)),
            Box::new(expr_model(*then_branch)),
            match else_branch {
                Some(e) => Some(Box::new(expr_model(*e))),
                None => None,
            },
        ),
        ExprKind::Let { name, value, body, declared_type } => ExprKindModel::Let(
            name@, Box::new(expr_model(*value)), Box::new(expr_model(*body)), opt_type_model(declared_type)),
        ExprKind::While { condition, body } =>
            ExprKindModel::While(Box::new(expr_model(*condition)), Box::new(expr_model(*body))),
        ExprKind::For { iterator, collection, body } =>
            ExprKindModel::For(iterator@, Box::new(expr_model(*collection)), Box::new(expr_model(*body))),
        ExprKind::Block { stmts } => ExprKindModel::Block(stmts_model(stmts@)),
    }
}

/// Expressions as plain values.
pub open spec fn exprs_model(v: Seq<Expr>) -> Seq<ExprModel>
    decreases v, 0int,
{
    if v.len() == 0 {
        seq![]
    } else {
        exprs_model(v.subrange(0, v.len() - 1)).push(expr_model(v[v.len() - 1]))
    }
}

/// A statement as plain values.
pub open spec fn stmt_model(s: Stmt) -> StmtModel
    decreases s, 0int,
{
    StmtModel::Node(
        match s.kind {
            StmtKind::ExprStmt(e) => StmtKindModel::ExprStmt(expr_model(e)),
            StmtKind::FunctionDecl { name, params, body, return_type } => StmtKindModel::FunctionDecl(
                name@, params_model(params@), Box::new(stmt_model(*body)), opt_type_model(return_type)),
            StmtKind::TypeDecl { name, type_params, attributes, methods, base_type, base_args } =>
                StmtKindModel::TypeDecl(name@, names_model(type_params@), attrs_model(attributes@),
                    methods_model(methods@), base_type@, exprs_model(base_args@)),
        },
        s.span,
    )
}

/// Statements as plain values.
pub open spec fn stmts_model(v: Seq<Stmt>) -> Seq<StmtModel>
    decreases v, 0int,
{
    if v.len() == 0 {
        seq![]
    } else {
        stmts_model(v.subrange(0, v.len() - 1)).push(stmt_model(v[v.len() - 1]))
    }
}

/// An attribute as plain values.
pub open spec fn attr_model(a: AttributeDecl) -> AttrModel
    decreases a, 0int,
{
    AttrModel::Attr(
        a.name@,
        match a.initializer {
            Some(e) => Some(expr_model(e)),
            None => None,
        },
        opt_type_model(a.declared_type),
    )
}

/// A method as plain values.
pub open spec fn method_model(m: MethodDecl) -> MethodModel
    decreases m, 0int,
{
    MethodModel::Method(m.name@, params_model(m.params@), Box::new(stmt_model(*m.body)), opt_type_model(m.return_type))
}

/// Attributes as plain values.
pub open spec fn attrs_model(v: Seq<AttributeDecl>) -> Seq<AttrModel>
    decreases v, 0int,
{
    if v.len() == 0 {
        seq![]
    } else {
        attrs_model(v.subrange(0, v.len() - 1)).push(attr_model(v[v.len() - 1]))
    }
}

/// Methods as plain values.
pub open spec fn methods_model(v: Seq<MethodDecl>) -> Seq<MethodModel>
    decreases v, 0int,
{
    if v.len() == 0 {
        seq![]
    } else {
        methods_model(v.subrange(0, v.len() - 1)).push(method_model(v[v.len() - 1]))
    }
}

/// A program as plain values: its statements.
pub open spec fn program_model(p: Program) -> Seq<StmtModel> {
    stmts_model(p.stmts@)
}

} // verus!
