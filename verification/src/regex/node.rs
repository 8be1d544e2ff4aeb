//! Nodes of the abstract syntax tree of a regular expression.

use vstd::prelude::*;

verus! {

/// Escape sequences of the regular-expression syntax (`\n`, `\d`, `\(` and so on).
#[derive(Debug, Clone, Copy, PartialEq, Eq, Structural, Hash, PartialOrd, Ord)]
pub enum RegexEscape {
    Newline,
    Tab,
    Backslash,
    Return,
    Null,
    Digit,
    NotDigit,
    Word,
    NotWord,
    Space,
    NotSpace,
    LBracket,
    RBracket,
    LParen,
    RParen,
    LBrace,
    RBrace,
    Dot,
    Plus,
    Star,
    Question,
    Pipe,
    Caret,
    Dollar,
}

/// The escape that the character after a backslash names, if any.
pub open spec fn escape_of(c: char) -> Option<RegexEscape> {
    if c == 'n' { Some(RegexEscape::Newline) }
    else if c == 't' { Some(RegexEscape::Tab) }
    else if c == '\\' { Some(RegexEscape::Backslash) }
    else if c == 'r' { Some(RegexEscape::Return) }
    else if c == '0' { Some(RegexEscape::Null) }
    else if c == 'd' { Some(RegexEscape::Digit) }
    else if c == 'D' { Some(RegexEscape::NotDigit) }
    else if c == 'w' { Some(RegexEscape::Word) }
    else if c == 'W' { Some(RegexEscape::NotWord) }
    else if c == 's' { Some(RegexEscape::Space) }
    else if c == 'S' { Some(RegexEscape::NotSpace) }
    else if c == '[' { Some(RegexEscape::LBracket) }
    else if c == ']' { Some(RegexEscape::RBracket) }
    else if c == '(' { Some(RegexEscape::LParen) }
    else if c == ')' { Some(RegexEscape::RParen) }
    else if c == '{' { Some(RegexEscape::LBrace) }
    else if c == '}' { Some(RegexEscape::RBrace) }
    else if c == '.' { Some(RegexEscape::Dot) }
    else if c == '+' { Some(RegexEscape::Plus) }
    else if c == '*' { Some(RegexEscape::Star) }
    else if c == '?' { Some(RegexEscape::Question) }
    else if c == '|' { Some(RegexEscape::Pipe) }
    else if c == '^' { Some(RegexEscape::Caret) }
    else if c == '$' { Some(RegexEscape::Dollar) }
    else { None }
}

/// The single character an escape stands for; class escapes (`\d`, `\w`, `\s` and their
/// negations) stand for no single character.
pub open spec fn escape_char(e: RegexEscape) -> Option<char> {
    match e {
        RegexEscape::Newline => Some('\n'),
        RegexEscape::Tab => Some('\t'),
        RegexEscape::Backslash => Some('\\'),
        RegexEscape::Return => Some('\r'),
        RegexEscape::Null => Some('\0'),
        RegexEscape::LBracket => Some('['),
        RegexEscape::RBracket => Some(']'),
        RegexEscape::LParen => Some('('),
        RegexEscape::RParen => Some(')'),
        RegexEscape::LBrace => Some('{'),
        RegexEscape::RBrace => Some('}'),
        RegexEscape::Dot => Some('.'),
        RegexEscape::Plus => Some('+'),
        RegexEscape::Star => Some('*'),
        RegexEscape::Question => Some('?'),
        RegexEscape::Pipe => Some('|'),
        RegexEscape::Caret => Some('^'),
        RegexEscape::Dollar => Some('$'),
        _ => None,
    }
}

impl RegexEscape {
    /// The escape named by the character that follows a backslash.
    pub fn from_char(c: char) -> (r: Option<RegexEscape>)
        ensures
            r == escape_of(c),
    {
        match c {
            'n' => Some(RegexEscape::Newline),
            't' => Some(RegexEscape::Tab),
            '\\' => Some(RegexEscape::Backslash),
            'r' => Some(RegexEscape::Return),
            '0' => Some(RegexEscape::Null),
            'd' => Some(RegexEscape::Digit),
            'D' => Some(RegexEscape::NotDigit),
            'w' => Some(RegexEscape::Word),
            'W' => Some(RegexEscape::NotWord),
            's' => Some(RegexEscape::Space),
            'S' => Some(RegexEscape::NotSpace),
            '[' => Some(RegexEscape::LBracket),
            ']' => Some(RegexEscape::RBracket),
            '(' => Some(RegexEscape::LParen),
            ')' => Some(RegexEscape::RParen),
            '{' => Some(RegexEscape::LBrace),
            '}' => Some(RegexEscape::RBrace),
            '.' => Some(RegexEscape::Dot),
            '+' => Some(RegexEscape::Plus),
            '*' => Some(RegexEscape::Star),
            '?' => Some(RegexEscape::Question),
            '|' => Some(RegexEscape::Pipe),
            '^' => Some(RegexEscape::Caret),
            '$' => Some(RegexEscape::Dollar),
            _ => None,
        }
    }

    /// The single character this escape stands for, if it stands for one.
    pub fn as_char(&self) -> (r: Option<char>)
        ensures
            r == escape_char(*self),
    {
        match self {
            RegexEscape::Newline => Some('\n'),
            RegexEscape::Tab => Some('\t'),
            RegexEscape::Backslash => Some('\\'),
            RegexEscape::Return => Some('\r'),
            RegexEscape::Null => Some('\0'),
            RegexEscape::LBracket => Some('['),
            RegexEscape::RBracket => Some(']'),
            RegexEscape::LParen => Some('('),
            RegexEscape::RParen => Some(')'),
            RegexEscape::LBrace => Some('{'),
            RegexEscape::RBrace => Some('}'),
            RegexEscape::Dot => Some('.'),
            RegexEscape::Plus => Some('+'),
            RegexEscape::Star => Some('*'),
            RegexEscape::Question => Some('?'),
            RegexEscape::Pipe => Some('|'),
            RegexEscape::Caret => Some('^'),
            RegexEscape::Dollar => Some('$'),
            _ => None,
        }
    }
}

/// Escaping a metacharacter gives back that very character: for each of
/// `\ [ ] ( ) { } . + * ? | ^ $`, the escape it names stands for the character itself.
pub proof fn lemma_metachar_escape_roundtrip(c: char)
    requires
        c == '\\' || c == '[' || c == ']' || c == '(' || c == ')' || c == '{' || c == '}'
            || c == '.' || c == '+' || c == '*' || c == '?' || c == '|' || c == '^' || c == '$',
    ensures
        escape_of(c) is Some,
        escape_char(escape_of(c).unwrap()) == Some(c),
{
}

/// Every escape that stands for a single character is named by some character.
pub proof fn lemma_escape_char_named(e: RegexEscape)
    requires
        escape_char(e) is Some,
    ensures
        exists|c: char| escape_of(c) == Some(e),
{
    match e {
        RegexEscape::Newline => assert(escape_of('n') == Some(e)),
        RegexEscape::Tab => assert(escape_of('t') == Some(e)),
        RegexEscape::Backslash => assert(escape_of('\\') == Some(e)),
        RegexEscape::Return => assert(escape_of('r') == Some(e)),
        RegexEscape::Null => assert(escape_of('0') == Some(e)),
        RegexEscape::LBracket => assert(escape_of('[') == Some(e)),
        RegexEscape::RBracket => assert(escape_of(']') == Some(e)),
        RegexEscape::LParen => assert(escape_of('(') == Some(e)),
        RegexEscape::RParen => assert(escape_of(')') == Some(e)),
        RegexEscape::LBrace => assert(escape_of('{') == Some(e)),
        RegexEscape::RBrace => assert(escape_of('}') == Some(e)),
        RegexEscape::Dot => assert(escape_of('.') == Some(e)),
        RegexEscape::Plus => assert(escape_of('+') == Some(e)),
        RegexEscape::Star => assert(escape_of('*') == Some(e)),
        RegexEscape::Question => assert(escape_of('?') == Some(e)),
        RegexEscape::Pipe => assert(escape_of('|') == Some(e)),
        RegexEscape::Caret => assert(escape_of('^') == Some(e)),
        RegexEscape::Dollar => assert(escape_of('$') == Some(e)),
        _ => {},
    }
}

/// A character position of a regular expression: a literal, an escape, the empty
/// transition, the line anchors `^` and `$`, or any character.
#[derive(Debug, Clone, Copy, PartialEq, Eq, Structural, Hash, PartialOrd, Ord)]
pub enum RegexChar {
    Literal(char),
    Escape(RegexEscape),
    Epsilon,
    Start,
    End,
    Any,
}

impl RegexChar {
    /// The character of a literal; `None` for every other kind.
    pub fn as_char(&self) -> (r: Option<char>)
        ensures
            r == (match *self {
                RegexChar::Literal(c) => Some(c),
                _ => None,
            }),
    {
        if let RegexChar::Literal(c) = self {
            Some(*c)
        } else {
            None
        }
    }
}

/// Leaf node for a literal character.
#[derive(Debug, Clone, Copy, PartialEq, Eq, Structural, Hash)]
pub struct LiteralNode {
    pub value: RegexChar,
}

/// Leaf node for the empty transition.
#[derive(Debug, Clone, Copy, PartialEq, Eq, Structural, Hash)]
pub struct EpsilonNode {
    pub value: RegexChar,
}

/// Leaf node for the start-of-line anchor `^`.
#[derive(Debug, Clone, Copy, PartialEq, Eq, Structural, Hash)]
pub struct StarNode {
    pub value: RegexChar,
}

/// Leaf node for the end-of-line anchor `$`.
#[derive(Debug, Clone, Copy, PartialEq, Eq, Structural, Hash)]
pub struct EndNode {
    pub value: RegexChar,
}

/// Leaf node for "any character".
#[derive(Debug, Clone, Copy, PartialEq, Eq, Structural, Hash)]
pub struct AnyNode {
    pub value: RegexChar,
}

impl EpsilonNode {
    /// A node for the empty transition.
    pub fn new() -> (n: Self)
        ensures
            n.value == RegexChar::Epsilon,
    {
        EpsilonNode { value: RegexChar::Epsilon }
    }
}

impl StarNode {
    /// A node for the start-of-line anchor.
    pub fn new() -> (n: Self)
        ensures
            n.value == RegexChar::Start,
    {
        StarNode { value: RegexChar::Start }
    }
}

impl EndNode {
    /// A node for the end-of-line anchor.
    pub fn new() -> (n: Self)
        ensures
            n.value == RegexChar::End,
    {
        EndNode { value: RegexChar::End }
    }
}

impl LiteralNode {
    /// A node for a literal character.
    pub fn new(value: char) -> (n: Self)
        ensures
            n.value == RegexChar::Literal(value),
    {
        LiteralNode { value: RegexChar::Literal(value) }
    }
}

impl AnyNode {
    /// A node for "any character".
    pub fn new() -> (n: Self)
        ensures
            n.value == RegexChar::Any,
    {
        AnyNode { value: RegexChar::Any }
    }
}

/// A character class: an explicit set, ranges, a mix of both, a negation, or the dot.
#[derive(Debug)]
pub enum RegexClass {
    CharSet(Vec<RegexChar>),
    Ranges(Vec<(char, char)>),
    Mixed { ranges: Vec<(char, char)>, singles: Vec<RegexChar> },
    Negated(Box<RegexClass>),
    Dot,
}

/// Binary operators: concatenation and alternation.
#[derive(Debug, Clone, Copy, PartialEq, Eq, Structural, Hash)]
pub enum RegexBinOp {
    Concat,
    Or,
}

/// Unary operators: `*`, `+` and `?`.
#[derive(Debug, Clone, Copy, PartialEq, Eq, Structural, Hash)]
pub enum RegexUnOp {
    Star,
    Plus,
    Optional,
}

/// A parenthesised sub-expression.
#[derive(Debug, Clone, PartialEq, Eq, Hash)]
pub struct RegexGroup<T> {
    pub expr: T,
}

impl<T> RegexGroup<T> {
    /// Wraps a sub-expression.
    pub fn new(expr: T) -> (g: Self)
        ensures
            g.expr == expr,
    {
        RegexGroup { expr }
    }

    /// The wrapped sub-expression.
    pub fn inner(&self) -> (r: &T)
        ensures
            *r == self.expr,
    {
        &self.expr
    }

    /// The wrapped sub-expression, consuming the group.
    pub fn into_inner(self) -> (r: T)
        ensures
            r == self.expr,
    {
        self.expr
    }
}

/// The kinds of node of a regular-expression tree.
#[derive(Debug)]
pub enum AstNodeKind {
    RegexChar(RegexChar),
    BinOp { op: RegexBinOp, left: Box<AstNodeImpl>, right: Box<AstNodeImpl> },
    UnOp { op: RegexUnOp, expr: Box<AstNodeImpl> },
    Group(RegexGroup<Box<AstNodeImpl>>),
    Class(RegexClass),
}

/// A node of a regular-expression tree.
#[derive(Debug)]
pub struct AstNodeImpl {
    pub kind: AstNodeKind,
}

/// A leaf holding one regex character.
pub open spec fn leaf(c: RegexChar) -> AstNodeImpl {
    AstNodeImpl { kind: AstNodeKind::RegexChar(c) }
}

/// A group node.
pub open spec fn group(e: AstNodeImpl) -> AstNodeImpl {
    AstNodeImpl { kind: AstNodeKind::Group(RegexGroup { expr: Box::new(e) }) }
}

} // verus!
