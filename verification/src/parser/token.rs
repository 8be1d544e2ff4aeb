//! Tokens handed to the parser.

use vstd::prelude::*;

verus! {

/// The kinds of token the parser knows (the lower-case kinds are the terminals of small
/// test grammars).
#[allow(non_camel_case_types)]
#[derive(Debug, Clone, Copy, PartialEq, Eq, Structural)]
pub enum TokenType {
    IDENT,
    FUNCTION,
    LPAREN,
    RPAREN,
    LBRACE,
    RBRACE,
    SEMICOLON,
    EOF,
    AND,
    ARROW,
    ASSIGN,
    ASSIGN_DESTRUCT,
    COLON,
    COMMA,
    DOT,
    ELIF,
    ELSE,
    FALSE,
    FOR,
    GT,
    IF,
    IN,
    INHERITS,
    LE,
    LET,
    LT,
    MINUS,
    MULT,
    NEW,
    NUMBER,
    OR,
    PLUS,
    SELF,
    STRING,
    TRUE,
    TYPE,
    WHILE,
    a,
    b,
}

/// The name of a token kind, as `{:?}` writes it (and as grammars name terminals).
pub open spec fn token_type_name(t: TokenType) -> Seq<char> {
    match t {
        TokenType::IDENT => "IDENT"@,
        TokenType::FUNCTION => "FUNCTION"@,
        TokenType::LPAREN => "LPAREN"@,
        TokenType::RPAREN => "RPAREN"@,
        TokenType::LBRACE => "LBRACE"@,
        TokenType::RBRACE => "RBRACE"@,
        TokenType::SEMICOLON => "SEMICOLON"@,
        TokenType::EOF => "EOF"@,
        TokenType::AND => "AND"@,
        TokenType::ARROW => "ARROW"@,
        TokenType::ASSIGN => "ASSIGN"@,
        TokenType::ASSIGN_DESTRUCT => "ASSIGN_DESTRUCT"@,
        TokenType::COLON => "COLON"@,
        TokenType::COMMA => "COMMA"@,
        TokenType::DOT => "DOT"@,
        TokenType::ELIF => "ELIF"@,
        TokenType::ELSE => "ELSE"@,
        TokenType::FALSE => "FALSE"@,
        TokenType::FOR => "FOR"@,
        TokenType::GT => "GT"@,
        TokenType::IF => "IF"@,
        TokenType::IN => "IN"@,
        TokenType::INHERITS => "INHERITS"@,
        TokenType::LE => "LE"@,
        TokenType::LET => "LET"@,
        TokenType::LT => "LT"@,
        TokenType::MINUS => "MINUS"@,
        TokenType::MULT => "MULT"@,
        TokenType::NEW => "NEW"@,
        TokenType::NUMBER => "NUMBER"@,
        TokenType::OR => "OR"@,
        TokenType::PLUS => "PLUS"@,
        TokenType::SELF => "SELF"@,
        TokenType::STRING => "STRING"@,
        TokenType::TRUE => "TRUE"@,
        TokenType::TYPE => "TYPE"@,
        TokenType::WHILE => "WHILE"@,
        TokenType::a => "a"@,
        TokenType::b => "b"@,
    }
}

/// The name of a token kind (see `token_type_name`).
pub fn token_type_text(t: TokenType) -> (s: String)
    ensures
        s@ == token_type_name(t),
{
    match t {
        TokenType::IDENT => String::from_str("IDENT"),
        TokenType::FUNCTION => String::from_str("FUNCTION"),
        TokenType::LPAREN => String::from_str("LPAREN"),
        TokenType::RPAREN => String::from_str("RPAREN"),
        TokenType::LBRACE => String::from_str("LBRACE"),
        TokenType::RBRACE => String::from_str("RBRACE"),
        TokenType::SEMICOLON => String::from_str("SEMICOLON"),
        TokenType::EOF => String::from_str("EOF"),
        TokenType::AND => String::from_str("AND"),
        TokenType::ARROW => String::from_str("ARROW"),
        TokenType::ASSIGN => String::from_str("ASSIGN"),
        TokenType::ASSIGN_DESTRUCT => String::from_str("ASSIGN_DESTRUCT"),
        TokenType::COLON => String::from_str("COLON"),
        TokenType::COMMA => String::from_str("COMMA"),
        TokenType::DOT => String::from_str("DOT"),
        TokenType::ELIF => String::from_str("ELIF"),
        TokenType::ELSE => String::from_str("ELSE"),
        TokenType::FALSE => String::from_str("FALSE"),
        TokenType::FOR => String::from_str("FOR"),
        TokenType::GT => String::from_str("GT"),
        TokenType::IF => String::from_str("IF"),
        TokenType::IN => String::from_str("IN"),
        TokenType::INHERITS => String::from_str("INHERITS"),
        TokenType::LE => String::from_str("LE"),
        TokenType::LET => String::from_str("LET"),
        TokenType::LT => String::from_str("LT"),
        TokenType::MINUS => String::from_str("MINUS"),
        TokenType::MULT => String::from_str("MULT"),
        TokenType::NEW => String::from_str("NEW"),
        TokenType::NUMBER => String::from_str("NUMBER"),
        TokenType::OR => String::from_str("OR"),
        TokenType::PLUS => String::from_str("PLUS"),
        TokenType::SELF => String::from_str("SELF"),
        TokenType::STRING => String::from_str("STRING"),
        TokenType::TRUE => String::from_str("TRUE"),
        TokenType::TYPE => String::from_str("TYPE"),
        TokenType::WHILE => String::from_str("WHILE"),
        TokenType::a => String::from_str("a"),
        TokenType::b => String::from_str("b"),
    }
}

/// A token: its kind, its text and where it starts.
#[derive(Debug, Clone)]
pub struct Token {
    pub token_type: TokenType,
    pub lexeme: String,
    pub line: usize,
    pub column: usize,
}

impl Token {
    /// The token as plain values: kind, text, line and column.
    pub open spec fn view_tuple(&self) -> (TokenType, Seq<char>, usize, usize) {
        (self.token_type, self.lexeme@, self.line, self.column)
    }

    /// A copy of this token.
    pub fn duplicate(&self) -> (t: Token)
        ensures
            t.view_tuple() == self.view_tuple(),
    {
        Token { token_type: self.token_type, lexeme: self.lexeme.clone(), line: self.line, column: self.column }
    }
}

/// A token of the given kind, text and position.
pub fn make_token(token_type: TokenType, lexeme: &str, line: usize, column: usize) -> (t: Token)
    ensures
        t.view_tuple() == (token_type, lexeme@, line, column),
{
    Token { token_type, lexeme: String::from_str(lexeme), line, column }
}

/// A fixed list of tokens for trying the parser out: `function main ( ) { }`, the end of
/// input, and a trailing `;`.
pub fn mock_tokens() -> (v: Vec<Token>)
    ensures
        v@.map_values(|t: Token| t.view_tuple()) == seq![
            (TokenType::FUNCTION, "function"@, 1usize, 1usize),
            (TokenType::IDENT, "main"@, 1usize, 10usize),
            (TokenType::LPAREN, "("@, 1usize, 14usize),
            (TokenType::RPAREN, ")"@, 1usize, 15usize),
            (TokenType::LBRACE, "{"@, 2usize, 1usize),
            (TokenType::RBRACE, "}"@, 3usize, 1usize),
            (TokenType::EOF, ""@, 4usize, 1usize),
            (TokenType::SEMICOLON, ";"@, 3usize, 2usize),
        ],
{
    let mut v: Vec<Token> = Vec::new();
    v.push(make_token(TokenType::FUNCTION, "function", 1, 1));
    v.push(make_token(TokenType::IDENT, "main", 1, 10));
    v.push(make_token(TokenType::LPAREN, "(", 1, 14));
    v.push(make_token(TokenType::RPAREN, ")", 1, 15));
    v.push(make_token(TokenType::LBRACE, "{", 2, 1));
    v.push(make_token(TokenType::RBRACE, "}", 3, 1));
    v.push(make_token(TokenType::EOF, "", 4, 1));
    v.push(make_token(TokenType::SEMICOLON, ";", 3, 2));
    assert(v@.map_values(|t: Token| t.view_tuple()) =~= seq![
        (TokenType::FUNCTION, "function"@, 1usize, 1usize),
        (TokenType::IDENT, "main"@, 1usize, 10usize),
        (TokenType::LPAREN, "("@, 1usize, 14usize),
        (TokenType::RPAREN, ")"@, 1usize, 15usize),
        (TokenType::LBRACE, "{"@, 2usize, 1usize),
        (TokenType::RBRACE, "}"@, 3usize, 1usize),
        (TokenType::EOF, ""@, 4usize, 1usize),
        (TokenType::SEMICOLON, ";"@, 3usize, 2usize),
    ]);
    v
}

} // verus!
