//! Tokens produced by the lexer and their dispatch classes.
use vstd::prelude::*;

verus! {

/// A lexical token. Literals carry their text: the characters of a number
/// as written, the contents of a string without its quotes, the name of an
/// identifier.
#[derive(Debug, Clone, PartialEq)]
pub enum TokenType {
    Ident(String),
    LParen,
    RParen,
    LBrace,
    RBrace,
    Comma,
    Dot,
    Minus,
    Plus,
    Semicolon,
    Slash,
    Star,
    Bang,
    BangEqual,
    Equal,
    EqualEqual,
    Greater,
    GreaterEqual,
    Less,
    LessEqual,
    String(String),
    Number(String),
    Comment,
    And,
    Class,
    Else,
    False,
    Fun,
    For,
    If,
    Nil,
    Or,
    Print,
    Return,
    Super,
    This,
    True,
    Var,
    While,
    EOF,
}

/// A token as the compiler sees it.
#[derive(Debug, Clone, PartialEq)]
pub struct Token {
    pub ty: TokenType,
}

/// The coarse class of a token that selects its parselets.
#[derive(Debug, Clone, Copy, PartialEq, Eq, Hash, Structural)]
pub enum RuleToken {
    LParen,
    Minus,
    Plus,
    Slash,
    Star,
    Literal,
    Other,
    Bang,
    Comparison,
    Equality,
    This,
    And,
    Or,
}

/// The class of each token: literals (numbers, strings, `true`, `false`,
/// `nil`), the operators, `(`, and `Other` for the rest.
pub open spec fn rule_of(ty: TokenType) -> RuleToken {
    match ty {
        TokenType::Number(_) | TokenType::String(_) | TokenType::True | TokenType::False
        | TokenType::Nil => RuleToken::Literal,
        TokenType::Minus => RuleToken::Minus,
        TokenType::Plus => RuleToken::Plus,
        TokenType::Slash => RuleToken::Slash,
        TokenType::Star => RuleToken::Star,
        TokenType::LParen => RuleToken::LParen,
        TokenType::Bang => RuleToken::Bang,
        TokenType::Less | TokenType::Greater | TokenType::BangEqual | TokenType::LessEqual
        | TokenType::GreaterEqual => RuleToken::Comparison,
        TokenType::Equal | TokenType::EqualEqual => RuleToken::Equality,
        TokenType::This => RuleToken::This,
        TokenType::And => RuleToken::And,
        TokenType::Or => RuleToken::Or,
        _ => RuleToken::Other,
    }
}

/// How a token is written back in messages; the end of input is a NUL.
pub open spec fn token_text(ty: TokenType) -> Seq<char> {
    match ty {
        TokenType::EOF => "\0"@,
        TokenType::Ident(s) => s@,
        TokenType::Number(s) => s@,
        TokenType::String(s) => "\""@ + s@ + "\""@,
        TokenType::Equal => "="@,
        TokenType::Plus => "+"@,
        TokenType::Minus => "-"@,
        TokenType::Bang => "!"@,
        TokenType::Star => "*"@,
        TokenType::Slash => "/"@,
        TokenType::Dot => "."@,
        TokenType::Less => "<"@,
        TokenType::Greater => ">"@,
        TokenType::EqualEqual => "=="@,
        TokenType::BangEqual => "!="@,
        TokenType::LessEqual => "<="@,
        TokenType::GreaterEqual => ">="@,
        TokenType::Comma => ","@,
        TokenType::Comment => "//"@,
        TokenType::Semicolon => ";"@,
        TokenType::LParen => "("@,
        TokenType::RParen => ")"@,
        TokenType::LBrace => "{"@,
        TokenType::RBrace => "}"@,
        TokenType::Fun => "fun"@,
        TokenType::Print => "print"@,
        TokenType::Var => "var"@,
        TokenType::If => "if"@,
        TokenType::Else => "else"@,
        TokenType::Return => "return"@,
        TokenType::True => "true"@,
        TokenType::False => "false"@,
        TokenType::This => "this"@,
        TokenType::Class => "class"@,
        TokenType::For => "for"@,
        TokenType::While => "while"@,
        TokenType::Super => "super"@,
        TokenType::And => "and"@,
        TokenType::Or => "or"@,
        TokenType::Nil => "nil"@,
    }
}

impl TokenType {
    /// The parselet class of this token.
    pub fn rule(&self) -> (r: RuleToken)
        ensures
            r == rule_of(*self),
    {
        match self {
            TokenType::Number(_) | TokenType::String(_) | TokenType::True | TokenType::False
            | TokenType::Nil => RuleToken::Literal,
            TokenType::Minus => RuleToken::Minus,
            TokenType::Plus => RuleToken::Plus,
            TokenType::Slash => RuleToken::Slash,
            TokenType::Star => RuleToken::Star,
            TokenType::LParen => RuleToken::LParen,
            TokenType::Bang => RuleToken::Bang,
            TokenType::Less | TokenType::Greater | TokenType::BangEqual | TokenType::LessEqual
            | TokenType::GreaterEqual => RuleToken::Comparison,
            TokenType::Equal | TokenType::EqualEqual => RuleToken::Equality,
            TokenType::This => RuleToken::This,
            TokenType::And => RuleToken::And,
            TokenType::Or => RuleToken::Or,
            _ => RuleToken::Other,
        }
    }

    /// Whether this is the end-of-input token.
    pub fn is_eof(&self) -> (r: bool)
        ensures
            r == (*self is EOF),
    {
        match self {
            TokenType::EOF => true,
            _ => false,
        }
    }

    /// The token as it is written in messages.
    pub fn text(&self) -> (r: String)
        ensures
            r@ == token_text(*self),
    {
        match self {
            TokenType::EOF => String::from_str("\0"),
            TokenType::Ident(s) => s.clone(),
            TokenType::Number(s) => s.clone(),
            TokenType::String(s) => {
                let mut r = String::from_str("\"");
                r.append(s.as_str());
                r.append("\"");
                r
            },
            TokenType::Equal => String::from_str("="),
            TokenType::Plus => String::from_str("+"),
            TokenType::Minus => String::from_str("-"),
            TokenType::Bang => String::from_str("!"),
            TokenType::Star => String::from_str("*"),
            TokenType::Slash => String::from_str("/"),
            TokenType::Dot => String::from_str("."),
            TokenType::Less => String::from_str("<"),
            TokenType::Greater => String::from_str(">"),
            TokenType::EqualEqual => String::from_str("=="),
            TokenType::BangEqual => String::from_str("!="),
            TokenType::LessEqual => String::from_str("<="),
            TokenType::GreaterEqual => String::from_str(">="),
            TokenType::Comma => String::from_str(","),
            TokenType::Comment => String::from_str("//"),
            TokenType::Semicolon => String::from_str(";"),
            TokenType::LParen => String::from_str("("),
            TokenType::RParen => String::from_str(")"),
            TokenType::LBrace => String::from_str("{"),
            TokenType::RBrace => String::from_str("}"),
            TokenType::Fun => String::from_str("fun"),
            TokenType::Print => String::from_str("print"),
            TokenType::Var => String::from_str("var"),
            TokenType::If => String::from_str("if"),
            TokenType::Else => String::from_str("else"),
            TokenType::Return => String::from_str("return"),
            TokenType::True => String::from_str("true"),
            TokenType::False => String::from_str("false"),
            TokenType::This => String::from_str("this"),
            TokenType::Class => String::from_str("class"),
            TokenType::For => String::from_str("for"),
            TokenType::While => String::from_str("while"),
            TokenType::Super => String::from_str("super"),
            TokenType::And => String::from_str("and"),
            TokenType::Or => String::from_str("or"),
            TokenType::Nil => String::from_str("nil"),
        }
    }
}

/// The variant of a token as a number, payloads aside.
pub open spec fn kind_number(ty: TokenType) -> u8 {
    match ty {
        TokenType::Ident(_) => 0,
        TokenType::LParen => 1,
        TokenType::RParen => 2,
        TokenType::LBrace => 3,
        TokenType::RBrace => 4,
        TokenType::Comma => 5,
        TokenType::Dot => 6,
        TokenType::Minus => 7,
        TokenType::Plus => 8,
        TokenType::Semicolon => 9,
        TokenType::Slash => 10,
        TokenType::Star => 11,
        TokenType::Bang => 12,
        TokenType::BangEqual => 13,
        TokenType::Equal => 14,
        TokenType::EqualEqual => 15,
        TokenType::Greater => 16,
        TokenType::GreaterEqual => 17,
        TokenType::Less => 18,
        TokenType::LessEqual => 19,
        TokenType::String(_) => 20,
        TokenType::Number(_) => 21,
        TokenType::Comment => 22,
        TokenType::And => 23,
        TokenType::Class => 24,
        TokenType::Else => 25,
        TokenType::False => 26,
        TokenType::Fun => 27,
        TokenType::For => 28,
        TokenType::If => 29,
        TokenType::Nil => 30,
        TokenType::Or => 31,
        TokenType::Print => 32,
        TokenType::Return => 33,
        TokenType::Super => 34,
        TokenType::This => 35,
        TokenType::True => 36,
        TokenType::Var => 37,
        TokenType::While => 38,
        TokenType::EOF => 39,
    }
}

impl TokenType {
    /// The variant of this token as a number; two tokens of one kind with
    /// different text share it.
    pub fn kind(&self) -> (r: u8)
        ensures
            r == kind_number(*self),
    {
        match self {
            TokenType::Ident(_) => 0,
            TokenType::LParen => 1,
            TokenType::RParen => 2,
            TokenType::LBrace => 3,
            TokenType::RBrace => 4,
            TokenType::Comma => 5,
            TokenType::Dot => 6,
            TokenType::Minus => 7,
            TokenType::Plus => 8,
            TokenType::Semicolon => 9,
            TokenType::Slash => 10,
            TokenType::Star => 11,
            TokenType::Bang => 12,
            TokenType::BangEqual => 13,
            TokenType::Equal => 14,
            TokenType::EqualEqual => 15,
            TokenType::Greater => 16,
            TokenType::GreaterEqual => 17,
            TokenType::Less => 18,
            TokenType::LessEqual => 19,
            TokenType::String(_) => 20,
            TokenType::Number(_) => 21,
            TokenType::Comment => 22,
            TokenType::And => 23,
            TokenType::Class => 24,
            TokenType::Else => 25,
            TokenType::False => 26,
            TokenType::Fun => 27,
            TokenType::For => 28,
            TokenType::If => 29,
            TokenType::Nil => 30,
            TokenType::Or => 31,
            TokenType::Print => 32,
            TokenType::Return => 33,
            TokenType::Super => 34,
            TokenType::This => 35,
            TokenType::True => 36,
            TokenType::Var => 37,
            TokenType::While => 38,
            TokenType::EOF => 39,
        }
    }
}

} // verus!
