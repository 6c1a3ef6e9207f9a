use vstd::prelude::*;

use crate::span::Span;

verus! {

/// Lexical class of a token. A number keeps the literal as it was written:
/// ASCII digits with at most one decimal point.
#[derive(Clone, Debug)]
pub enum TokenType {
    End,
    Number { text: String },
    Identifier { name: String },
    Command { name: String },
    Plus,
    Minus,
    Mul,
    Div,
    Pow,
    Equal,
    LParen,
    RParen,
    LBrace,
    RBrace,
}

#[derive(Debug)]
pub struct Token {
    pub token_type: TokenType,
    pub span: Span,
}

/// Human-readable description of a token class.
pub open spec fn describe(t: TokenType) -> Seq<char> {
    match t {
        TokenType::End => "end of input"@,
        TokenType::Number { .. } => "number (numeric literal, e.g. 3.14, 42)"@,
        TokenType::Identifier { .. } => "identifier (variable or symbol)"@,
        TokenType::Command { .. } => "Command (e.g. \\sqrt, \\sin)"@,
        TokenType::Plus => "+"@,
        TokenType::Minus => "-"@,
        TokenType::Mul => "*"@,
        TokenType::Div => "/"@,
        TokenType::Pow => "^"@,
        TokenType::Equal => "="@,
        TokenType::LParen => "("@,
        TokenType::RParen => ")"@,
        TokenType::LBrace => "{"@,
        TokenType::RBrace => "}"@,
    }
}

impl TokenType {
    pub fn to_string(&self) -> (r: String)
        ensures
            r@ == describe(*self),
    {
        let s = match self {
            TokenType::End => "end of input",
            TokenType::Number { .. } => "number (numeric literal, e.g. 3.14, 42)",
            TokenType::Identifier { .. } => "identifier (variable or symbol)",
            TokenType::Command { .. } => "Command (e.g. \\sqrt, \\sin)",
            TokenType::Plus => "+",
            TokenType::Minus => "-",
            TokenType::Mul => "*",
            TokenType::Div => "/",
            TokenType::Pow => "^",
            TokenType::Equal => "=",
            TokenType::LParen => "(",
            TokenType::RParen => ")",
            TokenType::LBrace => "{",
            TokenType::RBrace => "}",
        };
        s.to_owned()
    }
}

} // verus!
