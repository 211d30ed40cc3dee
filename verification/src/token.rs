//! The token type and its mathematical image.

use vstd::prelude::*;

verus! {

/// A classified unit of lexical meaning.
#[derive(Debug, PartialEq, Eq)]
pub enum Token {
    // sentinels
    Illegal,
    EOF,
    // identifiers and keywords
    Ident(String),
    Function,
    Let,
    If,
    Else,
    Return,
    // literal values
    Int(u32),
    Boolean(bool),
    // operators
    Assign,
    Plus,
    Minus,
    Comma,
    Div,
    Mul,
    Dot,
    Semicolon,
    LessThan,
    MoreThan,
    Bang,
    DoesntEqual,
    Equals,
    // structural symbols
    LParen,
    RParen,
    LBrace,
    RBrace,
    LBracket,
    RBracket,
}

/// The mathematical image of a token: the same variants, with an
/// identifier carried as its character sequence.
pub enum SpecToken {
    Illegal,
    EOF,
    Ident(Seq<char>),
    Function,
    Let,
    If,
    Else,
    Return,
    Int(u32),
    Boolean(bool),
    Assign,
    Plus,
    Minus,
    Comma,
    Div,
    Mul,
    Dot,
    Semicolon,
    LessThan,
    MoreThan,
    Bang,
    DoesntEqual,
    Equals,
    LParen,
    RParen,
    LBrace,
    RBrace,
    LBracket,
    RBracket,
}

impl View for Token {
    type V = SpecToken;

    open spec fn view(&self) -> SpecToken {
        match self {
            Token::Illegal => SpecToken::Illegal,
            Token::EOF => SpecToken::EOF,
            Token::Ident(s) => SpecToken::Ident(s@),
            Token::Function => SpecToken::Function,
            Token::Let => SpecToken::Let,
            Token::If => SpecToken::If,
            Token::Else => SpecToken::Else,
            Token::Return => SpecToken::Return,
            Token::Int(n) => SpecToken::Int(*n),
            Token::Boolean(b) => SpecToken::Boolean(*b),
            Token::Assign => SpecToken::Assign,
            Token::Plus => SpecToken::Plus,
            Token::Minus => SpecToken::Minus,
            Token::Comma => SpecToken::Comma,
            Token::Div => SpecToken::Div,
            Token::Mul => SpecToken::Mul,
            Token::Dot => SpecToken::Dot,
            Token::Semicolon => SpecToken::Semicolon,
            Token::LessThan => SpecToken::LessThan,
            Token::MoreThan => SpecToken::MoreThan,
            Token::Bang => SpecToken::Bang,
            Token::DoesntEqual => SpecToken::DoesntEqual,
            Token::Equals => SpecToken::Equals,
            Token::LParen => SpecToken::LParen,
            Token::RParen => SpecToken::RParen,
            Token::LBrace => SpecToken::LBrace,
            Token::RBrace => SpecToken::RBrace,
            Token::LBracket => SpecToken::LBracket,
            Token::RBracket => SpecToken::RBracket,
        }
    }
}

/// The keyword table: the token a spelling is reserved for, if any.
/// Exact, case-sensitive matches only; `true` and `false` resolve to
/// boolean literal tokens, the rest to their named keyword token.
pub open spec fn spec_keyword(s: Seq<char>) -> Option<SpecToken> {
    if s == "fn"@ {
        Some(SpecToken::Function)
    } else if s == "let"@ {
        Some(SpecToken::Let)
    } else if s == "if"@ {
        Some(SpecToken::If)
    } else if s == "else"@ {
        Some(SpecToken::Else)
    } else if s == "return"@ {
        Some(SpecToken::Return)
    } else if s == "true"@ {
        Some(SpecToken::Boolean(true))
    } else if s == "false"@ {
        Some(SpecToken::Boolean(false))
    } else {
        None
    }
}

} // verus!
