//! The token vocabulary.
use vstd::prelude::*;

verus! {

/// One classified unit of source text.
#[derive(Debug, Clone, PartialEq, Eq)]
pub enum Token {
    Ident(String),
    Integer(i32),
    Boolean(bool),
    String(String),
    Var,
    Function,
    If,
    Else,
    Return,
    Assign,
    Eq,
    Bang,
    NotEq,
    Lt,
    Lte,
    Gt,
    Gte,
    Plus,
    Minus,
    Asterisk,
    Slash,
    Colon,
    Comma,
    Semicolon,
    LBrace,
    RBrace,
    LParen,
    RParen,
    LBracket,
    RBracket,
    EOF,
    Illegal,
}

/// The mathematical value of a token: text payloads as character sequences,
/// integer payloads as unbounded integers.
pub ghost enum Tok {
    Ident(Seq<char>),
    Integer(int),
    Boolean(bool),
    Str(Seq<char>),
    Var,
    Function,
    If,
    Else,
    Return,
    Assign,
    Eq,
    Bang,
    NotEq,
    Lt,
    Lte,
    Gt,
    Gte,
    Plus,
    Minus,
    Asterisk,
    Slash,
    Colon,
    Comma,
    Semicolon,
    LBrace,
    RBrace,
    LParen,
    RParen,
    LBracket,
    RBracket,
    Eof,
    Illegal,
}

impl View for Token {
    type V = Tok;

    open spec fn view(&self) -> Tok {
        match self {
            Token::Ident(s) => Tok::Ident(s@),
            Token::Integer(n) => Tok::Integer(*n as int),
            Token::Boolean(b) => Tok::Boolean(*b),
            Token::String(s) => Tok::Str(s@),
            Token::Var => Tok::Var,
            Token::Function => Tok::Function,
            Token::If => Tok::If,
            Token::Else => Tok::Else,
            Token::Return => Tok::Return,
            Token::Assign => Tok::Assign,
            Token::Eq => Tok::Eq,
            Token::Bang => Tok::Bang,
            Token::NotEq => Tok::NotEq,
            Token::Lt => Tok::Lt,
            Token::Lte => Tok::Lte,
            Token::Gt => Tok::Gt,
            Token::Gte => Tok::Gte,
            Token::Plus => Tok::Plus,
            Token::Minus => Tok::Minus,
            Token::Asterisk => Tok::Asterisk,
            Token::Slash => Tok::Slash,
            Token::Colon => Tok::Colon,
            Token::Comma => Tok::Comma,
            Token::Semicolon => Tok::Semicolon,
            Token::LBrace => Tok::LBrace,
            Token::RBrace => Tok::RBrace,
            Token::LParen => Tok::LParen,
            Token::RParen => Tok::RParen,
            Token::LBracket => Tok::LBracket,
            Token::RBracket => Tok::RBracket,
            Token::EOF => Tok::Eof,
            Token::Illegal => Tok::Illegal,
        }
    }
}

/// The keyword that a word stands for, if it is one.
pub open spec fn keyword(w: Seq<char>) -> Option<Tok> {
    if w == seq!['v', 'a', 'r'] {
        Some(Tok::Var)
    } else if w == seq!['f', 'u', 'n', 'c', 't', 'i', 'o', 'n'] {
        Some(Tok::Function)
    } else if w == seq!['t', 'r', 'u', 'e'] {
        Some(Tok::Boolean(true))
    } else if w == seq!['f', 'a', 'l', 's', 'e'] {
        Some(Tok::Boolean(false))
    } else if w == seq!['i', 'f'] {
        Some(Tok::If)
    } else if w == seq!['e', 'l', 's', 'e'] {
        Some(Tok::Else)
    } else if w == seq!['r', 'e', 't', 'u', 'r', 'n'] {
        Some(Tok::Return)
    } else {
        None
    }
}

/// The token for a scanned word: its keyword, or else an identifier.
pub open spec fn word_token(w: Seq<char>) -> Tok {
    match keyword(w) {
        Some(t) => t,
        None => Tok::Ident(w),
    }
}

} // verus!
