use vstd::prelude::*;

use crate::span::Span;

verus! {

/// The kinds of token of the language.
#[derive(Debug, Clone, PartialEq, Eq)]
pub enum TokenKind {
    Int(i64),
    Bool(bool),
    Ident(String),
    If,
    Then,
    Else,
    Let,
    In,
    Fun,
    Arrow,
    Equal,
    Plus,
    Minus,
    Star,
    Slash,
    Less,
    LParen,
    RParen,
    Eof,
}

/// A token with the byte range of the source text it was read from.
#[derive(Debug, Clone, PartialEq, Eq)]
pub struct Token {
    pub kind: TokenKind,
    pub span: Span,
}

} // verus!
