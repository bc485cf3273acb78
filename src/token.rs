//! Terminal kinds and tokens.

use crate::span::Span;
use vstd::prelude::*;

verus! {

/// The kind of a terminal. `Ignored` and `Comment` name what the lexer skips
/// and never appear in its output.
#[derive(Debug, PartialEq, Eq, Structural, Clone, Copy)]
pub enum Kind {
    Ignored,
    Ident,
    Equal,
    Colon,
    Star,
    Question,
    Literal,
    Comment,
    Paren(Paren),
    Pipe,
    Error,
    Eof,
}

#[derive(Debug, PartialEq, Eq, Structural, Clone, Copy)]
pub enum Paren {
    Open,
    Close,
}

impl Default for Kind {
    fn default() -> (r: Kind)
        ensures
            r == Kind::Eof,
    {
        Kind::Eof
    }
}

#[derive(Debug, PartialEq, Eq, Structural, Clone, Copy)]
pub struct Token {
    pub span: Span,
    pub kind: Kind,
}

impl Token {
    pub fn new(span: Span, kind: Kind) -> (r: Token)
        ensures
            r == (Token { span, kind }),
    {
        Token { span, kind }
    }
}

} // verus!
