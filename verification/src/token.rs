//! Tokens of the token tree.

use vstd::prelude::*;
use crate::span::TextPos;
use crate::tokens::TokensBuf;

verus! {

/// The decoded text of a string literal: a borrowed slice of the source
/// while no escape sequence has been seen, an owned buffer once the first
/// escape forced the decoded text to diverge from the source.
#[derive(Debug, PartialEq)]
pub enum StrText<'s> {
    /// A direct view into the source; no allocation was needed.
    Borrowed(&'s str),
    /// An owned decoded buffer; at least one escape sequence occurred.
    Owned(String),
}

impl<'s> StrText<'s> {
    /// The decoded text itself.
    pub open spec fn chars(self) -> Seq<char> {
        match self {
            StrText::Borrowed(s) => s@,
            StrText::Owned(s) => s@,
        }
    }

    /// Whether the literal owns its decoded buffer.
    pub open spec fn is_owned(self) -> bool {
        self is Owned
    }
}

/// An element in a token tree.
#[derive(Debug, PartialEq)]
pub enum TokenKind<'s> {
    /// A run of identifier characters.
    Ident(&'s str),
    /// A run of whitespace characters.
    Whitespace(&'s str),
    /// A symbol from the symbol table used when lexing.
    Symbol(&'s str),
    /// A bracketed group of tokens, tagged with its opening bracket.
    Bracket(char, TokensBuf<'s>),
    /// A string literal, already escape-decoded.
    StrLit(StrText<'s>),
}

/// A token with a position.
#[derive(Debug, PartialEq)]
pub struct Token<'s> {
    /// The position of the start of the token.
    pub start: TextPos,
    /// The kind of token.
    pub kind: TokenKind<'s>,
}

impl<'s> Clone for StrText<'s> {
    /// A clone spells the same text and keeps its borrowed or owned
    /// form.
    fn clone(&self) -> (r: Self)
        ensures
            r == *self,
    {
        match self {
            StrText::Borrowed(s) => StrText::Borrowed(s),
            StrText::Owned(s) => StrText::Owned(s.clone()),
        }
    }
}

impl<'s> Clone for TokenKind<'s> {
    /// A structural copy.  As with a derived `Clone`, no specification
    /// is attached.
    fn clone(&self) -> Self
        decreases *self,
    {
        match self {
            TokenKind::Ident(s) => TokenKind::Ident(s),
            TokenKind::Whitespace(s) => TokenKind::Whitespace(s),
            TokenKind::Symbol(s) => TokenKind::Symbol(s),
            TokenKind::Bracket(c, tb) => TokenKind::Bracket(*c, tb.clone()),
            TokenKind::StrLit(st) => TokenKind::StrLit(st.clone()),
        }
    }
}

impl<'s> Clone for Token<'s> {
    /// A structural copy.  As with a derived `Clone`, no specification
    /// is attached.
    fn clone(&self) -> Self
        decreases *self,
    {
        Token { start: self.start, kind: self.kind.clone() }
    }
}

/// Whether a token is a whitespace token.
pub open spec fn is_ws_token(t: Token) -> bool {
    t.kind is Whitespace
}

impl<'s> Token<'s> {
    /// Check whether a token is a whitespace token.
    pub fn is_whitespace(&self) -> (r: bool)
        ensures
            r == is_ws_token(*self),
    {
        if let TokenKind::Whitespace(_) = self.kind {
            true
        } else {
            false
        }
    }
}

} // verus!
