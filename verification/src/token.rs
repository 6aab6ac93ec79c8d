//! Tokens: the unit the lexer produces and the compiler consumes.

use vstd::prelude::*;

use crate::common::{LocView, SourceLocation};

verus! {

/// Every kind of token the language knows. Identifiers double as keywords via
/// the fixed table in the lexer; anything unlisted there is a free `Name`.
#[derive(Debug, Clone, Copy, PartialEq, Eq, Structural)]
pub enum TokenKind {
    EndOfFile,
    Integer,
    Name,
    Print,
    If,
    Else,
    While,
    Proc,
    Call,
    Dup,
    Drop,
    Swap,
    Memory,
    OpenParenthesis,
    CloseParenthesis,
    OpenBrace,
    CloseBrace,
    Not,
    RightArrow,
    Plus,
    Minus,
    Asterisk,
    Slash,
    LessThan,
    GreaterThan,
    LessThanEqual,
    GreaterThanEqual,
    Equal,
    NotEqual,
}

/// The payload a token carries: nothing, an integer value, or a name.
#[derive(Debug)]
pub enum TokenData {
    NoData,
    IntValue(isize),
    Str(String),
}

impl Clone for TokenData {
    fn clone(&self) -> (r: TokenData)
        ensures
            r == *self,
    {
        match self {
            TokenData::NoData => TokenData::NoData,
            TokenData::IntValue(value) => TokenData::IntValue(*value),
            TokenData::Str(value) => TokenData::Str(value.clone()),
        }
    }
}

impl TokenData {
    /// The integer payload; only integer tokens carry one.
    pub fn get_integer(self: &TokenData) -> (r: isize)
        requires
            self is IntValue,
        ensures
            *self == TokenData::IntValue(r),
    {
        if let TokenData::IntValue(value) = self {
            *value
        } else {
            vstd::pervasive::unreached()
        }
    }

    /// Mutable access to the integer payload.
    pub fn get_integer_mut(self: &mut TokenData) -> (r: &mut isize)
        requires
            (*old(self)) is IntValue,
        ensures
            *old(self) == TokenData::IntValue(*r),
            *final(self) == TokenData::IntValue(*final(r)),
    {
        if let TokenData::IntValue(value) = self {
            value
        } else {
            vstd::pervasive::unreached()
        }
    }

    /// The string payload; only name tokens carry one.
    pub fn get_string(self: &TokenData) -> (r: String)
        requires
            self is Str,
        ensures
            *self == TokenData::Str(r),
    {
        if let TokenData::Str(value) = self {
            value.clone()
        } else {
            vstd::pervasive::unreached()
        }
    }

    /// Mutable access to the string payload.
    pub fn get_string_mut(self: &mut TokenData) -> (r: &mut String)
        requires
            (*old(self)) is Str,
        ensures
            *old(self) == TokenData::Str(*r),
            *final(self) == TokenData::Str(*final(r)),
    {
        if let TokenData::Str(value) = self {
            value
        } else {
            vstd::pervasive::unreached()
        }
    }
}

/// One token: its kind, where it starts, how many characters it spans, and
/// its payload.
#[derive(Debug)]
pub struct Token {
    pub kind: TokenKind,
    pub location: SourceLocation,
    pub length: usize,
    pub data: TokenData,
}

impl Clone for Token {
    fn clone(&self) -> (r: Token)
        ensures
            r == *self,
    {
        Token {
            kind: self.kind,
            location: self.location.clone(),
            length: self.length,
            data: self.data.clone(),
        }
    }
}

/// The ghost image of a token's payload, with strings as character sequences.
pub ghost enum TokenDataView {
    NoData,
    IntData(int),
    StrData(Seq<char>),
}

/// The ghost image of a token within one source text.
pub ghost struct TokenView {
    pub kind: TokenKind,
    pub loc: LocView,
    pub length: int,
    pub data: TokenDataView,
}

/// The ghost image of a token's payload.
pub open spec fn data_view(d: TokenData) -> TokenDataView {
    match d {
        TokenData::NoData => TokenDataView::NoData,
        TokenData::IntValue(i) => TokenDataView::IntData(i as int),
        TokenData::Str(s) => TokenDataView::StrData(s@),
    }
}

/// The ghost image of a whole token.
pub open spec fn token_view(t: Token) -> TokenView {
    TokenView {
        kind: t.kind,
        loc: crate::common::loc_view(t.location),
        length: t.length as int,
        data: data_view(t.data),
    }
}

/// A well-formed token: integer tokens carry an integer payload, name tokens
/// a string, and the span and column arithmetic cannot overflow.
pub open spec fn token_wf(v: TokenView) -> bool {
    &&& (v.kind == TokenKind::Integer ==> v.data is IntData)
    &&& (v.kind == TokenKind::Name ==> v.data is StrData)
    &&& v.length >= 0
    &&& 0 <= v.loc.pos && v.loc.pos + v.length <= usize::MAX
    &&& v.loc.col + v.length <= usize::MAX
}

/// The spelling of a token kind, for diagnostics.
pub fn kind_name(kind: TokenKind) -> (r: &'static str) {
    match kind {
        TokenKind::EndOfFile => "end of file",
        TokenKind::Integer => "an integer",
        TokenKind::Name => "a name",
        TokenKind::Print => "print",
        TokenKind::If => "if",
        TokenKind::Else => "else",
        TokenKind::While => "while",
        TokenKind::Proc => "proc",
        TokenKind::Call => "call",
        TokenKind::Dup => "dup",
        TokenKind::Drop => "drop",
        TokenKind::Swap => "swap",
        TokenKind::Memory => "memory",
        TokenKind::OpenParenthesis => "(",
        TokenKind::CloseParenthesis => ")",
        TokenKind::OpenBrace => "{",
        TokenKind::CloseBrace => "}",
        TokenKind::Not => "!",
        TokenKind::RightArrow => "->",
        TokenKind::Plus => "+",
        TokenKind::Minus => "-",
        TokenKind::Asterisk => "*",
        TokenKind::Slash => "/",
        TokenKind::LessThan => "<",
        TokenKind::GreaterThan => ">",
        TokenKind::LessThanEqual => "<=",
        TokenKind::GreaterThanEqual => ">=",
        TokenKind::Equal => "=",
        TokenKind::NotEqual => "!=",
    }
}

} // verus!
