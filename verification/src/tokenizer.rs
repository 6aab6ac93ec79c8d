//! The tokenizer capability interface, and its array-backed implementation.
//!
//! The compiler is driven over either a live character stream (`Lexer`) or a
//! pre-sliced token slice (`TokenArray`) behind the same contract: `front`
//! names what the stream yields next, and consuming a non-end-of-file token
//! strictly shrinks `measure`, which bounds the compiler's recursion.

use vstd::prelude::*;
use vstd::string::StringExecFns;

use crate::common::{Error, LocView, SourceLocation, loc_view};
use crate::token::{Token, TokenData, TokenKind, TokenView, TokenDataView, kind_name, token_view, token_wf};

verus! {

/// A stream of tokens supporting one-token look-ahead.
///
/// `next()` consumes and returns the next token; at the end of the stream it
/// returns an end-of-file token, infinitely repeatably. `peek` variants
/// return the same token without consuming it.
pub trait Tokenizer: Sized {
    /// The stream is in a consistent state.
    spec fn wf(&self) -> bool;

    /// An upper bound on the tokens still to come; consuming a token
    /// strictly decreases it.
    spec fn measure(&self) -> nat;

    /// The filepath stamped on every produced token and error.
    spec fn path(&self) -> Seq<char>;

    /// What the stream yields next: the next token, or the location of a
    /// lexical error.
    spec fn front(&self) -> Result<TokenView, LocView>;

    /// Every token still to come, in order, up to the end of the stream or
    /// its lexical error.
    spec fn stream(&self) -> Seq<TokenView>;

    /// Consume and return the next token.
    fn next_token(&mut self) -> (r: Result<Token, Error>)
        requires
            old(self).wf(),
        ensures
            final(self).wf(),
            final(self).path() == old(self).path(),
            match r {
                Ok(t) => {
                    &&& old(self).front() matches Ok(tv) && token_view(t) == tv && token_wf(tv)
                    &&& t.location.filepath@ == old(self).path()
                    &&& (t.kind == TokenKind::EndOfFile ==> final(self).front() == old(
                        self,
                    ).front() && final(self).measure() <= old(self).measure()
                        && old(self).stream() == Seq::<TokenView>::empty() && final(self).stream()
                        == Seq::<TokenView>::empty())
                    &&& (t.kind != TokenKind::EndOfFile ==> final(self).measure() < old(
                        self,
                    ).measure() && old(self).stream() == seq![token_view(t)]
                        + final(self).stream())
                },
                Err(e) => {
                    &&& old(self).front() matches Err(lv) && loc_view(e.location) == lv
                    &&& e.location.filepath@ == old(self).path()
                    &&& final(self).measure() <= old(self).measure()
                    &&& old(self).stream() == Seq::<TokenView>::empty()
                },
            },
    ;

    /// Return the next token without consuming it.
    fn peek_token(&self) -> (r: Result<Token, Error>)
        requires
            self.wf(),
        ensures
            match r {
                Ok(t) => {
                    &&& self.front() matches Ok(tv) && token_view(t) == tv && token_wf(tv)
                    &&& t.location.filepath@ == self.path()
                },
                Err(e) => {
                    &&& self.front() matches Err(lv) && loc_view(e.location) == lv
                    &&& e.location.filepath@ == self.path()
                },
            },
    ;

    /// Return the kind of the next token without consuming it.
    fn peek_kind(&self) -> (r: Result<TokenKind, Error>)
        requires
            self.wf(),
        ensures
            match r {
                Ok(k) => self.front() matches Ok(tv) && k == tv.kind,
                Err(e) => {
                    &&& self.front() matches Err(lv) && loc_view(e.location) == lv
                    &&& e.location.filepath@ == self.path()
                },
            },
    ;

    /// Consume the next token, failing if its kind is not `kind`. Success is
    /// owed whenever the stream's next token has that kind; on failure
    /// nothing is consumed and the error sits at the offending token.
    fn expect_token(&mut self, kind: TokenKind) -> (r: Result<Token, Error>)
        requires
            old(self).wf(),
        ensures
            final(self).wf(),
            final(self).path() == old(self).path(),
            (old(self).front() matches Ok(tv) && tv.kind == kind) ==> r is Ok,
            match r {
                Ok(t) => {
                    &&& t.kind == kind
                    &&& old(self).front() matches Ok(tv) && token_view(t) == tv && token_wf(tv)
                    &&& t.location.filepath@ == old(self).path()
                    &&& (kind == TokenKind::EndOfFile ==> final(self).front() == old(
                        self,
                    ).front() && final(self).measure() <= old(self).measure())
                    &&& (kind != TokenKind::EndOfFile ==> final(self).measure() < old(
                        self,
                    ).measure())
                },
                Err(e) => {
                    &&& *final(self) == *old(self)
                    &&& e.location.filepath@ == old(self).path()
                    &&& (old(self).front() matches Ok(tv) ==> tv.kind != kind && loc_view(
                        e.location,
                    ) == tv.loc)
                    &&& (old(self).front() matches Err(lv) ==> loc_view(e.location) == lv)
                },
            },
    {
        let actual_token = match self.peek_token() {
            Ok(t) => t,
            Err(e) => {
                return Err(e);
            },
        };
        if actual_token.kind != kind {
            let mut message: String = "unexpected token ".to_owned();
            message.append(kind_name(actual_token.kind));
            message.append(", expected ");
            message.append(kind_name(kind));
            Err(Error { location: actual_token.location, message })
        } else {
            self.next_token()
        }
    }
}

/// A tokenizer over an in-memory array of already-lexed tokens: the compiler
/// uses it to replay a sliced signature expression.
pub struct TokenArray {
    pub filepath: String,
    pub tokens: Vec<Token>,
    pub position: usize,
}

impl TokenArray {
    /// The synthesized end-of-file token: placed one past the last stored
    /// token, or at the very start for an empty array.
    pub open spec fn eof_view(&self) -> TokenView {
        TokenView {
            kind: TokenKind::EndOfFile,
            loc: if self.tokens@.len() > 0 {
                LocView {
                    pos: self.tokens@.last().location.position + self.tokens@.last().length,
                    line: self.tokens@.last().location.line as int,
                    col: self.tokens@.last().location.column + self.tokens@.last().length,
                }
            } else {
                LocView { pos: 0, line: 1, col: 1 }
            },
            length: 0,
            data: TokenDataView::NoData,
        }
    }

    /// Build the end-of-file token that follows the stored tokens.
    pub fn get_end_of_file_token(self: &TokenArray) -> (r: Token)
        requires
            self.wf(),
        ensures
            token_view(r) == self.eof_view(),
            r.location.filepath@ == self.filepath@,
    {
        Token {
            kind: TokenKind::EndOfFile,
            location: if self.tokens.len() > 0 {
                let last_token = &self.tokens[self.tokens.len() - 1];
                SourceLocation {
                    filepath: self.filepath.clone(),
                    position: last_token.location.position + last_token.length,
                    line: last_token.location.line,
                    column: last_token.location.column + last_token.length,
                }
            } else {
                SourceLocation { filepath: self.filepath.clone(), position: 0, line: 1, column: 1 }
            },
            length: 0,
            data: TokenData::NoData,
        }
    }
}

impl Tokenizer for TokenArray {
    /// Stored tokens never include end-of-file (it is synthesized), they all
    /// carry this array's filepath, and the synthesized end-of-file location
    /// cannot overflow.
    open spec fn wf(&self) -> bool {
        &&& self.position <= self.tokens@.len()
        &&& forall|i: int|
            0 <= i < self.tokens@.len() ==> (#[trigger] self.tokens@[i]).kind
                != TokenKind::EndOfFile
        &&& forall|i: int|
            0 <= i < self.tokens@.len() ==> (#[trigger] self.tokens@[i]).location.filepath@
                == self.filepath@
        &&& forall|i: int|
            0 <= i < self.tokens@.len() ==> token_wf(token_view(#[trigger] self.tokens@[i]))
    }

    open spec fn measure(&self) -> nat {
        if self.position <= self.tokens@.len() {
            (self.tokens@.len() - self.position) as nat
        } else {
            0
        }
    }

    open spec fn path(&self) -> Seq<char> {
        self.filepath@
    }

    open spec fn front(&self) -> Result<TokenView, LocView> {
        if self.position < self.tokens@.len() {
            Ok(token_view(self.tokens@[self.position as int]))
        } else {
            Ok(self.eof_view())
        }
    }

    open spec fn stream(&self) -> Seq<TokenView> {
        if self.position <= self.tokens@.len() {
            Seq::new(
                (self.tokens@.len() - self.position) as nat,
                |k: int| token_view(self.tokens@[self.position + k]),
            )
        } else {
            Seq::empty()
        }
    }

    fn next_token(&mut self) -> (r: Result<Token, Error>) {
        if self.position < self.tokens.len() {
            let t = self.tokens[self.position].clone();
            self.position = self.position + 1;
            proof {
                assert(old(self).stream() =~= seq![token_view(t)] + self.stream());
            }
            Ok(t)
        } else {
            proof {
                assert(self.stream() =~= Seq::<TokenView>::empty());
            }
            Ok(self.get_end_of_file_token())
        }
    }

    fn peek_token(&self) -> (r: Result<Token, Error>) {
        if self.position < self.tokens.len() {
            Ok(self.tokens[self.position].clone())
        } else {
            Ok(self.get_end_of_file_token())
        }
    }

    fn peek_kind(&self) -> (r: Result<TokenKind, Error>) {
        if self.position < self.tokens.len() {
            Ok(self.tokens[self.position].kind)
        } else {
            Ok(TokenKind::EndOfFile)
        }
    }
}

} // verus!
