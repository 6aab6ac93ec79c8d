//! The lexer: turns source text into tokens, one at a time.
//!
//! `lex_front` is the specification of what the next token is at any position
//! of a source text; `scan_token` implements it and additionally reports how
//! the cursor moved, which is what the round-trip law builds on.

use vstd::prelude::*;
use vstd::string::StrSliceExecFns;

use crate::common::{Error, LocView, SourceLocation, loc_view, push_char, str_is};
use crate::token::{Token, TokenData, TokenDataView, TokenKind, TokenView, token_view};
use crate::tokenizer::Tokenizer;

verus! {

// ------------------------------------------------------------------
// Character classes
// ------------------------------------------------------------------

/// Whitespace that may separate tokens.
pub open spec fn is_space(c: char) -> bool {
    c == ' ' || c == '\t' || c == '\n' || c == '\r'
}

/// A decimal digit.
pub open spec fn is_digit(c: char) -> bool {
    ('0' as u32) <= (c as u32) && (c as u32) <= ('9' as u32)
}

/// An upper-case letter.
pub open spec fn is_upper(c: char) -> bool {
    ('A' as u32) <= (c as u32) && (c as u32) <= ('Z' as u32)
}

/// A lower-case letter.
pub open spec fn is_lower(c: char) -> bool {
    ('a' as u32) <= (c as u32) && (c as u32) <= ('z' as u32)
}

/// A character that may start an identifier.
pub open spec fn is_name_start(c: char) -> bool {
    is_upper(c) || is_lower(c) || c == '_'
}

/// A character that may continue an identifier or an integer literal.
pub open spec fn is_run_char(c: char) -> bool {
    is_digit(c) || is_upper(c) || is_lower(c) || c == '_'
}

/// The value a character denotes as a digit (letters count from 10); an
/// out-of-range marker for everything else.
pub open spec fn digit_val(c: char) -> int {
    if is_digit(c) {
        c as u32 - '0' as u32
    } else if is_upper(c) {
        c as u32 - 'A' as u32 + 10
    } else if is_lower(c) {
        c as u32 - 'a' as u32 + 10
    } else {
        99
    }
}

// ------------------------------------------------------------------
// Line and column numbering
// ------------------------------------------------------------------

/// The 1-based line number of offset `pos`: one more than the newlines
/// before it.
pub open spec fn line_of(src: Seq<char>, pos: int) -> int
    decreases pos,
{
    if pos <= 0 {
        1
    } else {
        line_of(src, pos - 1) + if src[pos - 1] == '\n' {
            1int
        } else {
            0int
        }
    }
}

/// The 1-based column of offset `pos`: its distance from the start of its
/// line.
pub open spec fn col_of(src: Seq<char>, pos: int) -> int
    decreases pos,
{
    if pos <= 0 {
        1
    } else if src[pos - 1] == '\n' {
        1
    } else {
        col_of(src, pos - 1) + 1
    }
}

/// Line and column numbers stay within `pos + 1`.
pub proof fn lemma_line_col_bounds(src: Seq<char>, pos: int)
    requires
        pos >= 0,
    ensures
        1 <= line_of(src, pos) <= pos + 1,
        1 <= col_of(src, pos) <= pos + 1,
    decreases pos,
{
    if pos > 0 {
        lemma_line_col_bounds(src, pos - 1);
    }
}

/// The full location value at offset `pos`.
pub open spec fn loc_at(src: Seq<char>, pos: int) -> LocView {
    LocView { pos, line: line_of(src, pos), col: col_of(src, pos) }
}

// ------------------------------------------------------------------
// Scanning, as specification
// ------------------------------------------------------------------

/// The first offset at or after `i` that does not hold whitespace.
pub open spec fn skip_ws(src: Seq<char>, i: int) -> int
    decreases src.len() - i,
{
    if 0 <= i < src.len() && is_space(src[i]) {
        skip_ws(src, i + 1)
    } else {
        i
    }
}

/// Everything `skip_ws` passes over is whitespace, and it stops within the
/// source.
pub proof fn lemma_skip_ws(src: Seq<char>, i: int)
    requires
        0 <= i <= src.len(),
    ensures
        i <= skip_ws(src, i) <= src.len(),
        forall|k: int| i <= k < skip_ws(src, i) ==> is_space(#[trigger] src[k]),
        skip_ws(src, i) == src.len() || !is_space(src[skip_ws(src, i)]),
    decreases src.len() - i,
{
    if i < src.len() && is_space(src[i]) {
        lemma_skip_ws(src, i + 1);
    }
}

/// The first offset at or after `i` that does not hold an identifier
/// character.
pub open spec fn run_end(src: Seq<char>, i: int) -> int
    decreases src.len() - i,
{
    if 0 <= i < src.len() && is_run_char(src[i]) {
        run_end(src, i + 1)
    } else {
        i
    }
}

/// Everything before `run_end` is an identifier character, and it stops
/// within the source.
pub proof fn lemma_run_end(src: Seq<char>, i: int)
    requires
        0 <= i <= src.len(),
    ensures
        i <= run_end(src, i) <= src.len(),
        forall|k: int| i <= k < run_end(src, i) ==> is_run_char(#[trigger] src[k]),
        run_end(src, i) == src.len() || !is_run_char(src[run_end(src, i)]),
    decreases src.len() - i,
{
    if i < src.len() && is_run_char(src[i]) {
        lemma_run_end(src, i + 1);
    }
}

/// The base selected by an integer literal's prefix, and the offset scanning
/// resumes at: `0b`, `0o`, `0d` and `0x` select 2, 8, 10 and 16; otherwise
/// the base is 10 and nothing is skipped.
pub open spec fn int_base(src: Seq<char>, j: int) -> (int, int) {
    if src[j] == '0' && j + 1 < src.len() && (src[j + 1] == 'b' || src[j + 1] == 'o' || src[j + 1]
        == 'd' || src[j + 1] == 'x') {
        (
            if src[j + 1] == 'b' {
                2int
            } else if src[j + 1] == 'o' {
                8int
            } else if src[j + 1] == 'd' {
                10int
            } else {
                16int
            },
            j + 2,
        )
    } else {
        (10int, j)
    }
}

/// Scan an integer literal's digit run from offset `i` with accumulated
/// value `acc`: underscores are skipped, a digit too big for the base or a
/// value beyond `isize::MAX` is a lexical error at that digit's offset.
pub open spec fn scan_int(src: Seq<char>, i: int, base: int, acc: int) -> Result<(int, int), int>
    decreases src.len() - i,
{
    if i < 0 || i >= src.len() || !is_run_char(src[i]) {
        Ok((acc, i))
    } else if src[i] == '_' {
        scan_int(src, i + 1, base, acc)
    } else if digit_val(src[i]) >= base {
        Err(i)
    } else if acc * base + digit_val(src[i]) > isize::MAX as int {
        Err(i)
    } else {
        scan_int(src, i + 1, base, acc * base + digit_val(src[i]))
    }
}

/// A successful digit scan stays within the source, consumes only
/// identifier characters, and keeps the value in `0 ..= isize::MAX`.
pub proof fn lemma_scan_int(src: Seq<char>, i: int, base: int, acc: int)
    requires
        0 <= i <= src.len(),
        0 <= acc <= isize::MAX as int,
    ensures
        scan_int(src, i, base, acc) matches Ok((v, e)) ==> i <= e <= src.len() && 0 <= v
            <= isize::MAX as int && (forall|k: int|
            i <= k < e ==> is_run_char(#[trigger] src[k])),
        scan_int(src, i, base, acc) matches Err(p) ==> i <= p < src.len(),
    decreases src.len() - i,
{
    if 0 <= i < src.len() && is_run_char(src[i]) {
        if src[i] == '_' {
            lemma_scan_int(src, i + 1, base, acc);
        } else if digit_val(src[i]) < base && acc * base + digit_val(src[i]) <= isize::MAX as int {
            lemma_scan_int(src, i + 1, base, acc * base + digit_val(src[i]));
        }
    }
}

/// The keyword table: identifiers that are their own token kind.
pub open spec fn keyword_kind(s: Seq<char>) -> Option<TokenKind> {
    if s == "print"@ {
        Some(TokenKind::Print)
    } else if s == "if"@ {
        Some(TokenKind::If)
    } else if s == "else"@ {
        Some(TokenKind::Else)
    } else if s == "while"@ {
        Some(TokenKind::While)
    } else if s == "dup"@ {
        Some(TokenKind::Dup)
    } else if s == "drop"@ {
        Some(TokenKind::Drop)
    } else if s == "swap"@ {
        Some(TokenKind::Swap)
    } else if s == "memory"@ {
        Some(TokenKind::Memory)
    } else if s == "proc"@ {
        Some(TokenKind::Proc)
    } else if s == "call"@ {
        Some(TokenKind::Call)
    } else {
        None
    }
}

/// The two-character operators.
pub open spec fn double_kind(c1: char, c2: char) -> Option<TokenKind> {
    if c1 == '<' && c2 == '=' {
        Some(TokenKind::LessThanEqual)
    } else if c1 == '>' && c2 == '=' {
        Some(TokenKind::GreaterThanEqual)
    } else if c1 == '-' && c2 == '>' {
        Some(TokenKind::RightArrow)
    } else if c1 == '!' && c2 == '=' {
        Some(TokenKind::NotEqual)
    } else {
        None
    }
}

/// The single-character operators and punctuation.
pub open spec fn single_kind(c: char) -> Option<TokenKind> {
    if c == '(' {
        Some(TokenKind::OpenParenthesis)
    } else if c == ')' {
        Some(TokenKind::CloseParenthesis)
    } else if c == '{' {
        Some(TokenKind::OpenBrace)
    } else if c == '}' {
        Some(TokenKind::CloseBrace)
    } else if c == '!' {
        Some(TokenKind::Not)
    } else if c == '+' {
        Some(TokenKind::Plus)
    } else if c == '-' {
        Some(TokenKind::Minus)
    } else if c == '*' {
        Some(TokenKind::Asterisk)
    } else if c == '/' {
        Some(TokenKind::Slash)
    } else if c == '=' {
        Some(TokenKind::Equal)
    } else if c == '<' {
        Some(TokenKind::LessThan)
    } else if c == '>' {
        Some(TokenKind::GreaterThan)
    } else {
        None
    }
}

/// What the lexer yields at offset `pos` of `src`: the next token, or the
/// location of a lexical error. Whitespace is skipped first; the end of the
/// source (or an embedded NUL) yields an infinitely repeatable end-of-file
/// token.
pub open spec fn lex_front(src: Seq<char>, pos: int) -> Result<TokenView, LocView> {
    let j = skip_ws(src, pos);
    let start = loc_at(src, j);
    if j >= src.len() || src[j] == '\0' {
        Ok(TokenView { kind: TokenKind::EndOfFile, loc: start, length: 0, data: TokenDataView::NoData })
    } else if is_digit(src[j]) {
        let (base, k0) = int_base(src, j);
        match scan_int(src, k0, base, 0) {
            Ok((value, end)) => Ok(
                TokenView {
                    kind: TokenKind::Integer,
                    loc: start,
                    length: end - j,
                    data: TokenDataView::IntData(value),
                },
            ),
            Err(p) => Err(loc_at(src, p)),
        }
    } else if is_name_start(src[j]) {
        let end = run_end(src, j);
        let text = src.subrange(j, end);
        match keyword_kind(text) {
            Some(kind) => Ok(
                TokenView { kind, loc: start, length: end - j, data: TokenDataView::NoData },
            ),
            None => Ok(
                TokenView {
                    kind: TokenKind::Name,
                    loc: start,
                    length: end - j,
                    data: TokenDataView::StrData(text),
                },
            ),
        }
    } else if j + 1 < src.len() && double_kind(src[j], src[j + 1]) is Some {
        Ok(
            TokenView {
                kind: double_kind(src[j], src[j + 1])->0,
                loc: start,
                length: 2,
                data: TokenDataView::NoData,
            },
        )
    } else if single_kind(src[j]) is Some {
        Ok(
            TokenView {
                kind: single_kind(src[j])->0,
                loc: start,
                length: 1,
                data: TokenDataView::NoData,
            },
        )
    } else {
        Err(start)
    }
}


/// Every token the lexer yields is well formed: payloads match kinds and
/// span arithmetic stays within `usize`.
pub proof fn lemma_lex_front_wf(src: Seq<char>, pos: int)
    requires
        0 <= pos <= src.len(),
        src.len() < usize::MAX,
    ensures
        lex_front(src, pos) matches Ok(tv) ==> crate::token::token_wf(tv),
{
    lemma_skip_ws(src, pos);
    let j = skip_ws(src, pos);
    lemma_line_col_bounds(src, j);
    if lex_front(src, pos) is Ok {
        let tv = lex_front(src, pos)->Ok_0;
        if j >= src.len() || src[j] == '\0' {
        } else if is_digit(src[j]) {
            let (base, k0) = int_base(src, j);
            lemma_scan_int(src, k0, base, 0);
        } else if is_name_start(src[j]) {
            lemma_run_end(src, j);
        } else {
        }
    }
}

/// Every token from offset `pos` on, in order, up to end of file or the
/// first lexical error.
pub open spec fn lex_stream(src: Seq<char>, pos: int) -> Seq<TokenView>
    decreases src.len() - pos,
    when 0 <= pos <= src.len()
{
    match lex_front(src, pos) {
        Ok(tv) => {
            if tv.kind == TokenKind::EndOfFile {
                Seq::empty()
            } else {
                proof {
                    lemma_lex_front_token(src, pos);
                }
                seq![tv] + lex_stream(src, tv.loc.pos + tv.length)
            }
        },
        Err(_) => Seq::empty(),
    }
}

// ------------------------------------------------------------------
// The lexer state
// ------------------------------------------------------------------

/// The lexer: the decoded source text and the cursor into it.
#[derive(Debug)]
pub struct Lexer {
    pub source: Vec<char>,
    pub location: SourceLocation,
}

impl Clone for Lexer {
    fn clone(&self) -> (r: Lexer)
        ensures
            r.source@ == self.source@,
            r.location == self.location,
    {
        let r = Lexer { source: self.source.clone(), location: self.location.clone() };
        proof {
            assert(r.source@ =~= self.source@);
        }
        r
    }
}

impl Lexer {
    /// Build a lexer at the start of `source`. The source must leave room
    /// for one-past-the-end positions.
    pub fn new(filepath: String, source: &str) -> (l: Lexer)
        requires
            source@.len() < usize::MAX,
        ensures
            l.wf(),
            l.source@ == source@,
            l.location.position == 0,
            l.location.line == 1,
            l.location.column == 1,
            l.path() == filepath@,
    {
        let n = source.unicode_len();
        let mut chars: Vec<char> = Vec::new();
        let mut i: usize = 0;
        while i < n
            invariant
                n == source@.len(),
                i <= n,
                chars@ =~= source@.subrange(0, i as int),
            decreases n - i,
        {
            chars.push(source.get_char(i));
            i += 1;
        }
        proof {
            assert(chars@ =~= source@);
        }
        Lexer {
            source: chars,
            location: SourceLocation { filepath, position: 0, line: 1, column: 1 },
        }
    }

    /// The character under the cursor, or NUL at the end of the source.
    fn peek_char(self: &Lexer) -> (c: char)
        ensures
            c == if self.location.position < self.source@.len() {
                self.source@[self.location.position as int]
            } else {
                '\0'
            },
    {
        if self.location.position < self.source.len() {
            self.source[self.location.position]
        } else {
            '\0'
        }
    }

    /// Consume the character under the cursor, keeping line and column
    /// numbering consistent.
    fn next_char(self: &mut Lexer) -> (c: char)
        requires
            old(self).wf(),
            old(self).location.position < old(self).source@.len(),
        ensures
            final(self).wf(),
            final(self).source@ == old(self).source@,
            final(self).location.filepath == old(self).location.filepath,
            final(self).location.position == old(self).location.position + 1,
            c == old(self).source@[old(self).location.position as int],
    {
        proof {
            lemma_line_col_bounds(self.source@, self.location.position as int);
        }
        let chr = self.peek_char();
        self.location.position += 1;
        self.location.column += 1;
        if chr == '\n' {
            self.location.line += 1;
            self.location.column = 1;
        }
        chr
    }
}

/// Whitespace test.
fn is_space_c(c: char) -> (b: bool)
    ensures
        b == is_space(c),
{
    c == ' ' || c == '\t' || c == '\n' || c == '\r'
}

/// Decimal digit test.
fn is_digit_c(c: char) -> (b: bool)
    ensures
        b == is_digit(c),
{
    let u = c as u32;
    u >= '0' as u32 && u <= '9' as u32
}

/// Identifier start test.
fn is_name_start_c(c: char) -> (b: bool)
    ensures
        b == is_name_start(c),
{
    let u = c as u32;
    (u >= 'A' as u32 && u <= 'Z' as u32) || (u >= 'a' as u32 && u <= 'z' as u32) || c == '_'
}

/// Identifier continuation test.
fn is_run_char_c(c: char) -> (b: bool)
    ensures
        b == is_run_char(c),
{
    is_digit_c(c) || is_name_start_c(c)
}

/// The digit value of an identifier character other than an underscore.
fn digit_val_c(c: char) -> (v: isize)
    requires
        is_run_char(c),
        c != '_',
    ensures
        v as int == digit_val(c),
        0 <= v <= 35,
{
    let u = c as u32;
    if u >= '0' as u32 && u <= '9' as u32 {
        (u - '0' as u32) as isize
    } else if u >= 'A' as u32 && u <= 'Z' as u32 {
        (u - 'A' as u32 + 10) as isize
    } else {
        (u - 'a' as u32 + 10) as isize
    }
}

/// Look an identifier up in the keyword table.
fn keyword_lookup(name: &String) -> (r: Option<TokenKind>)
    ensures
        r == keyword_kind(name@),
{
    if str_is(name, "print") {
        Some(TokenKind::Print)
    } else if str_is(name, "if") {
        Some(TokenKind::If)
    } else if str_is(name, "else") {
        Some(TokenKind::Else)
    } else if str_is(name, "while") {
        Some(TokenKind::While)
    } else if str_is(name, "dup") {
        Some(TokenKind::Dup)
    } else if str_is(name, "drop") {
        Some(TokenKind::Drop)
    } else if str_is(name, "swap") {
        Some(TokenKind::Swap)
    } else if str_is(name, "memory") {
        Some(TokenKind::Memory)
    } else if str_is(name, "proc") {
        Some(TokenKind::Proc)
    } else if str_is(name, "call") {
        Some(TokenKind::Call)
    } else {
        None
    }
}

impl Lexer {
    /// Skip whitespace and scan one token, reporting how the cursor moved.
    pub fn scan_token(&mut self) -> (r: Result<Token, Error>)
        requires
            old(self).wf(),
        ensures
            final(self).wf(),
            final(self).source@ == old(self).source@,
            final(self).location.filepath == old(self).location.filepath,
            match r {
                Ok(t) => {
                    &&& lex_front(old(self).source@, old(self).location.position as int)
                        == Ok::<TokenView, LocView>(token_view(t))
                    &&& t.location.filepath == old(self).location.filepath
                    &&& final(self).location.position == t.location.position + t.length
                    &&& t.location.position + t.length <= old(self).source@.len()
                    &&& old(self).location.position <= t.location.position
                    &&& (t.kind != TokenKind::EndOfFile ==> t.length >= 1)
                },
                Err(e) => {
                    &&& lex_front(old(self).source@, old(self).location.position as int)
                        == Err::<TokenView, LocView>(loc_view(e.location))
                    &&& e.location.filepath == old(self).location.filepath
                    &&& final(self).location.position >= old(self).location.position
                },
            },
    {
        let ghost src = self.source@;
        let ghost pos0 = self.location.position as int;
        let ghost fp = self.location.filepath;
        proof {
            lemma_skip_ws(src, pos0);
        }
        // Skip whitespace.
        loop
            invariant
                self.wf(),
                self.source@ == src,
                self.location.filepath == fp,
                src == old(self).source@,
                fp == old(self).location.filepath,
                pos0 == old(self).location.position as int,
                0 <= pos0 <= src.len(),
                pos0 <= self.location.position <= skip_ws(src, pos0),
                skip_ws(src, pos0) == skip_ws(src, self.location.position as int),
            ensures
                self.wf(),
                self.source@ == src,
                self.location.filepath == fp,
                src == old(self).source@,
                fp == old(self).location.filepath,
                pos0 == old(self).location.position as int,
                0 <= pos0 <= src.len(),
                self.location.position == skip_ws(src, pos0),
            decreases src.len() - self.location.position,
        {
            let c = self.peek_char();
            if is_space_c(c) {
                proof {
                    lemma_skip_ws(src, self.location.position as int + 1);
                }
                self.next_char();
            } else {
                break;
            }
        }
        let start_location = self.location.clone();
        let ghost j = self.location.position as int;
        proof {
            assert(loc_view(start_location) == loc_at(src, j));
        }
        let c = self.peek_char();
        if c == '\0' {
            // End of the source (or an embedded NUL): an end-of-file token.
            return Ok(
                Token {
                    kind: TokenKind::EndOfFile,
                    location: start_location,
                    length: 0,
                    data: TokenData::NoData,
                },
            );
        }
        if is_digit_c(c) {
            // Integer literal, with an optional base prefix.
            let ghost sbase = int_base(src, j).0;
            let ghost k0 = int_base(src, j).1;
            let base: isize;
            if c == '0' {
                self.next_char();
                let p = self.peek_char();
                if p == 'b' {
                    self.next_char();
                    base = 2;
                } else if p == 'o' {
                    self.next_char();
                    base = 8;
                } else if p == 'd' {
                    self.next_char();
                    base = 10;
                } else if p == 'x' {
                    self.next_char();
                    base = 16;
                } else {
                    base = 10;
                    proof {
                        // A lone leading zero contributes the value 0.
                        assert(scan_int(src, j, 10, 0) == scan_int(src, j + 1, 10, 0));
                    }
                }
            } else {
                base = 10;
            }
            proof {
                assert(base as int == sbase);
                assert(scan_int(src, k0, sbase, 0) == scan_int(
                    src,
                    self.location.position as int,
                    sbase,
                    0,
                ));
            }
            let mut int_value: isize = 0;
            loop
                invariant
                    self.wf(),
                    self.source@ == src,
                    self.location.filepath == fp,
                    src == old(self).source@,
                    fp == old(self).location.filepath,
                    pos0 == old(self).location.position as int,
                    0 <= pos0 <= src.len(),
                    pos0 <= j,
                    j == skip_ws(src, pos0),
                    j < src.len() && is_digit(src[j]),
                    int_base(src, j) == (sbase, k0),
                    0 <= k0 <= src.len(),
                    loc_view(start_location) == loc_at(src, j),
                    start_location.filepath == fp,
                    j <= self.location.position,
                    0 <= int_value,
                    base as int == sbase,
                    self.location.position as int == j ==> is_digit(src[j]) && sbase == 10,
                    scan_int(src, k0, sbase, 0) == scan_int(
                        src,
                        self.location.position as int,
                        sbase,
                        int_value as int,
                    ),
                ensures
                    self.wf(),
                    self.source@ == src,
                    self.location.filepath == fp,
                    j < self.location.position,
                    scan_int(src, k0, sbase, 0) == Ok::<(int, int), int>(
                        (int_value as int, self.location.position as int),
                    ),
                decreases src.len() - self.location.position,
            {
                let chr = self.peek_char();
                if is_run_char_c(chr) {
                    if chr == '_' {
                        self.next_char();
                    } else {
                        let v = digit_val_c(chr);
                        if v >= base {
                            proof {
                                assert(scan_int(src, k0, sbase, 0) == Err::<(int, int), int>(
                                    self.location.position as int,
                                ));
                                assert(lex_front(src, pos0) == Err::<TokenView, LocView>(
                                    loc_at(src, self.location.position as int),
                                ));
                            }
                            return Err(
                                Error {
                                    location: self.location.clone(),
                                    message: "digit too big for its base".to_owned(),
                                },
                            );
                        }
                        match int_value.checked_mul(base) {
                            Some(m) => match m.checked_add(v) {
                                Some(nv) => {
                                    int_value = nv;
                                    self.next_char();
                                },
                                None => {
                                    return Err(
                                        Error {
                                            location: self.location.clone(),
                                            message: "integer literal too large".to_owned(),
                                        },
                                    );
                                },
                            },
                            None => {
                                return Err(
                                    Error {
                                        location: self.location.clone(),
                                        message: "integer literal too large".to_owned(),
                                    },
                                );
                            },
                        }
                    }
                } else {
                    break;
                }
            }
            let length = self.location.position - start_location.position;
            return Ok(
                Token {
                    kind: TokenKind::Integer,
                    location: start_location,
                    length,
                    data: TokenData::IntValue(int_value),
                },
            );
        }
        if is_name_start_c(c) {
            // Identifier or keyword.
            proof {
                lemma_run_end(src, j);
            }
            let mut name = String::new();
            loop
                invariant
                    self.wf(),
                    self.source@ == src,
                    self.location.filepath == fp,
                    src == old(self).source@,
                    fp == old(self).location.filepath,
                    pos0 == old(self).location.position as int,
                    0 <= pos0 <= src.len(),
                    pos0 <= j,
                    j == skip_ws(src, pos0),
                    j < src.len() && is_name_start(src[j]),
                    loc_view(start_location) == loc_at(src, j),
                    start_location.filepath == fp,
                    j <= self.location.position <= src.len(),
                    name@ =~= src.subrange(j, self.location.position as int),
                    run_end(src, j) == run_end(src, self.location.position as int),
                ensures
                    self.wf(),
                    self.source@ == src,
                    self.location.filepath == fp,
                    self.location.position == run_end(src, j),
                    name@ == src.subrange(j, run_end(src, j)),
                decreases src.len() - self.location.position,
            {
                let chr = self.peek_char();
                if is_run_char_c(chr) {
                    let ch = self.next_char();
                    push_char(&mut name, ch);
                    proof {
                        assert(name@ =~= src.subrange(j, self.location.position as int));
                    }
                } else {
                    break;
                }
            }
            let length = self.location.position - start_location.position;
            let kw = keyword_lookup(&name);
            return match kw {
                Some(kind) => Ok(
                    Token { kind, location: start_location, length, data: TokenData::NoData },
                ),
                None => Ok(
                    Token {
                        kind: TokenKind::Name,
                        location: start_location,
                        length,
                        data: TokenData::Str(name),
                    },
                ),
            };
        }
        // Operator or punctuation: try the two-character forms first.
        let chr = self.next_char();
        let p = self.peek_char();
        let double: Option<TokenKind> = if chr == '<' && p == '=' {
            Some(TokenKind::LessThanEqual)
        } else if chr == '>' && p == '=' {
            Some(TokenKind::GreaterThanEqual)
        } else if chr == '-' && p == '>' {
            Some(TokenKind::RightArrow)
        } else if chr == '!' && p == '=' {
            Some(TokenKind::NotEqual)
        } else {
            None
        };
        if let Some(kind) = double {
            self.next_char();
            return Ok(
                Token { kind, location: start_location, length: 2, data: TokenData::NoData },
            );
        }
        let single: Option<TokenKind> = if chr == '(' {
            Some(TokenKind::OpenParenthesis)
        } else if chr == ')' {
            Some(TokenKind::CloseParenthesis)
        } else if chr == '{' {
            Some(TokenKind::OpenBrace)
        } else if chr == '}' {
            Some(TokenKind::CloseBrace)
        } else if chr == '!' {
            Some(TokenKind::Not)
        } else if chr == '+' {
            Some(TokenKind::Plus)
        } else if chr == '-' {
            Some(TokenKind::Minus)
        } else if chr == '*' {
            Some(TokenKind::Asterisk)
        } else if chr == '/' {
            Some(TokenKind::Slash)
        } else if chr == '=' {
            Some(TokenKind::Equal)
        } else if chr == '<' {
            Some(TokenKind::LessThan)
        } else if chr == '>' {
            Some(TokenKind::GreaterThan)
        } else {
            None
        };
        match single {
            Some(kind) => Ok(
                Token { kind, location: start_location, length: 1, data: TokenData::NoData },
            ),
            None => Err(
                Error { location: start_location, message: "unknown character".to_owned() },
            ),
        }
    }
}

impl Tokenizer for Lexer {
    /// The cursor is inside the source and its line/column fields agree with
    /// the numbering of the text before it.
    open spec fn wf(&self) -> bool {
        &&& self.location.position <= self.source@.len()
        &&& self.source@.len() < usize::MAX
        &&& self.location.line == line_of(self.source@, self.location.position as int)
        &&& self.location.column == col_of(self.source@, self.location.position as int)
    }

    open spec fn measure(&self) -> nat {
        if self.location.position <= self.source@.len() {
            (self.source@.len() - self.location.position) as nat
        } else {
            0
        }
    }

    open spec fn path(&self) -> Seq<char> {
        self.location.filepath@
    }

    open spec fn front(&self) -> Result<TokenView, LocView> {
        lex_front(self.source@, self.location.position as int)
    }

    open spec fn stream(&self) -> Seq<TokenView> {
        lex_stream(self.source@, self.location.position as int)
    }

    fn next_token(&mut self) -> (r: Result<Token, Error>) {
        let ghost src = self.source@;
        let ghost p0 = self.location.position as int;
        proof {
            lemma_skip_ws(src, p0);
            lemma_lex_front_wf(src, p0);
        }
        let r = self.scan_token();
        proof {
            match r {
                Ok(ref t) => {
                    if t.kind == TokenKind::EndOfFile {
                        assert(skip_ws(src, skip_ws(src, p0)) == skip_ws(src, p0));
                        assert(lex_front(src, self.location.position as int) == lex_front(
                            src,
                            p0,
                        ));
                        assert(lex_stream(src, p0) =~= Seq::<TokenView>::empty());
                        assert(lex_stream(src, self.location.position as int) =~= Seq::<
                            TokenView,
                        >::empty());
                        assert(old(self).stream() == Seq::<TokenView>::empty());
                        assert(self.stream() == Seq::<TokenView>::empty());
                    } else {
                        assert(lex_stream(src, p0) == seq![token_view(*t)] + lex_stream(
                            src,
                            self.location.position as int,
                        ));
                        assert(old(self).stream() == seq![token_view(*t)] + self.stream());
                    }
                },
                Err(_) => {
                    assert(lex_stream(src, p0) =~= Seq::<TokenView>::empty());
                    assert(old(self).stream() == Seq::<TokenView>::empty());
                },
            }
        }
        r
    }

    fn peek_token(&self) -> (r: Result<Token, Error>) {
        proof {
            lemma_lex_front_wf(self.source@, self.location.position as int);
        }
        let mut lexer = self.clone();
        lexer.scan_token()
    }

    fn peek_kind(&self) -> (r: Result<TokenKind, Error>) {
        let mut lexer = self.clone();
        match lexer.scan_token() {
            Ok(t) => Ok(t.kind),
            Err(e) => Err(e),
        }
    }
}

// ------------------------------------------------------------------
// The round-trip law
// ------------------------------------------------------------------

/// A token at `pos` spans only non-whitespace, is preceded from `pos` by
/// whitespace alone, and lies within the source.
pub proof fn lemma_lex_front_token(src: Seq<char>, pos: int)
    requires
        0 <= pos <= src.len(),
        lex_front(src, pos) is Ok,
    ensures
        ({
            let tv = lex_front(src, pos)->Ok_0;
            &&& pos <= tv.loc.pos == skip_ws(src, pos)
            &&& tv.length >= 0
            &&& (tv.kind != TokenKind::EndOfFile ==> tv.length >= 1)
            &&& tv.loc.pos + tv.length <= src.len()
            &&& forall|k: int| pos <= k < tv.loc.pos ==> is_space(#[trigger] src[k])
            &&& forall|k: int|
                tv.loc.pos <= k < tv.loc.pos + tv.length ==> !is_space(#[trigger] src[k])
        }),
{
    lemma_skip_ws(src, pos);
    let j = skip_ws(src, pos);
    let tv = lex_front(src, pos)->Ok_0;
    if j >= src.len() || src[j] == '\0' {
    } else if is_digit(src[j]) {
        let (base, k0) = int_base(src, j);
        lemma_scan_int(src, k0, base, 0);
        if k0 == j {
            // The leading digit itself is consumed, so the literal is not
            // empty.
            match scan_int(src, j, base, 0) {
                Ok((v, e)) => {
                    assert(digit_val(src[j]) < 10);
                    lemma_scan_int(src, j + 1, base, digit_val(src[j]));
                    assert(e >= j + 1);
                },
                Err(_) => {
                },
            }
        }
        assert forall|k: int| tv.loc.pos <= k < tv.loc.pos + tv.length implies !is_space(
            #[trigger] src[k],
        ) by {
            if k < k0 {
                assert(src[k] == '0' || src[k] == 'b' || src[k] == 'o' || src[k] == 'd' || src[k]
                    == 'x');
            } else {
                assert(is_run_char(src[k]));
            }
        }
    } else if is_name_start(src[j]) {
        lemma_run_end(src, j);
        assert forall|k: int| tv.loc.pos <= k < tv.loc.pos + tv.length implies !is_space(
            #[trigger] src[k],
        ) by {
            assert(is_run_char(src[k]));
        }
    } else {
    }
}

/// The `i`th span follows the previous one with only whitespace between
/// them, holds no whitespace itself, and lies within the source.
pub open spec fn span_ok(src: Seq<char>, spans: Seq<(int, int)>, i: int) -> bool {
    let start = spans[i].0;
    let len = spans[i].1;
    let prev = if i == 0 {
        0int
    } else {
        spans[i - 1].0 + spans[i - 1].1
    };
    &&& prev <= start
    &&& len >= 0
    &&& start + len <= src.len()
    &&& (forall|k: int| prev <= k < start ==> is_space(#[trigger] src[k]))
    &&& (forall|k: int| start <= k < start + len ==> !is_space(#[trigger] src[k]))
}


/// A full scan tiles the source: if spans already tile it up to some point
/// and the lexer yields a token there, appending that token's span tiles it
/// further. Together with `lemma_token_spans_round_trip` this is the
/// round-trip law for the token stream `scan_token` produces.
pub proof fn lemma_tile_extend(src: Seq<char>, spans: Seq<(int, int)>, tv: TokenView)
    requires
        spans_tile(src, spans),
        0 <= spans_end(spans) <= src.len(),
        lex_front(src, spans_end(spans)) == Ok::<TokenView, LocView>(tv),
    ensures
        spans_tile(src, spans.push((tv.loc.pos, tv.length))),
        spans_end(spans.push((tv.loc.pos, tv.length))) == tv.loc.pos + tv.length,
{
    lemma_lex_front_token(src, spans_end(spans));
    let spans1 = spans.push((tv.loc.pos, tv.length));
    let n = spans.len() as int;
    assert forall|i: int| 0 <= i < spans1.len() implies #[trigger] span_ok(src, spans1, i) by {
        if i < n {
            assert(span_ok(src, spans, i));
            assert(spans1[i] == spans[i]);
            if i > 0 {
                assert(spans1[i - 1] == spans[i - 1]);
            }
        } else {
            if n > 0 {
                assert(spans1[n - 1] == spans[n - 1]);
            }
        }
    }
}

/// Token spans tile a source text: each span follows the previous one with
/// only whitespace between them, and holds no whitespace itself.
pub open spec fn spans_tile(src: Seq<char>, spans: Seq<(int, int)>) -> bool {
    forall|i: int| 0 <= i < spans.len() ==> #[trigger] span_ok(src, spans, i)
}

/// The source characters of one span.
pub open spec fn span_text(src: Seq<char>, sp: (int, int)) -> Seq<char> {
    src.subrange(sp.0, sp.0 + sp.1)
}

/// The concatenation of all spans' characters.
pub open spec fn concat_spans(src: Seq<char>, spans: Seq<(int, int)>) -> Seq<char>
    decreases spans.len(),
{
    if spans.len() == 0 {
        Seq::empty()
    } else {
        concat_spans(src, spans.drop_last()) + span_text(src, spans.last())
    }
}

/// One past the end of the last span.
pub open spec fn spans_end(spans: Seq<(int, int)>) -> int {
    if spans.len() == 0 {
        0
    } else {
        spans.last().0 + spans.last().1
    }
}

/// Filtering keeps a sequence that satisfies the predicate everywhere.
proof fn lemma_filter_of_all(s: Seq<char>, pred: spec_fn(char) -> bool)
    requires
        forall|i: int| 0 <= i < s.len() ==> pred(#[trigger] s[i]),
    ensures
        s.filter(pred) == s,
    decreases s.len(),
{
    reveal(Seq::filter);
    if s.len() > 0 {
        lemma_filter_of_all(s.drop_last(), pred);
        assert(s.drop_last().push(s.last()) =~= s);
    }
}

/// Filtering drops a sequence that fails the predicate everywhere.
proof fn lemma_filter_of_none(s: Seq<char>, pred: spec_fn(char) -> bool)
    requires
        forall|i: int| 0 <= i < s.len() ==> !pred(#[trigger] s[i]),
    ensures
        s.filter(pred) == Seq::<char>::empty(),
{
    assert(s.all(|x: char| !pred(x)));
    s.lemma_all_neg_filter_empty(pred);
    assert(s.filter(pred) =~= Seq::<char>::empty());
}

/// The concatenated spans equal the non-whitespace of the source up to the
/// last span's end.
#[verifier::rlimit(50)]
proof fn lemma_concat_spans_prefix(src: Seq<char>, spans: Seq<(int, int)>)
    requires
        spans_tile(src, spans),
    ensures
        0 <= spans_end(spans) <= src.len(),
        concat_spans(src, spans) == src.subrange(0, spans_end(spans)).filter(
            |c: char| !is_space(c),
        ),
    decreases spans.len(),
{
    let pred = |c: char| !is_space(c);
    if spans.len() == 0 {
        lemma_filter_of_none(src.subrange(0, 0), pred);
        assert(src.subrange(0, 0) =~= Seq::<char>::empty());
        assert(Seq::<char>::empty().filter(pred) =~= Seq::<char>::empty()) by {
            reveal(Seq::filter);
        }
    } else {
        let rest = spans.drop_last();
        let n = spans.len() - 1;
        assert(spans_tile(src, rest)) by {
            assert forall|i: int| 0 <= i < rest.len() implies #[trigger] span_ok(
                src,
                rest,
                i,
            ) by {
                assert(span_ok(src, spans, i));
                assert(rest[i] == spans[i]);
                if i > 0 {
                    assert(rest[i - 1] == spans[i - 1]);
                }
            }
        }
        lemma_concat_spans_prefix(src, rest);
        let e = spans_end(rest);
        assert(span_ok(src, spans, n));
        let start = spans[n].0;
        let len = spans[n].1;
        assert(spans[n] == spans.last());
        if n > 0 {
            assert(rest.last() == spans[n - 1]);
        }
        assert(0 <= e <= start);
        let gap = src.subrange(e, start);
        let body = src.subrange(start, start + len);
        assert forall|k: int| 0 <= k < gap.len() implies !pred(#[trigger] gap[k]) by {
            assert(gap[k] == src[e + k]);
        }
        assert forall|k: int| 0 <= k < body.len() implies pred(#[trigger] body[k]) by {
            assert(body[k] == src[start + k]);
        }
        lemma_filter_of_none(gap, pred);
        lemma_filter_of_all(body, pred);
        assert(src.subrange(0, start) =~= src.subrange(0, e) + gap);
        Seq::filter_distributes_over_add(src.subrange(0, e), gap, pred);
        assert(src.subrange(0, start + len) =~= src.subrange(0, start) + body);
        Seq::filter_distributes_over_add(src.subrange(0, start), body, pred);
        assert(src.subrange(0, start + len).filter(pred) =~= src.subrange(0, e).filter(pred)
            + body);
        assert(concat_spans(src, spans) == concat_spans(src, rest) + span_text(src, spans.last()));
    }
}

/// Tokenizer round trip: when token spans tile the source, with only
/// whitespace after the last one, concatenating the spans' text reproduces
/// the source with exactly the separating whitespace removed.
///
/// The spans come from a full scan: each `Ok` of `scan_token` yields the next
/// span (`lemma_lex_front_token` gives the tiling conditions), and a final
/// end-of-file token at the end of the source makes the trailing part
/// whitespace-free.
pub proof fn lemma_token_spans_round_trip(src: Seq<char>, spans: Seq<(int, int)>)
    requires
        spans_tile(src, spans),
        spans_end(spans) <= src.len(),
        forall|k: int| spans_end(spans) <= k < src.len() ==> is_space(#[trigger] src[k]),
    ensures
        concat_spans(src, spans) == src.filter(|c: char| !is_space(c)),
{
    let pred = |c: char| !is_space(c);
    lemma_concat_spans_prefix(src, spans);
    let e = spans_end(spans);
    let tail = src.subrange(e, src.len() as int);
    assert(src =~= src.subrange(0, e) + tail);
    Seq::filter_distributes_over_add(src.subrange(0, e), tail, pred);
    assert forall|i: int| 0 <= i < tail.len() implies !pred(#[trigger] tail[i]) by {
        assert(tail[i] == src[e + i]);
    }
    lemma_filter_of_none(tail, pred);
    assert(src.filter(pred) =~= src.subrange(0, e).filter(pred));
}


} // verus!
