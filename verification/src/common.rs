//! Source locations and the error value shared by every pipeline stage.

use vstd::prelude::*;

verus! {

/// A position in the source text: byte-free character offset, line and column
/// (both starting at 1), together with the path the text was loaded from.
/// Attached to every token and every op for diagnostics.
#[derive(Debug)]
pub struct SourceLocation {
    pub filepath: String,
    pub position: usize,
    pub line: usize,
    pub column: usize,
}

impl Clone for SourceLocation {
    fn clone(&self) -> (r: SourceLocation)
        ensures
            r == *self,
    {
        SourceLocation {
            filepath: self.filepath.clone(),
            position: self.position,
            line: self.line,
            column: self.column,
        }
    }
}

/// The ghost image of a `SourceLocation` within one source text: the fields
/// that contracts speak about (the filepath is carried separately).
pub ghost struct LocView {
    pub pos: int,
    pub line: int,
    pub col: int,
}

/// The ghost image of `l`'s position fields.
pub open spec fn loc_view(l: SourceLocation) -> LocView {
    LocView { pos: l.position as int, line: l.line as int, col: l.column as int }
}

/// A fatal diagnostic: every stage aborts on its first error and hands this
/// pair to the caller. Contracts pin the location; the message is free text.
/// A few faults have no source position to point at (a budget that ran out,
/// control flow leaving the program): those carry the all-zero sentinel
/// location with an empty filepath.
#[derive(Debug)]
pub struct Error {
    pub location: SourceLocation,
    pub message: String,
}

impl Clone for Error {
    fn clone(&self) -> (r: Error)
        ensures
            r == *self,
    {
        Error { location: self.location.clone(), message: self.message.clone() }
    }
}

/// Compare a string against one fixed spelling.
pub fn str_is(name: &String, lit: &str) -> (b: bool)
    ensures
        b == (name@ == lit@),
{
    let s: String = lit.to_owned();
    name.eq(&s)
}

/// Relies on `String::push`: appends the given character to the end of the
/// string.
#[verifier::external_body]
pub fn push_char(s: &mut String, c: char)
    ensures
        final(s)@ == old(s)@.push(c),
{
    s.push(c)
}

} // verus!
