//! What a failed operation reports.

use crate::error::{DecodeError, Error, ScriptError};
use crate::text;
use vstd::prelude::*;

verus! {

/// A reason for failure, as a plain value.
pub enum Fault {
    /// Stored bytes could not be read, or lengths do not fit the stored form.
    Decode(DecodeError),
    /// A page is not there.
    Vanished,
    /// There is no such column.
    NoColumn(nat),
    /// A column of this name holds no text.
    NotText(Seq<char>),
    /// A column has no dictionary mirror.
    NoMirror,
    /// A column has no index.
    NoIndex(nat),
    /// A column has no dictionary.
    NoDict(nat),
    /// A dictionary id stands for nothing.
    NoWord(nat),
    /// A statement was given this many values.
    Arity(Seq<char>, nat),
}

/// An error reports a fault.
pub open spec fn reports(e: Error, f: Fault) -> bool {
    match f {
        Fault::Decode(d) => e == Error::Decode(d),
        Fault::Vanished => e matches Error::Internal(s) && s@ == "page vanished"@,
        Fault::NoColumn(n) => e matches Error::NotFound(s) && s@ == "column "@ + text::digits(n),
        Fault::NotText(name) => e matches Error::TypeMismatch { col, expected } && col@ == name && expected@ == "text"@,
        Fault::NoMirror => e matches Error::Internal(s) && s@ == "missing dict mirror"@,
        Fault::NoIndex(n) => e matches Error::NotFound(s) && s@ == "no index on column "@ + text::digits(n),
        Fault::NoDict(n) => e matches Error::NotFound(s) && s@ == "no dict for column "@ + text::digits(n),
        Fault::NoWord(n) => e matches Error::NotFound(s) && s@ == "dict id "@ + text::digits(n),
        Fault::Arity(name, n) => e matches Error::Script(ScriptError::Arity { stmt, got }) && stmt@ == name && got == n,
    }
}

/// A text followed by a number.
pub fn numbered(prefix: &str, n: u64) -> (s: String)
    ensures
        s@ == prefix@ + text::digits(n as nat),
{
    let mut v = text::chars_of(prefix);
    text::push_number(&mut v, n as u128);
    text::string_of(&v)
}

pub fn oversized() -> (e: Error)
    ensures
        reports(e, Fault::Decode(DecodeError::Oversized)),
{
    Error::Decode(DecodeError::Oversized)
}

pub fn vanished() -> (e: Error)
    ensures
        reports(e, Fault::Vanished),
{
    Error::Internal("page vanished".to_owned())
}

pub fn no_column(n: usize) -> (e: Error)
    ensures
        reports(e, Fault::NoColumn(n as nat)),
{
    Error::NotFound(numbered("column ", n as u64))
}

pub fn not_text(name: &str) -> (e: Error)
    ensures
        reports(e, Fault::NotText(name@)),
{
    Error::TypeMismatch { col: name.to_owned(), expected: "text".to_owned() }
}

pub fn no_mirror() -> (e: Error)
    ensures
        reports(e, Fault::NoMirror),
{
    Error::Internal("missing dict mirror".to_owned())
}

pub fn no_index(n: usize) -> (e: Error)
    ensures
        reports(e, Fault::NoIndex(n as nat)),
{
    Error::NotFound(numbered("no index on column ", n as u64))
}

pub fn no_dict(n: usize) -> (e: Error)
    ensures
        reports(e, Fault::NoDict(n as nat)),
{
    Error::NotFound(numbered("no dict for column ", n as u64))
}

pub fn no_word(n: u32) -> (e: Error)
    ensures
        reports(e, Fault::NoWord(n as nat)),
{
    Error::NotFound(numbered("dict id ", n as u64))
}

pub fn arity(stmt: &str, got: usize) -> (e: Error)
    ensures
        reports(e, Fault::Arity(stmt@, got as nat)),
{
    Error::Script(ScriptError::Arity { stmt: stmt.to_owned(), got })
}

} // verus!
