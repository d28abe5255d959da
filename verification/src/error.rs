//! The error type used across every subsystem.

use vstd::prelude::*;

verus! {

/// A fault raised by some subsystem.
///
/// These are all expected control-flow errors: malformed input, a violated
/// decode-time invariant, an unknown identifier.
#[derive(Debug)]
pub enum Error {
    /// The `.sht` blob could not be decoded.
    Decode(DecodeError),
    /// A cross-page invariant failed verification.
    Verify(VerifyError),
    /// A script statement could not be parsed or executed.
    Script(ScriptError),
    /// A request referenced something that does not exist.
    NotFound(String),
    /// A value did not match the expected column type.
    TypeMismatch { col: String, expected: String },
    /// A generic internal error with a message.
    Internal(String),
}

#[derive(Debug)]
pub enum DecodeError {
    Truncated,
    BadMagic,
    UnsupportedVersion(u32),
    BadChecksum { page: u32 },
    UnknownPageType(u8),
    BadDirectory,
    BadSchema,
    BadEncoding,
    Oversized,
}

#[derive(Debug)]
pub enum VerifyError {
    PageCountMismatch,
    SchemaDataMismatch,
    DictRange { page: u32 },
    IndexCoverage { page: u32 },
    FsmTotal,
    ZoneMapLiveness { page: u32 },
    RowIdBounds { row: u64 },
    OrphanPage { page: u32 },
    Other(String),
}

#[derive(Debug)]
pub enum ScriptError {
    Lex(String),
    Parse(String),
    UnknownStatement(String),
    Arity { stmt: String, got: usize },
    BadValue(String),
    EndOfInput,
}

impl From<DecodeError> for Error {
    fn from(e: DecodeError) -> (r: Self) {
        Error::Decode(e)
    }
}

impl vstd::std_specs::convert::FromSpecImpl<DecodeError> for Error {
    open spec fn obeys_from_spec() -> bool {
        true
    }

    open spec fn from_spec(e: DecodeError) -> Self {
        Error::Decode(e)
    }
}

impl From<VerifyError> for Error {
    fn from(e: VerifyError) -> (r: Self) {
        Error::Verify(e)
    }
}

impl vstd::std_specs::convert::FromSpecImpl<VerifyError> for Error {
    open spec fn obeys_from_spec() -> bool {
        true
    }

    open spec fn from_spec(e: VerifyError) -> Self {
        Error::Verify(e)
    }
}

impl From<ScriptError> for Error {
    fn from(e: ScriptError) -> (r: Self) {
        Error::Script(e)
    }
}

impl vstd::std_specs::convert::FromSpecImpl<ScriptError> for Error {
    open spec fn obeys_from_spec() -> bool {
        true
    }

    open spec fn from_spec(e: ScriptError) -> Self {
        Error::Script(e)
    }
}

/// The result type of the fallible operations.
pub type Result<T> = std::result::Result<T, Error>;

} // verus!
