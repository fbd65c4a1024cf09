//! Shared failure vocabulary of the codec.

use vstd::prelude::*;

verus! {

/// The failure kinds the codec can report.
///
/// `NoOutputSpaceForHeader` and `NoOutputSpaceForEndByte` are part of the
/// vocabulary but are not produced by this implementation: running out of
/// room while writing the header or the trailing terminator is reported as
/// the generic `BufferFull`, with offset 0.
#[derive(Debug, Clone, Copy, PartialEq, Eq, Structural)]
pub enum Error {
    /// The encoder does not have enough space to write the frame header.
    NoOutputSpaceForHeader,
    /// The encoder does not have enough space to write the final end byte.
    NoOutputSpaceForEndByte,
    /// The decoder cannot process the frame header.
    BadHeaderDecode,
    /// The decoder cannot process the escape sequence.
    BadEscapeSequenceDecode,
    /// The buffer is full.
    BufferFull,
}

/// A failure kind paired with the offset into the triggering call's input
/// at which it occurred; 0 when the failure precedes consuming any byte.
#[derive(Debug, Clone, Copy, PartialEq, Eq, Structural)]
pub struct BufferError {
    pub pos: usize,
    pub code: Error,
}

/// Shorthand for results whose error carries an input offset.
pub type BufferResult<T> = core::result::Result<T, BufferError>;

/// The short description that belongs to each failure kind.
pub open spec fn error_message(e: Error) -> Seq<char> {
    match e {
        Error::NoOutputSpaceForHeader => "insufficient space in output buffer for header"@,
        Error::NoOutputSpaceForEndByte => "insufficient space in output buffer for end byte"@,
        Error::BadHeaderDecode => "malformed header"@,
        Error::BadEscapeSequenceDecode => "malformed escape sequence"@,
        Error::BufferFull => "buffer full"@,
    }
}

impl Error {
    /// A short human-readable description of the failure.
    pub fn message(&self) -> (r: &'static str)
        ensures
            r@ == error_message(*self),
    {
        match self {
            Error::NoOutputSpaceForHeader => "insufficient space in output buffer for header",
            Error::NoOutputSpaceForEndByte => "insufficient space in output buffer for end byte",
            Error::BadHeaderDecode => "malformed header",
            Error::BadEscapeSequenceDecode => "malformed escape sequence",
            Error::BufferFull => "buffer full",
        }
    }
}

impl From<Error> for BufferError {
    fn from(code: Error) -> (r: BufferError) {
        BufferError { pos: 0, code }
    }
}

impl vstd::std_specs::convert::FromSpecImpl<Error> for BufferError {
    open spec fn obeys_from_spec() -> bool {
        true
    }

    open spec fn from_spec(code: Error) -> BufferError {
        BufferError { pos: 0, code }
    }
}

} // verus!
