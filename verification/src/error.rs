//! Errors of the codec and of the reader.

use core::str::Utf8Error;
use vstd::prelude::*;
use vstd::std_specs::convert::FromSpecImpl;

verus! {

/// Why a read from a byte cursor failed.
#[derive(Debug, Clone, Copy, PartialEq, Eq, Structural)]
pub enum CursorError {
    /// The bytes ran out before the item was complete.
    Underflow,
    /// A numeral line does not denote a value of the type asked for.
    OutOfRange,
}

/// The error value that `core::str::from_utf8` returns. It is carried through
/// unopened: nothing here depends on what it holds.
#[verifier::external_type_specification]
#[verifier::external_body]
pub struct ExUtf8Error(Utf8Error);

/// Why a byte sequence is not a frame.
#[derive(Debug, PartialEq)]
pub enum ParseError {
    /// A read from the cursor failed.
    Cursor(CursorError),
    /// The byte where a frame starts is none of the five type tags.
    FrameType(u8),
    /// A text line is not valid UTF-8.
    Utf8(Utf8Error),
    /// What was declared is not what is there: a bulk string is not followed
    /// by CR LF after as many bytes as it declared, or an array holds fewer
    /// frames than it declared because one of them is refused. The number is
    /// the declared length or count.
    SizeMismatch(u64),
}

/// A `ParseError` without what only the running program holds: the detail of
/// a UTF-8 failure.
pub enum ParseFailure {
    Cursor(CursorError),
    FrameType(u8),
    Utf8,
    SizeMismatch(u64),
}

impl View for ParseError {
    type V = ParseFailure;

    open spec fn view(&self) -> ParseFailure {
        match self {
            ParseError::Cursor(e) => ParseFailure::Cursor(*e),
            ParseError::FrameType(b) => ParseFailure::FrameType(*b),
            ParseError::Utf8(_) => ParseFailure::Utf8,
            ParseError::SizeMismatch(n) => ParseFailure::SizeMismatch(*n),
        }
    }
}

impl ParseFailure {
    /// The input ended before the frame did: more bytes may complete it.
    pub open spec fn is_incomplete(self) -> bool {
        self == ParseFailure::Cursor(CursorError::Underflow)
    }
}

/// What the reader needs to know of a failed read or write on a byte stream.
#[derive(Debug, Clone, Copy, PartialEq, Eq, Structural)]
pub enum IoFailure {
    /// Nothing is there yet; a later attempt may succeed.
    WouldBlock,
    /// The stream is exhausted: it will give or take no more bytes.
    WriteZero,
    /// Any other failure.
    Other,
}

/// Why the reader has no frame to give.
#[derive(Debug)]
pub enum ReadError {
    /// The buffered bytes are no frame, and more bytes cannot make them one.
    Parse(ParseError),
    /// The stream failed, or no whole frame has arrived yet (`WouldBlock`).
    Io(IoFailure),
}

impl From<CursorError> for ParseError {
    fn from(err: CursorError) -> (e: ParseError) {
        ParseError::Cursor(err)
    }
}

impl FromSpecImpl<CursorError> for ParseError {
    open spec fn obeys_from_spec() -> bool {
        true
    }

    open spec fn from_spec(err: CursorError) -> ParseError {
        ParseError::Cursor(err)
    }
}

impl From<Utf8Error> for ParseError {
    fn from(err: Utf8Error) -> (e: ParseError) {
        ParseError::Utf8(err)
    }
}

impl FromSpecImpl<Utf8Error> for ParseError {
    open spec fn obeys_from_spec() -> bool {
        true
    }

    open spec fn from_spec(err: Utf8Error) -> ParseError {
        ParseError::Utf8(err)
    }
}

impl From<u64> for ParseError {
    fn from(err: u64) -> (e: ParseError) {
        ParseError::SizeMismatch(err)
    }
}

impl FromSpecImpl<u64> for ParseError {
    open spec fn obeys_from_spec() -> bool {
        true
    }

    open spec fn from_spec(err: u64) -> ParseError {
        ParseError::SizeMismatch(err)
    }
}

impl From<u8> for ParseError {
    fn from(err: u8) -> (e: ParseError) {
        ParseError::FrameType(err)
    }
}

impl FromSpecImpl<u8> for ParseError {
    open spec fn obeys_from_spec() -> bool {
        true
    }

    open spec fn from_spec(err: u8) -> ParseError {
        ParseError::FrameType(err)
    }
}

impl From<ParseError> for ReadError {
    fn from(err: ParseError) -> (e: ReadError) {
        ReadError::Parse(err)
    }
}

impl FromSpecImpl<ParseError> for ReadError {
    open spec fn obeys_from_spec() -> bool {
        true
    }

    open spec fn from_spec(err: ParseError) -> ReadError {
        ReadError::Parse(err)
    }
}

impl From<IoFailure> for ReadError {
    fn from(err: IoFailure) -> (e: ReadError) {
        ReadError::Io(err)
    }
}

impl FromSpecImpl<IoFailure> for ReadError {
    open spec fn obeys_from_spec() -> bool {
        true
    }

    open spec fn from_spec(err: IoFailure) -> ReadError {
        ReadError::Io(err)
    }
}

} // verus!
