use vstd::prelude::*;

verus! {

/// Errors that can occur while encoding, decoding, or transporting Easycom frames.
#[non_exhaustive]
#[derive(Debug, PartialEq, Eq)]
pub enum Error<E> {
    /// An I/O error from the underlying transport.
    Transport(E),
    /// The received frame could not be parsed.
    Parse(ParseError),
    /// The operation timed out waiting for a response.
    Timeout,
    /// A command parameter is out of its valid range.
    InvalidParam(&'static str),
}

/// Specific parse failures when decoding a response frame.
#[derive(Debug, PartialEq, Eq, Clone, Copy)]
pub enum ParseError {
    /// Input ended before a complete frame was received.
    UnexpectedEof,
    /// A field that was expected to be ASCII/UTF-8 was not.
    InvalidUtf8,
    /// The command letter in a frame was not recognised.
    UnknownCommand,
    /// The optional XOR checksum did not match the payload.
    BadChecksum,
}

/// The human-readable description of each parse failure.
pub open spec fn parse_error_text(e: ParseError) -> Seq<char> {
    match e {
        ParseError::UnexpectedEof => "unexpected end of input"@,
        ParseError::InvalidUtf8 => "invalid UTF-8 in frame"@,
        ParseError::UnknownCommand => "unknown command letter"@,
        ParseError::BadChecksum => "checksum mismatch"@,
    }
}

impl ParseError {
    /// The human-readable description of this failure, as displayed.
    pub fn message(&self) -> (s: &'static str)
        ensures
            s@ == parse_error_text(*self),
    {
        match self {
            ParseError::UnexpectedEof => "unexpected end of input",
            ParseError::InvalidUtf8 => "invalid UTF-8 in frame",
            ParseError::UnknownCommand => "unknown command letter",
            ParseError::BadChecksum => "checksum mismatch",
        }
    }
}

} // verus!
