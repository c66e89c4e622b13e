//! Error values returned by the lexer, the parser, the registry and the
//! codec.  Every failure is a returned value; no operation panics or aborts
//! on malformed input.

use vstd::prelude::*;

verus! {

/// The category of a failure.  Contracts throughout the crate pin down the
/// kind of the error that an operation returns; the message is descriptive
/// text for debugging.
#[derive(Clone, Copy, PartialEq, Eq, Structural, Debug)]
pub enum ErrorKind {
    /// The source text contains an invalid token or number literal.
    Lex,
    /// The token stream does not match the type-definition grammar.
    Parse,
    /// A type reference cannot be resolved: unknown name or index, generic
    /// parameter-count mismatch, or an alias cycle.
    Resolution,
    /// A dynamic value does not fit the expected type shape.
    TypeMismatch,
    /// Decoding requires more bytes than remain in the buffer.
    BufferUnderrun,
    /// Encoding or decoding gave up at the configured nesting limit.
    DepthLimit,
}

/// A descriptive error: a kind plus a human-readable message.
#[derive(Debug)]
pub struct Error {
    pub kind: ErrorKind,
    pub message: String,
}

impl Error {
    pub fn new(kind: ErrorKind, message: String) -> (r: Error)
        ensures
            r.kind == kind,
            r.message == message,
    {
        Error { kind, message }
    }

    pub fn from_text(kind: ErrorKind, message: &str) -> (r: Error)
        ensures
            r.kind == kind,
    {
        Error { kind, message: message.to_owned() }
    }
}

} // verus!
