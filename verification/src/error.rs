//! The unified error surface of the client: a transport failure or a
//! protocol parse failure, so callers can decide between reconnecting and
//! reporting a protocol mismatch.

use crate::parser::ParseError;
use vstd::prelude::*;

verus! {

/// `std::io::Error` carries the OS-level cause of a transport failure; it is
/// declared here so it can ride inside [`ErrorKind`]. Nothing is assumed of
/// its contents.
#[verifier::external_type_specification]
#[verifier::external_body]
pub struct ExIoError(std::io::Error);

/// The two causes a client call can fail for.
#[derive(Debug)]
pub enum ErrorKind {
    /// The underlying stream failed to connect, write or read.
    IO(std::io::Error),
    /// The response line did not follow the wire grammar.
    Parse(ParseError),
}

/// The error type every client call surfaces, terminal for that call.
#[derive(Debug)]
pub struct TamariError {
    kind: ErrorKind,
}

impl TamariError {
    /// The cause this error wraps.
    pub closed spec fn spec_kind(&self) -> ErrorKind {
        self.kind
    }

    /// The cause of this error, for callers to match on.
    pub fn kind(&self) -> (r: &ErrorKind)
        ensures
            *r == self.spec_kind(),
    {
        &self.kind
    }

    /// Wrap a cause as the unified client error.
    pub fn new(e: ErrorKind) -> (r: TamariError)
        ensures
            r.spec_kind() == e,
    {
        TamariError { kind: e }
    }
}

} // verus!
