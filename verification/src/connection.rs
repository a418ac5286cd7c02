//! The transport capability the codec and client are layered over.

use crate::error::TamariError;
use vstd::prelude::*;

verus! {

/// A byte-stream transport: write raw bytes, read one newline-terminated
/// line of raw bytes.
///
/// Implementations live outside the verified core (a TCP stream, a
/// diagnostic stand-in that never touches a network, test doubles). The
/// client assumes nothing of what an implementation returns: its own
/// guarantees are proved for every possible outcome of these calls.
pub trait Connection {
    /// Read one raw response line, with or without its trailing newline.
    fn read(&mut self) -> Result<Vec<u8>, TamariError>;

    /// Write all of `buffer` to the stream, completely and in order, or
    /// fail.
    fn write(&mut self, buffer: &[u8]) -> Result<(), TamariError>;
}

} // verus!
