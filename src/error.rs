//! What can go wrong in a session.

use vstd::prelude::*;

verus! {

/// The ways a session can fail.
///
/// `Transport` and `LocalIo` come from the byte stream and the local file
/// system, which the caller owns; the library itself reports
/// `ProtocolViolation` and `FileNotFound`.
#[derive(Debug, Clone, Copy, PartialEq, Eq, Structural)]
pub enum SessionError {
    /// Reading from or writing to the connection failed.
    Transport,
    /// The bytes received do not form a valid message.
    ProtocolViolation,
    /// The requested name is not in the catalog.
    FileNotFound,
    /// A local file could not be opened or created.
    LocalIo,
}

} // verus!
