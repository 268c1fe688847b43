//! Messages that travel on the connection.

use vstd::prelude::*;

use crate::error::SessionError;

verus! {

/// A message with a wire form.
///
/// Sending appends the message's bytes to an outgoing buffer; receiving reads
/// one message from the front of the bytes that arrived. `wire_len` tells a
/// reader how many bytes to collect before calling `recv`: given a prefix of
/// the incoming bytes it returns the length of the whole message as far as
/// that prefix determines it, and never less than the length of the prefix
/// it needs to look at next.
pub trait Packet: Sized {
    /// Appends this message's wire form to `stream`.
    fn send(&self, stream: &mut Vec<u8>)
        ensures
            old(stream)@.is_prefix_of(final(stream)@),
    ;

    /// Reads one message from the front of `stream` and returns it with the
    /// number of bytes it took.
    fn recv(stream: &[u8]) -> (r: Result<(Self, usize), SessionError>)
        ensures
            match r {
                Ok((_, n)) => n <= stream@.len(),
                Err(e) => e == SessionError::ProtocolViolation,
            },
    ;

    /// The number of bytes to collect before the message at the front of
    /// `prefix` can be read.
    fn wire_len(prefix: &[u8]) -> (r: Result<usize, SessionError>)
        ensures
            r is Err ==> r == Err::<usize, SessionError>(SessionError::ProtocolViolation),
    ;
}

} // verus!
