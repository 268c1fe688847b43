//! The session protocol: after the catalog, the consumer sends requests and
//! the producer answers each file request with the file's chunks.
//!
//! A request starts with a control byte: `0x00` asks the producer to close
//! the session; any other byte (the consumer sends `0x01`) announces a file
//! request, which follows as an eight-byte big-endian name length and the
//! name's UTF-8 bytes.
//!
//! The producer refuses a name that is not in its catalog with
//! `FileNotFound`, which ends the session: no chunk is sent for it. An empty
//! name is ignored and the session goes on.

use vstd::prelude::*;
use vstd::utf8::{decode_utf8, encode_utf8, valid_utf8};

use crate::catalog::{word_at, Catalog, WORD};
use crate::error::SessionError;
use crate::packet::Packet;
use crate::wire::{be_bytes, push_be, push_bytes, read_be, text_from_utf8};

verus! {

/// The control byte that closes the session.
pub const STOP: u8 = 0;

/// The control byte that announces a file request.
pub const CONTINUE: u8 = 1;

/// Where the name starts in a file request.
pub const NAME_AT: usize = 9;

/// What the consumer asks for next.
pub enum Request {
    /// Close the session.
    Stop,
    /// Send the file of this name.
    Fetch(String),
}

impl View for Request {
    /// `None` for a stop, else the requested name.
    type V = Option<Seq<char>>;

    open spec fn view(&self) -> Option<Seq<char>> {
        match self {
            Request::Stop => None,
            Request::Fetch(name) => Some(name@),
        }
    }
}

/// The wire form of a request.
pub open spec fn request_wire(r: Option<Seq<char>>) -> Seq<u8> {
    match r {
        None => seq![STOP],
        Some(name) => seq![CONTINUE] + be_bytes(encode_utf8(name).len(), WORD as nat)
            + encode_utf8(name),
    }
}

/// The number of bytes that the request at the front of `s` occupies, as far
/// as `s` tells.
pub open spec fn request_need(s: Seq<u8>) -> nat {
    if s.len() < 1 || s[0] == STOP {
        1
    } else if s.len() < NAME_AT {
        NAME_AT as nat
    } else {
        (NAME_AT + word_at(s, 1)) as nat
    }
}

/// The request at the front of `s` and the number of bytes it occupies;
/// `None` when `s` ends before the request does or the name is not valid
/// UTF-8.
pub open spec fn parse_request(s: Seq<u8>) -> Option<(Option<Seq<char>>, nat)> {
    let need = request_need(s);
    if s.len() < need {
        None
    } else if s[0] == STOP {
        Some((None, 1))
    } else {
        let name = s.subrange(NAME_AT as int, need as int);
        if valid_utf8(name) {
            Some((Some(decode_utf8(name)), need))
        } else {
            None
        }
    }
}

impl Packet for Request {
    fn send(&self, stream: &mut Vec<u8>)
        ensures
            final(stream)@ == old(stream)@ + request_wire(self@),
    {
        match self {
            Request::Stop => {
                stream.push(STOP);
                proof {
                    assert(final(stream)@ =~= old(stream)@ + request_wire(self@));
                }
            },
            Request::Fetch(name) => {
                stream.push(CONTINUE);
                let bytes = name.as_str().as_bytes();
                push_be(stream, bytes.len() as u64, WORD);
                push_bytes(stream, bytes, 0, bytes.len());
                proof {
                    assert(bytes@.subrange(0, bytes@.len() as int) =~= bytes@);
                    assert(final(stream)@ =~= old(stream)@ + request_wire(self@));
                }
            },
        }
    }

    fn recv(stream: &[u8]) -> (r: Result<(Request, usize), SessionError>)
        ensures
            match parse_request(stream@) {
                Some((req, n)) => r matches Ok((q, m)) && q@ == req && m == n,
                None => r == Err::<(Request, usize), SessionError>(SessionError::ProtocolViolation),
            },
    {
        let len = stream.len();
        let need = match Request::wire_len(stream) {
            Ok(k) => k,
            Err(e) => return Err(e),
        };
        if len < need {
            return Err(SessionError::ProtocolViolation);
        }
        if stream[0] == STOP {
            return Ok((Request::Stop, 1));
        }
        let name_bytes = vstd::slice::slice_subrange(stream, NAME_AT, need);
        match text_from_utf8(name_bytes) {
            None => Err(SessionError::ProtocolViolation),
            Some(name) => {
                proof {
                    vstd::utf8::encode_utf8_decode_utf8(name@);
                }
                Ok((Request::Fetch(name), need))
            },
        }
    }

    fn wire_len(prefix: &[u8]) -> (r: Result<usize, SessionError>)
        ensures
            match r {
                Ok(k) => k == request_need(prefix@),
                Err(_) => request_need(prefix@) > usize::MAX,
            },
    {
        let len = prefix.len();
        if len < 1 || prefix[0] == STOP {
            return Ok(1);
        }
        if len < NAME_AT {
            return Ok(NAME_AT);
        }
        let name_len = read_be(prefix, 1, WORD);
        if name_len > (usize::MAX - NAME_AT) as u64 {
            return Err(SessionError::ProtocolViolation);
        }
        Ok(NAME_AT + name_len as usize)
    }
}

/// A request's wire form reads back as the same request, whatever follows
/// it on the stream, and takes exactly its wire form. A name's length must
/// fit its eight-byte field.
pub proof fn lemma_request_round_trip(r: Option<Seq<char>>, rest: Seq<u8>)
    requires
        r matches Some(name) ==> encode_utf8(name).len() <= u64::MAX,
    ensures
        parse_request(request_wire(r) + rest) == Some((r, request_wire(r).len())),
{
    broadcast use vstd::utf8::encode_utf8_valid_utf8, vstd::utf8::encode_utf8_decode_utf8;

    let s = request_wire(r) + rest;
    match r {
        None => {
            assert(s[0] == STOP);
        },
        Some(name) => {
            let bytes = encode_utf8(name);
            crate::wire::lemma_byte_pow_values();
            crate::wire::lemma_be_bytes_len(bytes.len(), WORD as nat);
            crate::wire::lemma_be_round_trip(bytes.len(), WORD as nat);
            assert(s[0] == CONTINUE);
            assert(s.subrange(1, 1 + WORD) =~= be_bytes(bytes.len(), WORD as nat));
            assert(request_need(s) == NAME_AT + bytes.len());
            assert(s.subrange(NAME_AT as int, NAME_AT + bytes.len()) =~= bytes);
        },
    }
}

/// What the producer does about a request.
#[derive(Debug, Clone, Copy, PartialEq, Eq, Structural)]
pub enum Reply {
    /// Close the session.
    Close,
    /// Nothing; wait for the next request.
    Ignore,
    /// Stream the file of the catalog entry at this position.
    Stream(usize),
}

/// The position of the first entry of `c` named `name`, if any.
pub open spec fn first_position(c: Seq<(Seq<char>, u64)>, name: Seq<char>) -> Option<int> {
    if exists|i: int| 0 <= i < c.len() && c[i].0 == name {
        Some(
            choose|i: int|
                0 <= i < c.len() && c[i].0 == name && forall|j: int| 0 <= j < i ==> c[j].0 != name,
        )
    } else {
        None
    }
}

/// The producer's answer to `request`, given its catalog: a stop closes the
/// session, an empty name is ignored, a known name is streamed from its
/// first catalog entry, and an unknown name is `FileNotFound`.
pub fn serve(catalog: &Catalog, request: &Request) -> (r: Result<Reply, SessionError>)
    ensures
        match request@ {
            None => r == Ok::<Reply, SessionError>(Reply::Close),
            Some(name) => if name.len() == 0 {
                r == Ok::<Reply, SessionError>(Reply::Ignore)
            } else {
                match first_position(catalog@, name) {
                    Some(i) => r == Ok::<Reply, SessionError>(Reply::Stream(i as usize)),
                    None => r == Err::<Reply, SessionError>(SessionError::FileNotFound),
                }
            },
        },
{
    match request {
        Request::Stop => Ok(Reply::Close),
        Request::Fetch(name) => {
            if name.as_str().is_empty() {
                return Ok(Reply::Ignore);
            }
            match catalog.position(name) {
                Some(i) => {
                    proof {
                        let c = catalog@;
                        assert(exists|k: int| 0 <= k < c.len() && c[k].0 == name@);
                        let k = first_position(c, name@)->Some_0;
                        if k < i {
                            assert(c[k].0 != name@);
                        } else if k > i {
                            assert(c[i as int].0 != name@);
                        }
                    }
                    Ok(Reply::Stream(i))
                },
                None => Err(SessionError::FileNotFound),
            }
        },
    }
}

} // verus!
