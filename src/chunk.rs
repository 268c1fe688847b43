//! Chunks: the blocks a file travels in, their wire form, and the engine that
//! cuts a file into chunks and puts it back together.
//!
//! A chunk carries at most `FIXED_CHUNK_SIZE` bytes. A chunk is final exactly
//! when it is short, so a file whose length is a multiple of the chunk size
//! ends with an empty chunk.
//!
//! Wire form: a two-byte big-endian header, then the payload. Bit 15 of the
//! header is set on a final chunk, whose payload length is then held in the
//! low ten bits; a chunk without that bit carries `FIXED_CHUNK_SIZE` bytes.

use vstd::prelude::*;

use crate::error::SessionError;
use crate::packet::Packet;
use crate::wire::{be_bytes, be_value, push_be, push_bytes, read_be};

verus! {

/// The payload size of every chunk but the last.
pub const FIXED_CHUNK_SIZE: usize = 1024;

/// The header bit that marks the final chunk.
pub const FINAL_BIT: u64 = 0x8000;

/// The number of header values the low ten bits can tell apart.
pub const LENGTH_FIELD_RANGE: u64 = 0x400;

/// The length of a chunk header on the wire.
pub const HEADER_LEN: usize = 2;

/// Whether a payload of this length closes a file.
pub open spec fn is_final_len(len: nat) -> bool {
    len < FIXED_CHUNK_SIZE
}

/// The header value sent in front of `payload`.
pub open spec fn header_of(payload: Seq<u8>) -> nat {
    if is_final_len(payload.len()) {
        FINAL_BIT as nat + payload.len()
    } else {
        0
    }
}

/// The wire form of a chunk with this payload.
pub open spec fn chunk_wire(payload: Seq<u8>) -> Seq<u8> {
    be_bytes(header_of(payload), HEADER_LEN as nat) + payload
}

/// The payload length that a header announces.
pub open spec fn announced_len(header: nat) -> nat {
    if header >= FINAL_BIT {
        header % LENGTH_FIELD_RANGE as nat
    } else {
        FIXED_CHUNK_SIZE as nat
    }
}

/// The number of bytes that the chunk at the front of `s` occupies, as far as
/// `s` tells: the header length while the header is incomplete.
pub open spec fn chunk_need(s: Seq<u8>) -> nat {
    if s.len() < HEADER_LEN {
        HEADER_LEN as nat
    } else {
        HEADER_LEN as nat + announced_len(be_value(s.subrange(0, HEADER_LEN as int)))
    }
}

/// The payload of the chunk at the front of `s`, and the number of bytes it
/// occupies; `None` when `s` ends before the chunk does.
pub open spec fn parse_chunk(s: Seq<u8>) -> Option<(Seq<u8>, nat)> {
    let n = chunk_need(s);
    if s.len() < HEADER_LEN || s.len() < n {
        None
    } else {
        Some((s.subrange(HEADER_LEN as int, n as int), n))
    }
}

/// The payloads that the chunk engine cuts `s` into: full chunks while at
/// least a chunk's worth is left, then one short chunk (possibly empty).
pub open spec fn chunks_of(s: Seq<u8>) -> Seq<Seq<u8>>
    decreases s.len(),
{
    if s.len() < FIXED_CHUNK_SIZE {
        seq![s]
    } else {
        seq![s.take(FIXED_CHUNK_SIZE as int)] + chunks_of(s.skip(FIXED_CHUNK_SIZE as int))
    }
}

/// What a receiver has after taking `parts` in order: the bytes appended up
/// to and including the first final chunk, and whether a final chunk came.
pub open spec fn reassembled(parts: Seq<Seq<u8>>) -> (Seq<u8>, bool)
    decreases parts.len(),
{
    if parts.len() == 0 {
        (seq![], false)
    } else if is_final_len(parts[0].len()) {
        (parts[0], true)
    } else {
        let rest = reassembled(parts.drop_first());
        (parts[0] + rest.0, rest.1)
    }
}

/// The payloads of a sequence of chunks.
pub open spec fn payloads(chunks: Seq<Chunk>) -> Seq<Seq<u8>> {
    chunks.map_values(|c: Chunk| c@)
}

/// A block of file bytes, at most `FIXED_CHUNK_SIZE` long.
pub struct Chunk {
    data: Vec<u8>,
}

impl View for Chunk {
    type V = Seq<u8>;

    closed spec fn view(&self) -> Seq<u8> {
        self.data@
    }
}

impl Chunk {
    #[verifier::type_invariant]
    spec fn fits(&self) -> bool {
        self.data@.len() <= FIXED_CHUNK_SIZE
    }

    /// The payload length.
    pub fn len(&self) -> (r: usize)
        ensures
            r == self@.len(),
            r <= FIXED_CHUNK_SIZE,
    {
        proof {
            use_type_invariant(self);
        }
        self.data.len()
    }

    /// The payload.
    pub fn payload(&self) -> (r: &[u8])
        ensures
            r@ == self@,
    {
        self.data.as_slice()
    }

    /// Whether this chunk closes the file: it does exactly when it is short.
    pub fn end(&self) -> (r: bool)
        ensures
            r == is_final_len(self@.len()),
    {
        self.data.len() < FIXED_CHUNK_SIZE
    }

    /// The chunk holding the next block of `source` from `offset` on: a full
    /// chunk's worth, or whatever is left when less is.
    pub fn read(source: &[u8], offset: usize) -> (r: Chunk)
        requires
            offset <= source@.len(),
        ensures
            r@ == source@.subrange(
                offset as int,
                if source@.len() - offset < FIXED_CHUNK_SIZE {
                    source@.len() as int
                } else {
                    offset + FIXED_CHUNK_SIZE
                },
            ),
    {
        let rest = source.len() - offset;
        let to = if rest < FIXED_CHUNK_SIZE {
            source.len()
        } else {
            offset + FIXED_CHUNK_SIZE
        };
        let mut data: Vec<u8> = Vec::new();
        push_bytes(&mut data, source, offset, to);
        Chunk { data }
    }

    /// Appends the payload to `file` and tells whether the file is now complete.
    pub fn write(self, file: &mut Vec<u8>) -> (r: bool)
        ensures
            final(file)@ == old(file)@ + self@,
            r == is_final_len(self@.len()),
    {
        let n = self.data.len();
        push_bytes(file, self.data.as_slice(), 0, n);
        proof {
            assert(self.data@.subrange(0, n as int) =~= self.data@);
        }
        self.end()
    }
}

impl Packet for Chunk {
    fn send(&self, stream: &mut Vec<u8>)
        ensures
            final(stream)@ == old(stream)@ + chunk_wire(self@),
    {
        proof {
            use_type_invariant(self);
        }
        let n = self.data.len();
        let header: u64 = if n < FIXED_CHUNK_SIZE {
            FINAL_BIT + n as u64
        } else {
            0
        };
        push_be(stream, header, HEADER_LEN);
        push_bytes(stream, self.data.as_slice(), 0, n);
        proof {
            assert(self.data@.subrange(0, n as int) =~= self.data@);
            assert(final(stream)@ =~= old(stream)@ + chunk_wire(self@));
        }
    }

    fn recv(stream: &[u8]) -> (r: Result<(Chunk, usize), SessionError>)
        ensures
            match parse_chunk(stream@) {
                Some((payload, n)) => r matches Ok((c, m)) && c@ == payload && m == n,
                None => r == Err::<(Chunk, usize), SessionError>(SessionError::ProtocolViolation),
            },
    {
        let need = match Chunk::wire_len(stream) {
            Ok(n) => n,
            Err(e) => return Err(e),
        };
        if stream.len() < HEADER_LEN || stream.len() < need {
            return Err(SessionError::ProtocolViolation);
        }
        let mut data: Vec<u8> = Vec::new();
        push_bytes(&mut data, stream, HEADER_LEN, need);
        Ok((Chunk { data }, need))
    }

    fn wire_len(prefix: &[u8]) -> (r: Result<usize, SessionError>)
        ensures
            r == Ok::<usize, SessionError>(chunk_need(prefix@) as usize),
            chunk_need(prefix@) <= HEADER_LEN + FIXED_CHUNK_SIZE,
    {
        if prefix.len() < HEADER_LEN {
            return Ok(HEADER_LEN);
        }
        let header = read_be(prefix, 0, HEADER_LEN);
        proof {
            crate::wire::lemma_be_value_bound(prefix@.subrange(0, HEADER_LEN as int));
            crate::wire::lemma_byte_pow_values();
        }
        let len: usize = if header >= FINAL_BIT {
            (header % LENGTH_FIELD_RANGE) as usize
        } else {
            FIXED_CHUNK_SIZE
        };
        Ok(HEADER_LEN + len)
    }
}

/// Cuts `data` into the chunks that carry it, in order; the last one, and
/// only the last one, is final.
pub fn split_into_chunks(data: &[u8]) -> (r: Vec<Chunk>)
    ensures
        payloads(r@) == chunks_of(data@),
{
    let mut out: Vec<Chunk> = Vec::new();
    let mut offset: usize = 0;
    let len = data.len();
    proof {
        assert(data@.skip(0) =~= data@);
        assert(payloads(out@) + chunks_of(data@) =~= chunks_of(data@));
    }
    loop
        invariant
            len == data@.len(),
            offset <= data@.len(),
            payloads(out@) + chunks_of(data@.skip(offset as int)) == chunks_of(data@),
        decreases data@.len() - offset,
    {
        let chunk = Chunk::read(data, offset);
        let short = chunk.end();
        proof {
            let rest = data@.skip(offset as int);
            assert(rest.len() >= FIXED_CHUNK_SIZE ==> rest.take(FIXED_CHUNK_SIZE as int) =~= chunk@);
            assert(rest.len() < FIXED_CHUNK_SIZE ==> rest =~= chunk@);
            assert(payloads(out@.push(chunk)) =~= payloads(out@).push(chunk@));
            if !short {
                assert(rest.skip(FIXED_CHUNK_SIZE as int) =~= data@.skip(offset + FIXED_CHUNK_SIZE));
                assert(chunks_of(rest) =~= seq![chunk@] + chunks_of(rest.skip(FIXED_CHUNK_SIZE as int)));
                assert(payloads(out@).push(chunk@) + chunks_of(data@.skip(offset + FIXED_CHUNK_SIZE))
                    =~= payloads(out@) + chunks_of(rest));
            } else {
                assert(chunks_of(rest) =~= seq![chunk@]);
                assert(payloads(out@).push(chunk@) =~= payloads(out@) + chunks_of(rest));
            }
        }
        out.push(chunk);
        if short {
            return out;
        }
        offset = offset + FIXED_CHUNK_SIZE;
    }
}

/// Takes `chunks` in order as a receiver does: appends each payload, and
/// stops after the first final chunk. Returns the bytes received and whether
/// the file is complete.
pub fn reassemble(chunks: &[Chunk]) -> (r: (Vec<u8>, bool))
    ensures
        (r.0@, r.1) == reassembled(payloads(chunks@)),
{
    let mut out: Vec<u8> = Vec::new();
    let mut i: usize = 0;
    let ghost all = payloads(chunks@);
    proof {
        assert(all.skip(0) =~= all);
        assert(out@ + reassembled(all).0 =~= reassembled(all).0);
    }
    while i < chunks.len()
        invariant
            i <= chunks@.len(),
            all == payloads(chunks@),
            reassembled(all) == (out@ + reassembled(all.skip(i as int)).0, reassembled(all.skip(i as int)).1),
        decreases chunks@.len() - i,
    {
        let c = &chunks[i];
        let n = c.len();
        let short = c.end();
        proof {
            let rest = all.skip(i as int);
            assert(rest[0] == c@);
            assert(rest.drop_first() =~= all.skip(i + 1));
        }
        push_bytes(&mut out, c.payload(), 0, n);
        proof {
            assert(c@.subrange(0, n as int) =~= c@);
        }
        if short {
            proof {
                assert(out@ =~= out@ + seq![]);
            }
            return (out, true);
        }
        proof {
            let rest = all.skip(i as int);
            let tail = reassembled(all.skip(i + 1));
            assert(reassembled(rest) == (c@ + tail.0, tail.1));
            assert(out@ + tail.0 =~= (out@.subrange(0, out@.len() - n) + c@) + tail.0);
        }
        i = i + 1;
    }
    proof {
        assert(all.skip(i as int) =~= Seq::<Seq<u8>>::empty());
        assert(out@ + seq![] =~= out@);
    }
    (out, false)
}

/// Cutting any byte sequence into chunks and taking them back in order
/// reproduces exactly the original bytes; every chunk fits, and exactly one
/// chunk is final: the last one.
pub proof fn lemma_chunks_round_trip(s: Seq<u8>)
    ensures
        reassembled(chunks_of(s)) == (s, true),
        chunks_of(s).len() >= 1,
        forall|i: int|
            0 <= i < chunks_of(s).len() ==> #[trigger] chunks_of(s)[i].len() <= FIXED_CHUNK_SIZE,
        forall|i: int|
            0 <= i < chunks_of(s).len() ==> (is_final_len(#[trigger] chunks_of(s)[i].len()) <==> i
                == chunks_of(s).len() - 1),
    decreases s.len(),
{
    if s.len() >= FIXED_CHUNK_SIZE {
        let rest = s.skip(FIXED_CHUNK_SIZE as int);
        lemma_chunks_round_trip(rest);
        let cs = chunks_of(s);
        assert(cs.drop_first() =~= chunks_of(rest));
        assert(s.take(FIXED_CHUNK_SIZE as int) + rest =~= s);
        assert forall|i: int| 0 < i < cs.len() implies cs[i] == chunks_of(rest)[i - 1] by {}
    }
}

/// A file whose length is a multiple of the chunk size (an empty one
/// included) still ends with a final chunk: an empty one, after the full
/// chunks.
pub proof fn lemma_exact_multiple_ends_with_empty_chunk(s: Seq<u8>)
    requires
        s.len() % (FIXED_CHUNK_SIZE as nat) == 0,
    ensures
        chunks_of(s).len() == s.len() / (FIXED_CHUNK_SIZE as nat) + 1,
        chunks_of(s).last().len() == 0,
        is_final_len(chunks_of(s).last().len()),
    decreases s.len(),
{
    if s.len() >= FIXED_CHUNK_SIZE {
        let rest = s.skip(FIXED_CHUNK_SIZE as int);
        assert(rest.len() % (FIXED_CHUNK_SIZE as nat) == 0);
        lemma_exact_multiple_ends_with_empty_chunk(rest);
        assert(rest.len() / (FIXED_CHUNK_SIZE as nat) + 1 == s.len() / (FIXED_CHUNK_SIZE as nat));
    } else {
        assert(s.len() == 0);
    }
}

/// A chunk's wire form reads back as the same payload, whatever follows it
/// on the stream.
pub proof fn lemma_chunk_wire_round_trip(payload: Seq<u8>, rest: Seq<u8>)
    requires
        payload.len() <= FIXED_CHUNK_SIZE,
    ensures
        parse_chunk(chunk_wire(payload) + rest) == Some((payload, (HEADER_LEN + payload.len()) as nat)),
{
    let h = header_of(payload);
    crate::wire::lemma_byte_pow_values();
    crate::wire::lemma_be_bytes_len(h, HEADER_LEN as nat);
    crate::wire::lemma_be_round_trip(h, HEADER_LEN as nat);
    let s = chunk_wire(payload) + rest;
    assert(s.subrange(0, HEADER_LEN as int) =~= be_bytes(h, HEADER_LEN as nat));
    assert(announced_len(h) == payload.len());
    assert(s.subrange(HEADER_LEN as int, HEADER_LEN + payload.len()) =~= payload);
}

} // verus!
