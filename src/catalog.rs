//! The catalog: the list of files a producer offers, and its wire form.
//!
//! Wire form, all integers eight bytes big-endian: the entry count `N`; the
//! `N` sizes in catalog order; the length of the name blob; the name blob,
//! which is the UTF-8 names joined by single `0x00` bytes (empty when `N` is
//! zero).

use vstd::prelude::*;
use vstd::utf8::{decode_utf8, encode_utf8, valid_utf8};

use crate::error::SessionError;
use crate::packet::Packet;
use crate::wire::{be_bytes, be_value, push_be, push_bytes, read_be, text_from_utf8};

verus! {

/// The width of every integer in the catalog message.
pub const WORD: usize = 8;

/// One file on offer: its name and its size in bytes.
pub struct CatalogEntry {
    pub name: String,
    pub size: u64,
}

impl View for CatalogEntry {
    type V = (Seq<char>, u64);

    open spec fn view(&self) -> (Seq<char>, u64) {
        (self.name@, self.size)
    }
}

/// The ordered list of files a producer offers.
///
/// `Catalog::new` admits only well-formed catalogs (see `catalog_wf`); a
/// catalog read off the wire is taken as it came.
pub struct Catalog {
    pub entries: Vec<CatalogEntry>,
}

impl View for Catalog {
    type V = Seq<(Seq<char>, u64)>;

    open spec fn view(&self) -> Seq<(Seq<char>, u64)> {
        self.entries@.map_values(|e: CatalogEntry| e@)
    }
}

/// A name as it may stand in a catalog: not empty, and no `0x00` byte in its
/// UTF-8 form.
pub open spec fn valid_name(name: Seq<char>) -> bool {
    &&& name.len() > 0
    &&& !encode_utf8(name).contains(0u8)
}

/// A well-formed catalog: every name valid, and no name twice.
pub open spec fn catalog_wf(c: Seq<(Seq<char>, u64)>) -> bool {
    &&& forall|i: int| 0 <= i < c.len() ==> valid_name(#[trigger] c[i].0)
    &&& forall|i: int, j: int| 0 <= i < j < c.len() ==> #[trigger] c[i].0 != #[trigger] c[j].0
}

/// `parts` joined with a single `0x00` byte between consecutive parts.
pub open spec fn join_names(parts: Seq<Seq<u8>>) -> Seq<u8>
    decreases parts.len(),
{
    if parts.len() == 0 {
        seq![]
    } else if parts.len() == 1 {
        parts[0]
    } else {
        join_names(parts.drop_last()) + seq![0u8] + parts.last()
    }
}

/// The UTF-8 forms of the names of `c`.
pub open spec fn encoded_names(c: Seq<(Seq<char>, u64)>) -> Seq<Seq<u8>> {
    c.map_values(|e: (Seq<char>, u64)| encode_utf8(e.0))
}

/// The name blob of `c`.
pub open spec fn name_blob(c: Seq<(Seq<char>, u64)>) -> Seq<u8> {
    join_names(encoded_names(c))
}

/// The sizes of `c`, each as eight big-endian bytes.
pub open spec fn sizes_wire(c: Seq<(Seq<char>, u64)>) -> Seq<u8>
    decreases c.len(),
{
    if c.len() == 0 {
        seq![]
    } else {
        sizes_wire(c.drop_last()) + be_bytes(c.last().1 as nat, WORD as nat)
    }
}

/// The wire form of a catalog.
pub open spec fn catalog_wire(c: Seq<(Seq<char>, u64)>) -> Seq<u8> {
    be_bytes(c.len(), WORD as nat) + sizes_wire(c) + be_bytes(name_blob(c).len(), WORD as nat)
        + name_blob(c)
}

/// The pieces of `s` between `0x00` bytes; one piece more than there are
/// `0x00` bytes.
pub open spec fn split_at_zeros(s: Seq<u8>) -> Seq<Seq<u8>>
    decreases s.len(),
{
    if s.len() == 0 {
        seq![seq![]]
    } else {
        let p = split_at_zeros(s.drop_last());
        if s.last() == 0 {
            p.push(seq![])
        } else {
            p.update(p.len() - 1, p.last().push(s.last()))
        }
    }
}

/// The name fields of a blob: none for an empty blob, else the pieces
/// between `0x00` bytes.
pub open spec fn split_fields(blob: Seq<u8>) -> Seq<Seq<u8>> {
    if blob.len() == 0 {
        seq![]
    } else {
        split_at_zeros(blob)
    }
}

/// The eight-byte big-endian integer of `s` at offset `at`.
pub open spec fn word_at(s: Seq<u8>, at: int) -> nat {
    be_value(s.subrange(at, at + WORD))
}

/// Where the blob-length field starts in a catalog that declares `n` entries.
pub open spec fn blob_len_at(n: nat) -> nat {
    (WORD + WORD * n) as nat
}

/// The number of bytes that the catalog at the front of `s` occupies, as
/// far as `s` tells: while a length field is incomplete, the length up to
/// and including that field.
pub open spec fn catalog_need(s: Seq<u8>) -> nat {
    if s.len() < WORD {
        WORD as nat
    } else {
        let at = blob_len_at(word_at(s, 0));
        if s.len() < at + WORD {
            (at + WORD) as nat
        } else {
            (at + WORD + word_at(s, at as int)) as nat
        }
    }
}

/// The catalog at the front of `s` and the number of bytes it occupies;
/// `None` when `s` ends before the catalog does, when the blob does not split
/// into exactly as many fields as entries were declared, or when a field is
/// not valid UTF-8.
pub open spec fn parse_catalog(s: Seq<u8>) -> Option<(Seq<(Seq<char>, u64)>, nat)> {
    let need = catalog_need(s);
    if s.len() < need {
        None
    } else {
        let n = word_at(s, 0);
        let at = blob_len_at(n);
        let fields = split_fields(s.subrange(at + WORD, need as int));
        if fields.len() == n && forall|i: int| 0 <= i < n ==> valid_utf8(#[trigger] fields[i]) {
            Some(
                (
                    Seq::new(
                        n,
                        |i: int| (decode_utf8(fields[i]), word_at(s, WORD + WORD * i) as u64),
                    ),
                    need,
                ),
            )
        } else {
            None
        }
    }
}

/// The contents of a list of byte buffers.
pub open spec fn buffers(v: Seq<Vec<u8>>) -> Seq<Seq<u8>> {
    v.map_values(|b: Vec<u8>| b@)
}

/// Whether `bytes` holds a `0x00` byte.
fn has_zero(bytes: &[u8]) -> (r: bool)
    ensures
        r == bytes@.contains(0u8),
{
    let mut i: usize = 0;
    while i < bytes.len()
        invariant
            i <= bytes@.len(),
            forall|j: int| 0 <= j < i ==> bytes@[j] != 0u8,
        decreases bytes@.len() - i,
    {
        if bytes[i] == 0 {
            return true;
        }
        i = i + 1;
    }
    false
}

impl Catalog {
    /// The catalog of `entries` when every name is valid and no name comes
    /// twice; `None` otherwise.
    pub fn new(entries: Vec<CatalogEntry>) -> (r: Option<Catalog>)
        ensures
            match r {
                Some(c) => catalog_wf(c@) && c.entries@ == entries@,
                None => !catalog_wf(entries@.map_values(|e: CatalogEntry| e@)),
            },
    {
        let ghost c = entries@.map_values(|e: CatalogEntry| e@);
        let mut i: usize = 0;
        while i < entries.len()
            invariant
                c == entries@.map_values(|e: CatalogEntry| e@),
                i <= entries@.len(),
                forall|k: int| 0 <= k < i ==> valid_name(#[trigger] c[k].0),
                forall|k: int, j: int| 0 <= k < j < i ==> #[trigger] c[k].0 != #[trigger] c[j].0,
            decreases entries@.len() - i,
        {
            let name = &entries[i].name;
            let text = name.as_str();
            proof {
                assert(c[i as int] == entries@[i as int]@);
            }
            if text.is_empty() || has_zero(text.as_bytes()) {
                proof {
                    assert(!valid_name(c[i as int].0));
                }
                return None;
            }
            let mut k: usize = 0;
            while k < i
                invariant
                    c == entries@.map_values(|e: CatalogEntry| e@),
                    k <= i < entries@.len(),
                    name@ == c[i as int].0,
                    forall|m: int| 0 <= m < k ==> c[m].0 != c[i as int].0,
                decreases i - k,
            {
                let same = entries[k].name == *name;
                proof {
                    assert(c[k as int] == entries@[k as int]@);
                    assert(c[i as int] == entries@[i as int]@);
                }
                if same {
                    proof {
                        assert(c[k as int].0 == c[i as int].0);
                    }
                    return None;
                }
                k = k + 1;
            }
            i = i + 1;
        }
        Some(Catalog { entries })
    }

    /// The number of entries.
    pub fn len(&self) -> (r: usize)
        ensures
            r == self@.len(),
    {
        self.entries.len()
    }

    /// The position of the first entry named `name`, if any.
    pub fn position(&self, name: &String) -> (r: Option<usize>)
        ensures
            match r {
                Some(i) => i < self@.len() && self@[i as int].0 == name@ && forall|j: int|
                    0 <= j < i ==> self@[j].0 != name@,
                None => forall|j: int| 0 <= j < self@.len() ==> self@[j].0 != name@,
            },
    {
        let mut i: usize = 0;
        while i < self.entries.len()
            invariant
                i <= self@.len(),
                forall|j: int| 0 <= j < i ==> self@[j].0 != name@,
            decreases self@.len() - i,
        {
            if self.entries[i].name == *name {
                return Some(i);
            }
            i = i + 1;
        }
        None
    }
}

impl Packet for Catalog {
    fn send(&self, stream: &mut Vec<u8>)
        ensures
            final(stream)@ == old(stream)@ + catalog_wire(self@),
    {
        let ghost c = self@;
        let n = self.entries.len();
        push_be(stream, n as u64, WORD);
        let mut i: usize = 0;
        proof {
            assert(c.take(0) =~= Seq::<(Seq<char>, u64)>::empty());
            assert(stream@ =~= old(stream)@ + be_bytes(c.len(), WORD as nat) + sizes_wire(c.take(0)));
        }
        while i < n
            invariant
                c == self@,
                n == c.len(),
                i <= n,
                stream@ == old(stream)@ + be_bytes(c.len(), WORD as nat) + sizes_wire(c.take(i as int)),
            decreases n - i,
        {
            push_be(stream, self.entries[i].size, WORD);
            proof {
                assert(c[i as int] == self.entries@[i as int]@);
                assert(c.take(i + 1).drop_last() =~= c.take(i as int));
                assert(stream@ =~= old(stream)@ + be_bytes(c.len(), WORD as nat) + sizes_wire(
                    c.take(i + 1),
                ));
            }
            i = i + 1;
        }
        let mut blob: Vec<u8> = Vec::new();
        let mut i: usize = 0;
        proof {
            assert(encoded_names(c.take(0)) =~= Seq::<Seq<u8>>::empty());
        }
        while i < n
            invariant
                c == self@,
                n == c.len(),
                i <= n,
                blob@ == join_names(encoded_names(c.take(i as int))),
            decreases n - i,
        {
            if i > 0 {
                blob.push(0u8);
            }
            let bytes = self.entries[i].name.as_str().as_bytes();
            push_bytes(&mut blob, bytes, 0, bytes.len());
            proof {
                assert(c[i as int] == self.entries@[i as int]@);
                let prev = encoded_names(c.take(i as int));
                let next = encoded_names(c.take(i + 1));
                assert(next.drop_last() =~= prev);
                assert(next.last() == encode_utf8(c[i as int].0));
                assert(bytes@.subrange(0, bytes@.len() as int) =~= bytes@);
                if i == 0 {
                    assert(blob@ =~= next[0]);
                } else {
                    assert(blob@ =~= join_names(prev) + seq![0u8] + next.last());
                }
            }
            i = i + 1;
        }
        proof {
            assert(c.take(n as int) =~= c);
        }
        push_be(stream, blob.len() as u64, WORD);
        push_bytes(stream, blob.as_slice(), 0, blob.len());
        proof {
            assert(blob@.subrange(0, blob@.len() as int) =~= blob@);
            assert(final(stream)@ =~= old(stream)@ + catalog_wire(c));
        }
    }

    fn recv(stream: &[u8]) -> (r: Result<(Catalog, usize), SessionError>)
        ensures
            match parse_catalog(stream@) {
                Some((c, n)) => r matches Ok((cat, m)) && cat@ == c && m == n,
                None => r == Err::<(Catalog, usize), SessionError>(SessionError::ProtocolViolation),
            },
    {
        let len = stream.len();
        let need = match Catalog::wire_len(stream) {
            Ok(k) => k,
            Err(e) => return Err(e),
        };
        if len < need {
            return Err(SessionError::ProtocolViolation);
        }
        let ghost s = stream@;
        let n = read_be(stream, 0, WORD) as usize;
        let blob_start = WORD + WORD * n + WORD;
        let ghost blob = s.subrange(blob_start as int, need as int);
        let mut fields: Vec<Vec<u8>> = Vec::new();
        if blob_start < need {
            let mut current: Vec<u8> = Vec::new();
            let mut i: usize = blob_start;
            proof {
                assert(s.subrange(blob_start as int, blob_start as int) =~= Seq::<u8>::empty());
                assert(buffers(fields@).push(current@) =~= seq![seq![]]);
            }
            while i < need
                invariant
                    s == stream@,
                    blob_start <= i <= need <= s.len(),
                    buffers(fields@).push(current@) == split_at_zeros(
                        s.subrange(blob_start as int, i as int),
                    ),
                decreases need - i,
            {
                let b = stream[i];
                proof {
                    let before = s.subrange(blob_start as int, i as int);
                    let after = s.subrange(blob_start as int, i + 1);
                    assert(after.drop_last() =~= before);
                    assert(after.last() == b);
                }
                if b == 0 {
                    let ghost old_fields = fields@;
                    fields.push(current);
                    current = Vec::new();
                    proof {
                        assert(buffers(fields@) =~= buffers(old_fields).push(
                            fields@[fields@.len() - 1]@,
                        ));
                    }
                } else {
                    let ghost old_current = current@;
                    current.push(b);
                    proof {
                        let p = buffers(fields@).push(old_current);
                        assert(buffers(fields@).push(current@) =~= p.update(
                            p.len() - 1,
                            p.last().push(b),
                        ));
                    }
                }
                i = i + 1;
            }
            let ghost old_fields = fields@;
            fields.push(current);
            proof {
                assert(buffers(fields@) =~= buffers(old_fields).push(fields@[fields@.len() - 1]@));
            }
        } else {
            proof {
                assert(buffers(fields@) =~= Seq::<Seq<u8>>::empty());
            }
        }
        let ghost fs = buffers(fields@);
        assert(fs == split_fields(blob));
        if fields.len() != n {
            return Err(SessionError::ProtocolViolation);
        }
        let mut entries: Vec<CatalogEntry> = Vec::new();
        let mut j: usize = 0;
        while j < n
            invariant
                s == stream@,
                n == fields@.len(),
                fs == buffers(fields@),
                fs == split_fields(s.subrange(blob_start as int, need as int)),
                need == catalog_need(s),
                need <= s.len(),
                n == word_at(s, 0),
                blob_start == WORD + WORD * n + WORD,
                blob_start <= s.len(),
                j <= n,
                forall|i: int| 0 <= i < j ==> valid_utf8(#[trigger] fs[i]),
                entries@.map_values(|e: CatalogEntry| e@) == Seq::new(
                    j as nat,
                    |i: int| (decode_utf8(fs[i]), word_at(s, WORD + WORD * i) as u64),
                ),
            decreases n - j,
        {
            let text = text_from_utf8(fields[j].as_slice());
            proof {
                assert(fs[j as int] == fields@[j as int]@);
            }
            match text {
                None => {
                    proof {
                        assert(!valid_utf8(fs[j as int]));
                    }
                    return Err(SessionError::ProtocolViolation);
                },
                Some(name) => {
                    let size = read_be(stream, WORD + WORD * j, WORD);
                    proof {
                        vstd::utf8::encode_utf8_decode_utf8(name@);
                        crate::wire::lemma_be_value_bound(
                            s.subrange(WORD + WORD * j, WORD + WORD * j + WORD),
                        );
                        crate::wire::lemma_byte_pow_values();
                    }
                    let ghost old_entries = entries@;
                    let ghost entry_view = (name@, size);
                    assert(entry_view == (decode_utf8(fs[j as int]), word_at(s, WORD + WORD * j) as u64));
                    entries.push(CatalogEntry { name, size });
                    proof {
                        assert(entries@.map_values(|e: CatalogEntry| e@) =~= old_entries.map_values(
                            |e: CatalogEntry| e@,
                        ).push(entry_view));
                        assert(entries@.map_values(|e: CatalogEntry| e@) =~= Seq::new(
                            (j + 1) as nat,
                            |i: int| (decode_utf8(fs[i]), word_at(s, WORD + WORD * i) as u64),
                        ));
                    }
                },
            }
            j = j + 1;
        }
        Ok((Catalog { entries }, need))
    }

    fn wire_len(prefix: &[u8]) -> (r: Result<usize, SessionError>)
        ensures
            match r {
                Ok(k) => k == catalog_need(prefix@),
                Err(_) => catalog_need(prefix@) > usize::MAX,
            },
    {
        let len = prefix.len();
        if len < WORD {
            return Ok(WORD);
        }
        let n = read_be(prefix, 0, WORD);
        if n > ((usize::MAX - 2 * WORD) / WORD) as u64 {
            return Err(SessionError::ProtocolViolation);
        }
        let at = WORD + WORD * (n as usize);
        if len < at + WORD {
            return Ok(at + WORD);
        }
        let blob_len = read_be(prefix, at, WORD);
        if blob_len > (usize::MAX - (at + WORD)) as u64 {
            return Err(SessionError::ProtocolViolation);
        }
        Ok(at + WORD + blob_len as usize)
    }
}

proof fn lemma_split_len(s: Seq<u8>)
    ensures
        split_at_zeros(s).len() >= 1,
    decreases s.len(),
{
    if s.len() > 0 {
        lemma_split_len(s.drop_last());
    }
}

/// Appending bytes without a `0x00` extends the last piece.
proof fn lemma_split_extend(x: Seq<u8>, b: Seq<u8>)
    requires
        !b.contains(0u8),
    ensures
        split_at_zeros(x + b) == split_at_zeros(x).update(
            split_at_zeros(x).len() - 1,
            split_at_zeros(x).last() + b,
        ),
    decreases b.len(),
{
    lemma_split_len(x);
    let p = split_at_zeros(x);
    if b.len() == 0 {
        assert(x + b =~= x);
        assert(p.last() + b =~= p.last());
        assert(p.update(p.len() - 1, p.last() + b) =~= p);
    } else {
        let b0 = b.drop_last();
        assert(!b0.contains(0u8)) by {
            if b0.contains(0u8) {
                let k = choose|k: int| 0 <= k < b0.len() && b0[k] == 0u8;
                assert(b[k] == 0u8);
            }
        }
        assert(b.last() != 0u8) by {
            if b.last() == 0u8 {
                assert(b[b.len() - 1] == 0u8);
            }
        }
        lemma_split_extend(x, b0);
        assert((x + b).drop_last() =~= x + b0);
        assert((x + b).last() == b.last());
        let q = split_at_zeros(x + b0);
        assert((p.last() + b0).push(b.last()) =~= p.last() + b);
        assert(q.update(q.len() - 1, q.last().push(b.last())) =~= p.update(
            p.len() - 1,
            p.last() + b,
        ));
    }
}

/// Splitting names joined by `0x00` gives the names back, when no name holds
/// a `0x00` byte.
proof fn lemma_split_join(parts: Seq<Seq<u8>>)
    requires
        parts.len() >= 1,
        forall|i: int| 0 <= i < parts.len() ==> !(#[trigger] parts[i]).contains(0u8),
    ensures
        split_at_zeros(join_names(parts)) == parts,
    decreases parts.len(),
{
    if parts.len() == 1 {
        lemma_split_extend(seq![], parts[0]);
        assert(Seq::<u8>::empty() + parts[0] =~= parts[0]);
        assert(split_at_zeros(Seq::<u8>::empty()) =~= seq![seq![]]);
        assert(seq![Seq::<u8>::empty()].update(0, Seq::<u8>::empty() + parts[0]) =~= parts);
    } else {
        let init = parts.drop_last();
        assert forall|i: int| 0 <= i < init.len() implies !(#[trigger] init[i]).contains(0u8) by {
            assert(init[i] == parts[i]);
        }
        lemma_split_join(init);
        let a = join_names(init).push(0u8);
        assert(a.drop_last() =~= join_names(init));
        assert(split_at_zeros(a) =~= init.push(seq![]));
        assert(!parts.last().contains(0u8)) by {
            assert(parts.last() == parts[parts.len() - 1]);
        }
        lemma_split_extend(a, parts.last());
        assert(join_names(parts) =~= a + parts.last());
        assert(Seq::<u8>::empty() + parts.last() =~= parts.last());
        assert(init.push(seq![]).update(init.len() as int, Seq::<u8>::empty() + parts.last())
            =~= parts);
    }
}

/// The size field of each entry sits at its place in the size list.
proof fn lemma_sizes_wire(c: Seq<(Seq<char>, u64)>)
    ensures
        sizes_wire(c).len() == WORD * c.len(),
        forall|i: int|
            0 <= i < c.len() ==> #[trigger] sizes_wire(c).subrange(WORD * i, WORD * i + WORD)
                == be_bytes(c[i].1 as nat, WORD as nat),
    decreases c.len(),
{
    if c.len() > 0 {
        let init = c.drop_last();
        lemma_sizes_wire(init);
        crate::wire::lemma_be_bytes_len(c.last().1 as nat, WORD as nat);
        let w = sizes_wire(c);
        assert forall|i: int| 0 <= i < c.len() implies #[trigger] w.subrange(WORD * i, WORD * i + WORD)
            == be_bytes(c[i].1 as nat, WORD as nat) by {
            if i < c.len() - 1 {
                assert(w.subrange(WORD * i, WORD * i + WORD) =~= sizes_wire(init).subrange(
                    WORD * i,
                    WORD * i + WORD,
                ));
                assert(init[i] == c[i]);
            } else {
                assert(w.subrange(WORD * i, WORD * i + WORD) =~= be_bytes(
                    c.last().1 as nat,
                    WORD as nat,
                ));
            }
        }
    }
}

/// A non-empty name has a non-empty UTF-8 form.
proof fn lemma_encode_nonempty(name: Seq<char>)
    requires
        name.len() > 0,
    ensures
        encode_utf8(name).len() > 0,
{
    assert(encode_utf8(name) == vstd::utf8::encode_scalar(name[0] as u32) + encode_utf8(
        name.drop_first(),
    ));
}

/// Decoding the wire form of a catalog whose names are valid gives the same
/// catalog back, entry by entry and in order, whatever follows it on the
/// stream; the catalog takes exactly its wire form. The count and the blob
/// length must fit their eight-byte fields.
pub proof fn lemma_catalog_round_trip(c: Seq<(Seq<char>, u64)>, rest: Seq<u8>)
    requires
        forall|i: int| 0 <= i < c.len() ==> valid_name(#[trigger] c[i].0),
        c.len() <= u64::MAX,
        name_blob(c).len() <= u64::MAX,
    ensures
        parse_catalog(catalog_wire(c) + rest) == Some((c, catalog_wire(c).len())),
{
    broadcast use vstd::utf8::encode_utf8_valid_utf8, vstd::utf8::encode_utf8_decode_utf8;

    let s = catalog_wire(c) + rest;
    let n = c.len();
    let blob = name_blob(c);
    let enc = encoded_names(c);
    let at = blob_len_at(n);
    crate::wire::lemma_byte_pow_values();
    crate::wire::lemma_be_bytes_len(n, WORD as nat);
    crate::wire::lemma_be_bytes_len(blob.len(), WORD as nat);
    crate::wire::lemma_be_round_trip(n, WORD as nat);
    crate::wire::lemma_be_round_trip(blob.len(), WORD as nat);
    lemma_sizes_wire(c);
    assert(s.subrange(0, WORD as int) =~= be_bytes(n, WORD as nat));
    assert(word_at(s, 0) == n);
    assert(s.subrange(at as int, at + WORD) =~= be_bytes(blob.len(), WORD as nat));
    assert(word_at(s, at as int) == blob.len());
    assert(catalog_need(s) == catalog_wire(c).len());
    assert(s.subrange(at + WORD, catalog_wire(c).len() as int) =~= blob);
    assert forall|i: int| 0 <= i < enc.len() implies !(#[trigger] enc[i]).contains(0u8) by {
        assert(valid_name(c[i].0));
    }
    if n == 0 {
        assert(split_fields(blob) =~= enc);
    } else {
        if n == 1 {
            assert(valid_name(c[0].0));
            lemma_encode_nonempty(c[0].0);
        } else {
            assert(blob =~= join_names(enc.drop_last()) + seq![0u8] + enc.last());
        }
        assert(blob.len() > 0);
        lemma_split_join(enc);
    }
    let fields = split_fields(blob);
    assert(fields == enc);
    assert forall|i: int| 0 <= i < n implies valid_utf8(#[trigger] fields[i]) by {
        assert(fields[i] == encode_utf8(c[i].0));
    }
    assert forall|i: int| 0 <= i < n implies word_at(s, WORD + WORD * i) == c[i].1 by {
        assert(s.subrange(WORD + WORD * i, WORD + WORD * i + WORD) =~= sizes_wire(c).subrange(
            WORD * i,
            WORD * i + WORD,
        ));
        crate::wire::lemma_be_round_trip(c[i].1 as nat, WORD as nat);
    }
    let parsed = Seq::new(n, |i: int| (decode_utf8(fields[i]), word_at(s, WORD + WORD * i) as u64));
    assert forall|i: int| 0 <= i < n implies parsed[i] == c[i] by {
        assert(fields[i] == encode_utf8(c[i].0));
    }
    assert(parsed =~= c);
}

} // verus!
