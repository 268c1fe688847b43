//! The building blocks of every message: big-endian unsigned integers of a
//! fixed width, byte copies, and UTF-8 text.

use vstd::prelude::*;
use vstd::utf8::{encode_utf8, valid_utf8};

verus! {

/// `256` to the power `width`: one more than the largest value that
/// `width` bytes can hold.
pub open spec fn byte_pow(width: nat) -> nat
    decreases width,
{
    if width == 0 {
        1
    } else {
        256 * byte_pow((width - 1) as nat)
    }
}

/// The value of a big-endian byte string.
pub open spec fn be_value(s: Seq<u8>) -> nat
    decreases s.len(),
{
    if s.len() == 0 {
        0
    } else {
        be_value(s.drop_last()) * 256 + s.last() as nat
    }
}

/// The `width` low-order bytes of `v`, most significant first.
pub open spec fn be_bytes(v: nat, width: nat) -> Seq<u8>
    decreases width,
{
    if width == 0 {
        seq![]
    } else {
        be_bytes(v / 256, (width - 1) as nat).push((v % 256) as u8)
    }
}

pub proof fn lemma_byte_pow_positive(width: nat)
    ensures
        byte_pow(width) >= 1,
    decreases width,
{
    if width > 0 {
        lemma_byte_pow_positive((width - 1) as nat);
    }
}

pub proof fn lemma_byte_pow_values()
    ensures
        byte_pow(2) == 0x1_0000,
        byte_pow(8) == 0x1_0000_0000_0000_0000,
{
    reveal_with_fuel(byte_pow, 9);
}

/// `be_bytes` always yields exactly `width` bytes.
pub proof fn lemma_be_bytes_len(v: nat, width: nat)
    ensures
        be_bytes(v, width).len() == width,
    decreases width,
{
    if width > 0 {
        lemma_be_bytes_len(v / 256, (width - 1) as nat);
    }
}

/// A byte string of `width` bytes holds a value below `256^width`.
pub proof fn lemma_be_value_bound(s: Seq<u8>)
    ensures
        be_value(s) < byte_pow(s.len()),
    decreases s.len(),
{
    if s.len() > 0 {
        let p = s.drop_last();
        lemma_be_value_bound(p);
        let a = be_value(p);
        let b = s.last() as nat;
        let q = byte_pow(p.len());
        assert(a * 256 + b < q * 256) by (nonlinear_arith)
            requires
                a < q,
                b < 256,
        ;
    }
}

/// Writing a value that fits and reading it back gives the value.
pub proof fn lemma_be_round_trip(v: nat, width: nat)
    requires
        v < byte_pow(width),
    ensures
        be_value(be_bytes(v, width)) == v,
    decreases width,
{
    if width > 0 {
        let w1 = (width - 1) as nat;
        assert(v / 256 < byte_pow(w1)) by (nonlinear_arith)
            requires
                v < 256 * byte_pow(w1),
        ;
        lemma_be_round_trip(v / 256, w1);
        let s = be_bytes(v, width);
        assert(s.drop_last() =~= be_bytes(v / 256, w1));
        assert(v == (v / 256) * 256 + v % 256) by (nonlinear_arith);
    }
}

/// Appends the `width` low-order bytes of `v` to `out`, most significant first.
pub fn push_be(out: &mut Vec<u8>, v: u64, width: usize)
    ensures
        final(out)@ == old(out)@ + be_bytes(v as nat, width as nat),
    decreases width,
{
    if width == 0 {
        assert(old(out)@ + be_bytes(v as nat, 0) =~= old(out)@);
    } else {
        push_be(out, v / 256, width - 1);
        out.push((v % 256) as u8);
        assert(final(out)@ =~= old(out)@ + be_bytes(v as nat, width as nat));
    }
}

/// The big-endian value of the `width` bytes of `s` that start at `start`.
pub fn read_be(s: &[u8], start: usize, width: usize) -> (v: u64)
    requires
        width <= 8,
        start + width <= s@.len(),
    ensures
        v as nat == be_value(s@.subrange(start as int, start + width)),
{
    let n = s.len();
    let mut v: u64 = 0;
    let mut i: usize = 0;
    while i < width
        invariant
            n == s@.len(),
            width <= 8,
            start + width <= s@.len(),
            i <= width,
            v as nat == be_value(s@.subrange(start as int, start + i)),
        decreases width - i,
    {
        proof {
            let t = s@.subrange(start as int, start + i);
            lemma_be_value_bound(t);
            lemma_byte_pow_mono(i as nat, 7);
            lemma_byte_pow_values();
            assert(byte_pow(7) * 256 == byte_pow(8)) by {
                reveal_with_fuel(byte_pow, 9);
            }
            let a = v as nat;
            let q = byte_pow(i as nat);
            assert(a * 256 + 255 < 0x1_0000_0000_0000_0000) by (nonlinear_arith)
                requires
                    a < q,
                    q <= byte_pow(7),
                    byte_pow(7) * 256 == 0x1_0000_0000_0000_0000int,
            ;
            assert(s@.subrange(start as int, start + i + 1).drop_last() =~= t);
        }
        v = v * 256 + s[start + i] as u64;
        i = i + 1;
    }
    v
}

/// `byte_pow` grows with the width.
pub proof fn lemma_byte_pow_mono(a: nat, b: nat)
    requires
        a <= b,
    ensures
        byte_pow(a) <= byte_pow(b),
    decreases b,
{
    if a < b {
        lemma_byte_pow_mono(a, (b - 1) as nat);
        lemma_byte_pow_positive((b - 1) as nat);
    }
}

/// Appends `src[from..to]` to `out`.
pub fn push_bytes(out: &mut Vec<u8>, src: &[u8], from: usize, to: usize)
    requires
        from <= to <= src@.len(),
    ensures
        final(out)@ == old(out)@ + src@.subrange(from as int, to as int),
{
    let mut i: usize = from;
    while i < to
        invariant
            from <= i <= to <= src@.len(),
            out@ == old(out)@ + src@.subrange(from as int, i as int),
        decreases to - i,
    {
        out.push(src[i]);
        i = i + 1;
        assert(out@ =~= old(out)@ + src@.subrange(from as int, i as int));
    }
}

/// Relies on `String::from_utf8`: it accepts exactly the valid UTF-8 byte
/// strings, and the string it returns holds those same bytes.
#[verifier::external_body]
pub(crate) fn text_from_utf8(bytes: &[u8]) -> (r: Option<String>)
    ensures
        r is Some <==> valid_utf8(bytes@),
        r matches Some(s) ==> encode_utf8(s@) == bytes@,
{
    String::from_utf8(bytes.to_vec()).ok()
}

} // verus!
