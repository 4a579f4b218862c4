//! Mathematical model of a zero-filled byte container.
//!
//! The backing store is modelled as a `Seq<u8>`.  Reads past the end yield
//! zero bytes; writes past the end first fill the gap with zeros.  Every
//! container operation in this crate is specified against these functions.

use vstd::prelude::*;

verus! {

/// The `length` bytes of `s` starting at `offset`, zero-extended past the
/// end of `s`.
pub open spec fn read_model(s: Seq<u8>, offset: int, length: int) -> Seq<u8> {
    Seq::new(length as nat, |i: int| if offset + i < s.len() { s[offset + i] } else { 0u8 })
}

/// `s` with `b` written at `offset`: any gap between the end of `s` and
/// `offset` is filled with zeros, and the result never shrinks.  Writing
/// no bytes changes nothing, even past the end: a seekable file is only
/// extended by bytes actually written, so an empty write leaves its
/// length alone, and the model follows the file.
pub open spec fn write_model(s: Seq<u8>, offset: int, b: Seq<u8>) -> Seq<u8> {
    if b.len() == 0 {
        s
    } else {
        write_model_nonempty(s, offset, b)
    }
}

/// The spliced sequence behind [`write_model`] for a non-empty write.
pub open spec fn write_model_nonempty(s: Seq<u8>, offset: int, b: Seq<u8>) -> Seq<u8> {
    Seq::new(
        if s.len() >= offset + b.len() { s.len() } else { (offset + b.len()) as nat },
        |i: int| if offset <= i < offset + b.len() {
            b[i - offset]
        } else if i < s.len() {
            s[i]
        } else {
            0u8
        },
    )
}

/// Reading back exactly what was just written returns the written bytes.
pub proof fn lemma_write_then_read(s: Seq<u8>, offset: int, b: Seq<u8>)
    requires
        0 <= offset,
    ensures
        read_model(write_model(s, offset, b), offset, b.len() as int) == b,
{
    assert(read_model(write_model(s, offset, b), offset, b.len() as int) =~= b);
}

/// A write leaves every byte outside the written range unchanged
/// (reads of disjoint ranges agree before and after).
pub proof fn lemma_write_frame(s: Seq<u8>, offset: int, b: Seq<u8>, roff: int, rlen: int)
    requires
        0 <= offset,
        0 <= roff,
        0 <= rlen,
        roff + rlen <= offset || offset + b.len() <= roff,
    ensures
        read_model(write_model(s, offset, b), roff, rlen) == read_model(s, roff, rlen),
{
    assert(read_model(write_model(s, offset, b), roff, rlen) =~= read_model(s, roff, rlen));
}

/// A sequence of `n` zero bytes.
pub open spec fn spec_zeros(n: nat) -> Seq<u8> {
    Seq::new(n, |i: int| 0u8)
}

} // verus!

verus! {

/// The four bytes of `x`, most significant first.
pub open spec fn spec_u32_to_be_bytes(x: u32) -> Seq<u8> {
    seq![
        ((x >> 24) & 0xff) as u8,
        ((x >> 16) & 0xff) as u8,
        ((x >> 8) & 0xff) as u8,
        (x & 0xff) as u8,
    ]
}

/// The `u32` four most-significant-first bytes stand for.
pub open spec fn spec_u32_from_be_bytes(s: Seq<u8>) -> u32
    recommends
        s.len() == 4,
{
    ((s[0] as u32) << 24 | (s[1] as u32) << 16 | (s[2] as u32) << 8 | (s[3] as u32)) as u32
}

/// Law: a `u32` survives the big-endian byte round trip.
pub proof fn lemma_u32_be_roundtrip(x: u32)
    ensures
        spec_u32_from_be_bytes(spec_u32_to_be_bytes(x)) == x,
{
    let b0 = ((x >> 24) & 0xff) as u8;
    let b1 = ((x >> 16) & 0xff) as u8;
    let b2 = ((x >> 8) & 0xff) as u8;
    let b3 = (x & 0xff) as u8;
    assert(((b0 as u32) << 24 | (b1 as u32) << 16 | (b2 as u32) << 8 | (b3 as u32)) as u32 == x)
        by (bit_vector)
        requires
            b0 == ((x >> 24) & 0xff) as u8,
            b1 == ((x >> 16) & 0xff) as u8,
            b2 == ((x >> 8) & 0xff) as u8,
            b3 == (x & 0xff) as u8,
    ;
}

/// Encode a `u32` as four bytes, most significant first.
pub fn u32_to_be_bytes(x: u32) -> (r: Vec<u8>)
    ensures
        r@ == spec_u32_to_be_bytes(x),
{
    let mut r: Vec<u8> = Vec::new();
    r.push(((x >> 24) & 0xff) as u8);
    r.push(((x >> 16) & 0xff) as u8);
    r.push(((x >> 8) & 0xff) as u8);
    r.push((x & 0xff) as u8);
    proof {
        assert(r@ =~= spec_u32_to_be_bytes(x));
    }
    r
}

/// Decode four bytes, most significant first, into a `u32`.
pub fn u32_from_be_bytes(bytes: &[u8]) -> (r: u32)
    requires
        bytes@.len() == 4,
    ensures
        r == spec_u32_from_be_bytes(bytes@),
{
    (bytes[0] as u32) << 24 | (bytes[1] as u32) << 16 | (bytes[2] as u32) << 8 | (bytes[3] as u32)
}


/// Law: four bytes survive the round trip through a `u32` and back.
pub proof fn lemma_u32_be_bytes_inverse(s: Seq<u8>)
    requires
        s.len() == 4,
    ensures
        spec_u32_to_be_bytes(spec_u32_from_be_bytes(s)) == s,
{
    let x = spec_u32_from_be_bytes(s);
    let b0 = s[0];
    let b1 = s[1];
    let b2 = s[2];
    let b3 = s[3];
    assert(((x >> 24) & 0xff) as u8 == b0 && ((x >> 16) & 0xff) as u8 == b1 && ((x >> 8) & 0xff)
        as u8 == b2 && (x & 0xff) as u8 == b3) by (bit_vector)
        requires
            x == ((b0 as u32) << 24 | (b1 as u32) << 16 | (b2 as u32) << 8 | (b3 as u32)) as u32,
    ;
    assert(spec_u32_to_be_bytes(x) =~= s);
}

/// The eight bytes of `x`, most significant first.
pub open spec fn spec_u64_to_be_bytes(x: u64) -> Seq<u8> {
    seq![
        ((x >> 56) & 0xff) as u8,
        ((x >> 48) & 0xff) as u8,
        ((x >> 40) & 0xff) as u8,
        ((x >> 32) & 0xff) as u8,
        ((x >> 24) & 0xff) as u8,
        ((x >> 16) & 0xff) as u8,
        ((x >> 8) & 0xff) as u8,
        (x & 0xff) as u8,
    ]
}

/// The `u64` eight most-significant-first bytes stand for.
pub open spec fn spec_u64_from_be_bytes(s: Seq<u8>) -> u64
    recommends
        s.len() == 8,
{
    ((s[0] as u64) << 56 | (s[1] as u64) << 48 | (s[2] as u64) << 40 | (s[3] as u64) << 32 | (
    s[4] as u64) << 24 | (s[5] as u64) << 16 | (s[6] as u64) << 8 | (s[7] as u64)) as u64
}

/// Law: a `u64` survives the big-endian byte round trip.
pub proof fn lemma_u64_be_roundtrip(x: u64)
    ensures
        spec_u64_from_be_bytes(spec_u64_to_be_bytes(x)) == x,
{
    let b0 = ((x >> 56) & 0xff) as u8;
    let b1 = ((x >> 48) & 0xff) as u8;
    let b2 = ((x >> 40) & 0xff) as u8;
    let b3 = ((x >> 32) & 0xff) as u8;
    let b4 = ((x >> 24) & 0xff) as u8;
    let b5 = ((x >> 16) & 0xff) as u8;
    let b6 = ((x >> 8) & 0xff) as u8;
    let b7 = (x & 0xff) as u8;
    assert(((b0 as u64) << 56 | (b1 as u64) << 48 | (b2 as u64) << 40 | (b3 as u64) << 32 | (
    b4 as u64) << 24 | (b5 as u64) << 16 | (b6 as u64) << 8 | (b7 as u64)) as u64 == x)
        by (bit_vector)
        requires
            b0 == ((x >> 56) & 0xff) as u8,
            b1 == ((x >> 48) & 0xff) as u8,
            b2 == ((x >> 40) & 0xff) as u8,
            b3 == ((x >> 32) & 0xff) as u8,
            b4 == ((x >> 24) & 0xff) as u8,
            b5 == ((x >> 16) & 0xff) as u8,
            b6 == ((x >> 8) & 0xff) as u8,
            b7 == (x & 0xff) as u8,
    ;
}

/// Encode a `u64` as eight bytes, most significant first.
pub fn u64_to_be_bytes(x: u64) -> (r: Vec<u8>)
    ensures
        r@ == spec_u64_to_be_bytes(x),
{
    let mut r: Vec<u8> = Vec::new();
    r.push(((x >> 56) & 0xff) as u8);
    r.push(((x >> 48) & 0xff) as u8);
    r.push(((x >> 40) & 0xff) as u8);
    r.push(((x >> 32) & 0xff) as u8);
    r.push(((x >> 24) & 0xff) as u8);
    r.push(((x >> 16) & 0xff) as u8);
    r.push(((x >> 8) & 0xff) as u8);
    r.push((x & 0xff) as u8);
    proof {
        assert(r@ =~= spec_u64_to_be_bytes(x));
    }
    r
}

/// Decode eight bytes, most significant first, into a `u64`.
pub fn u64_from_be_bytes(bytes: &[u8]) -> (r: u64)
    requires
        bytes@.len() == 8,
    ensures
        r == spec_u64_from_be_bytes(bytes@),
{
    (bytes[0] as u64) << 56 | (bytes[1] as u64) << 48 | (bytes[2] as u64) << 40 | (
    bytes[3] as u64) << 32 | (bytes[4] as u64) << 24 | (bytes[5] as u64) << 16 | (
    bytes[6] as u64) << 8 | (bytes[7] as u64)
}

} // verus!
