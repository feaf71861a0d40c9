//! Little-endian encoding of the integers that make up a profile stream.
use byteorder::{ByteOrder, LittleEndian, WriteBytesExt};
use vstd::prelude::*;

verus! {

/// The four bytes of `v`, least significant first.
pub open spec fn le_bytes_u32(v: u32) -> Seq<u8> {
    seq![v as u8, (v >> 8u32) as u8, (v >> 16u32) as u8, (v >> 24u32) as u8]
}

/// The eight bytes of `v`, least significant first.
pub open spec fn le_bytes_u64(v: u64) -> Seq<u8> {
    seq![
        v as u8,
        (v >> 8u64) as u8,
        (v >> 16u64) as u8,
        (v >> 24u64) as u8,
        (v >> 32u64) as u8,
        (v >> 40u64) as u8,
        (v >> 48u64) as u8,
        (v >> 56u64) as u8,
    ]
}

/// The eight bytes of the two's complement of `v`, least significant first.
pub open spec fn le_bytes_i64(v: i64) -> Seq<u8> {
    le_bytes_u64(v as u64)
}

/// The `u32` whose little-endian bytes start `b`.
pub open spec fn u32_from_le(b: Seq<u8>) -> u32 {
    (b[0] as u32) | ((b[1] as u32) << 8u32) | ((b[2] as u32) << 16u32) | ((b[3] as u32) << 24u32)
}

/// The `u64` whose little-endian bytes start `b`.
pub open spec fn u64_from_le(b: Seq<u8>) -> u64 {
    (b[0] as u64) | ((b[1] as u64) << 8u64) | ((b[2] as u64) << 16u64) | ((b[3] as u64) << 24u64)
        | ((b[4] as u64) << 32u64) | ((b[5] as u64) << 40u64) | ((b[6] as u64) << 48u64) | ((
    b[7] as u64) << 56u64)
}

/// The `i64` whose little-endian two's complement bytes start `b`.
pub open spec fn i64_from_le(b: Seq<u8>) -> i64 {
    u64_from_le(b) as i64
}

/// Decoding the encoding of a `u32` gives it back.
pub proof fn lemma_u32_roundtrip(v: u32)
    ensures
        u32_from_le(le_bytes_u32(v)) == v,
{
    let b0 = v as u8;
    let b1 = (v >> 8u32) as u8;
    let b2 = (v >> 16u32) as u8;
    let b3 = (v >> 24u32) as u8;
    assert((b0 as u32) | ((b1 as u32) << 8u32) | ((b2 as u32) << 16u32) | ((b3 as u32) << 24u32)
        == v) by (bit_vector)
        requires
            b0 == v as u8,
            b1 == (v >> 8u32) as u8,
            b2 == (v >> 16u32) as u8,
            b3 == (v >> 24u32) as u8,
    ;
}

/// Decoding the encoding of a `u64` gives it back.
pub proof fn lemma_u64_roundtrip(v: u64)
    ensures
        u64_from_le(le_bytes_u64(v)) == v,
{
    let b0 = v as u8;
    let b1 = (v >> 8u64) as u8;
    let b2 = (v >> 16u64) as u8;
    let b3 = (v >> 24u64) as u8;
    let b4 = (v >> 32u64) as u8;
    let b5 = (v >> 40u64) as u8;
    let b6 = (v >> 48u64) as u8;
    let b7 = (v >> 56u64) as u8;
    assert((b0 as u64) | ((b1 as u64) << 8u64) | ((b2 as u64) << 16u64) | ((b3 as u64) << 24u64)
        | ((b4 as u64) << 32u64) | ((b5 as u64) << 40u64) | ((b6 as u64) << 48u64) | ((b7 as u64)
        << 56u64) == v) by (bit_vector)
        requires
            b0 == v as u8,
            b1 == (v >> 8u64) as u8,
            b2 == (v >> 16u64) as u8,
            b3 == (v >> 24u64) as u8,
            b4 == (v >> 32u64) as u8,
            b5 == (v >> 40u64) as u8,
            b6 == (v >> 48u64) as u8,
            b7 == (v >> 56u64) as u8,
    ;
}

/// Decoding the encoding of an `i64` gives it back.
pub proof fn lemma_i64_roundtrip(v: i64)
    ensures
        i64_from_le(le_bytes_i64(v)) == v,
{
    lemma_u64_roundtrip(v as u64);
    assert((v as u64) as i64 == v) by (bit_vector);
}

/// Appends the little-endian bytes of `n` (byteorder's `WriteBytesExt::write_u32`).
///
/// Writing into a `Vec<u8>` cannot fail: the contract states that the four bytes
/// of `n`, least significant first, are appended.
#[verifier::external_body]
pub(crate) fn push_u32_le(buf: &mut Vec<u8>, n: u32)
    ensures
        final(buf)@ == old(buf)@ + le_bytes_u32(n),
{
    buf.write_u32::<LittleEndian>(n).expect("writing into a Vec cannot fail");
}

/// Appends the little-endian bytes of `n` (byteorder's `WriteBytesExt::write_u64`).
///
/// Writing into a `Vec<u8>` cannot fail: the contract states that the eight bytes
/// of `n`, least significant first, are appended.
#[verifier::external_body]
pub(crate) fn push_u64_le(buf: &mut Vec<u8>, n: u64)
    ensures
        final(buf)@ == old(buf)@ + le_bytes_u64(n),
{
    buf.write_u64::<LittleEndian>(n).expect("writing into a Vec cannot fail");
}

/// Appends the little-endian two's complement bytes of `n`
/// (byteorder's `WriteBytesExt::write_i64`).
#[verifier::external_body]
pub(crate) fn push_i64_le(buf: &mut Vec<u8>, n: i64)
    ensures
        final(buf)@ == old(buf)@ + le_bytes_i64(n),
{
    buf.write_i64::<LittleEndian>(n).expect("writing into a Vec cannot fail");
}

/// Overwrites the eight bytes at `offset` with the little-endian bytes of `n`
/// (byteorder's `ByteOrder::write_u64` on that sub-slice; it panics only on a
/// slice shorter than eight bytes, which `requires` rules out).
#[verifier::external_body]
pub(crate) fn write_u64_le_at(buf: &mut Vec<u8>, offset: usize, n: u64)
    requires
        offset + 8 <= old(buf)@.len(),
    ensures
        final(buf)@ == old(buf)@.subrange(0, offset as int) + le_bytes_u64(n) + old(
            buf,
        )@.subrange(offset + 8, old(buf)@.len() as int),
{
    LittleEndian::write_u64(&mut buf[offset..offset + 8], n);
}

/// Overwrites the eight bytes at `offset` with the little-endian two's complement
/// bytes of `n` (byteorder's `ByteOrder::write_i64` on that sub-slice).
#[verifier::external_body]
pub(crate) fn write_i64_le_at(buf: &mut Vec<u8>, offset: usize, n: i64)
    requires
        offset + 8 <= old(buf)@.len(),
    ensures
        final(buf)@ == old(buf)@.subrange(0, offset as int) + le_bytes_i64(n) + old(
            buf,
        )@.subrange(offset + 8, old(buf)@.len() as int),
{
    LittleEndian::write_i64(&mut buf[offset..offset + 8], n);
}

/// Reads a `u32` from the first four bytes (byteorder's `ByteOrder::read_u32`,
/// which panics only on a slice shorter than four bytes).
#[verifier::external_body]
pub(crate) fn read_u32_le(buf: &[u8]) -> (r: u32)
    requires
        buf@.len() >= 4,
    ensures
        r == u32_from_le(buf@),
{
    LittleEndian::read_u32(buf)
}

/// Reads a `u64` from the first eight bytes (byteorder's `ByteOrder::read_u64`,
/// which panics only on a slice shorter than eight bytes).
#[verifier::external_body]
pub(crate) fn read_u64_le(buf: &[u8]) -> (r: u64)
    requires
        buf@.len() >= 8,
    ensures
        r == u64_from_le(buf@),
{
    LittleEndian::read_u64(buf)
}

/// Reads an `i64` from the first eight bytes (byteorder's `ByteOrder::read_i64`,
/// which panics only on a slice shorter than eight bytes).
#[verifier::external_body]
pub(crate) fn read_i64_le(buf: &[u8]) -> (r: i64)
    requires
        buf@.len() >= 8,
    ensures
        r == i64_from_le(buf@),
{
    LittleEndian::read_i64(buf)
}

} // verus!
