//! Big-endian integers as MessagePack lays them out, and the readers that
//! turn the leading bytes of a slice into a number.

use byteorder::ByteOrder;
use vstd::prelude::*;

verus! {

/// The number that the first two bytes of `s` spell, most significant first.
pub open spec fn be16(s: Seq<u8>) -> int {
    s[0] * 0x100 + s[1]
}

/// The number that the first four bytes of `s` spell, most significant first.
pub open spec fn be32(s: Seq<u8>) -> int {
    be16(s) * 0x1_0000 + be16(s.skip(2))
}

/// The number that the first eight bytes of `s` spell, most significant first.
pub open spec fn be64(s: Seq<u8>) -> int {
    be32(s) * 0x1_0000_0000 + be32(s.skip(4))
}

/// The two's-complement reading of `raw` as a signed number of `2 * half`
/// distinct values: the upper half of the range stands for the negatives.
pub open spec fn signed(raw: int, half: int) -> int {
    if raw < half {
        raw
    } else {
        raw - 2 * half
    }
}

/// The two big-endian bytes of `v`.
pub open spec fn be16_bytes(v: int) -> Seq<u8> {
    seq![(v / 0x100) as u8, (v % 0x100) as u8]
}

/// The four big-endian bytes of `v`.
pub open spec fn be32_bytes(v: int) -> Seq<u8> {
    be16_bytes(v / 0x1_0000) + be16_bytes(v % 0x1_0000)
}

/// The eight big-endian bytes of `v`.
pub open spec fn be64_bytes(v: int) -> Seq<u8> {
    be32_bytes(v / 0x1_0000_0000) + be32_bytes(v % 0x1_0000_0000)
}

/// `v` as the unsigned number with the same `2 * half`-valued two's-complement
/// bit pattern.
pub open spec fn unsigned(v: int, half: int) -> int {
    if v < 0 {
        v + 2 * half
    } else {
        v
    }
}

/// Calls `byteorder::BigEndian::read_u16`, which panics on fewer than two
/// bytes and otherwise returns the big-endian value of the first two.
#[verifier::external_body]
pub(crate) fn read_be_u16(buf: &[u8]) -> (v: u16)
    requires
        buf@.len() >= 2,
    ensures
        v == be16(buf@),
{
    byteorder::BigEndian::read_u16(buf)
}

/// Calls `byteorder::BigEndian::read_u32`, which panics on fewer than four
/// bytes and otherwise returns the big-endian value of the first four.
#[verifier::external_body]
pub(crate) fn read_be_u32(buf: &[u8]) -> (v: u32)
    requires
        buf@.len() >= 4,
    ensures
        v == be32(buf@),
{
    byteorder::BigEndian::read_u32(buf)
}

/// Calls `byteorder::BigEndian::read_u64`, which panics on fewer than eight
/// bytes and otherwise returns the big-endian value of the first eight.
#[verifier::external_body]
pub(crate) fn read_be_u64(buf: &[u8]) -> (v: u64)
    requires
        buf@.len() >= 8,
    ensures
        v == be64(buf@),
{
    byteorder::BigEndian::read_u64(buf)
}

/// Calls `byteorder::BigEndian::read_i16`: the big-endian value of the first
/// two bytes, read as two's complement. Panics on fewer than two bytes.
#[verifier::external_body]
pub(crate) fn read_be_i16(buf: &[u8]) -> (v: i16)
    requires
        buf@.len() >= 2,
    ensures
        v == signed(be16(buf@), 0x8000),
{
    byteorder::BigEndian::read_i16(buf)
}

/// Calls `byteorder::BigEndian::read_i32`: the big-endian value of the first
/// four bytes, read as two's complement. Panics on fewer than four bytes.
#[verifier::external_body]
pub(crate) fn read_be_i32(buf: &[u8]) -> (v: i32)
    requires
        buf@.len() >= 4,
    ensures
        v == signed(be32(buf@), 0x8000_0000),
{
    byteorder::BigEndian::read_i32(buf)
}

/// Calls `byteorder::BigEndian::read_i64`: the big-endian value of the first
/// eight bytes, read as two's complement. Panics on fewer than eight bytes.
#[verifier::external_body]
pub(crate) fn read_be_i64(buf: &[u8]) -> (v: i64)
    requires
        buf@.len() >= 8,
    ensures
        v == signed(be64(buf@), 0x8000_0000_0000_0000),
{
    byteorder::BigEndian::read_i64(buf)
}

/// Reading back the bytes of a 16-bit number gives the number, whatever
/// follows them.
pub proof fn lemma_be16_round_trip(v: int, tail: Seq<u8>)
    requires
        0 <= v < 0x1_0000,
    ensures
        be16_bytes(v).len() == 2,
        be16(be16_bytes(v) + tail) == v,
{
}

/// Reading back the bytes of a 32-bit number gives the number, whatever
/// follows them.
pub proof fn lemma_be32_round_trip(v: int, tail: Seq<u8>)
    requires
        0 <= v < 0x1_0000_0000,
    ensures
        be32_bytes(v).len() == 4,
        be32(be32_bytes(v) + tail) == v,
{
    let hi = v / 0x1_0000;
    let lo = v % 0x1_0000;
    lemma_be16_round_trip(hi, be16_bytes(lo) + tail);
    lemma_be16_round_trip(lo, tail);
    assert(be32_bytes(v) + tail =~= be16_bytes(hi) + (be16_bytes(lo) + tail));
    assert((be32_bytes(v) + tail).skip(2) =~= be16_bytes(lo) + tail);
}

/// Reading back the bytes of a 64-bit number gives the number, whatever
/// follows them.
pub proof fn lemma_be64_round_trip(v: int, tail: Seq<u8>)
    requires
        0 <= v < 0x1_0000_0000_0000_0000,
    ensures
        be64_bytes(v).len() == 8,
        be64(be64_bytes(v) + tail) == v,
{
    let hi = v / 0x1_0000_0000;
    let lo = v % 0x1_0000_0000;
    lemma_be32_round_trip(hi, be32_bytes(lo) + tail);
    lemma_be32_round_trip(lo, tail);
    assert(be64_bytes(v) + tail =~= be32_bytes(hi) + (be32_bytes(lo) + tail));
    assert((be64_bytes(v) + tail).skip(4) =~= be32_bytes(lo) + tail);
}

} // verus!
