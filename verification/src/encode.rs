//! The bytes of each MessagePack value that the packer writes, and the
//! writers that append them to the output.

use crate::endian::{be16_bytes, be32_bytes, be64_bytes};
use vstd::prelude::*;
use vstd::utf8::encode_utf8;

verus! {

/// The shortest MessagePack encoding of the unsigned number `v`.
pub open spec fn uint_bytes(v: u64) -> Seq<u8> {
    if v < 0x80 {
        seq![v as u8]
    } else if v < 0x100 {
        seq![0xccu8, v as u8]
    } else if v < 0x1_0000 {
        seq![0xcdu8] + be16_bytes(v as int)
    } else if v < 0x1_0000_0000 {
        seq![0xceu8] + be32_bytes(v as int)
    } else {
        seq![0xcfu8] + be64_bytes(v as int)
    }
}

/// The shortest MessagePack encoding of the signed number `v`. One that is
/// not negative is written as the unsigned number it is.
pub open spec fn sint_bytes(v: i64) -> Seq<u8> {
    if v >= 0 {
        uint_bytes(v as u64)
    } else if v >= -0x20 {
        seq![(v + 0x100) as u8]
    } else if v >= -0x80 {
        seq![0xd0u8, (v + 0x100) as u8]
    } else if v >= -0x8000 {
        seq![0xd1u8] + be16_bytes(v + 0x1_0000)
    } else if v >= -0x8000_0000 {
        seq![0xd2u8] + be32_bytes(v + 0x1_0000_0000)
    } else {
        seq![0xd3u8] + be64_bytes(v + 0x1_0000_0000_0000_0000)
    }
}

/// The header of a string of `len` bytes.
pub open spec fn str_header(len: u32) -> Seq<u8> {
    if len < 0x20 {
        seq![(0xa0 + len) as u8]
    } else if len < 0x100 {
        seq![0xd9u8, len as u8]
    } else if len < 0x1_0000 {
        seq![0xdau8] + be16_bytes(len as int)
    } else {
        seq![0xdbu8] + be32_bytes(len as int)
    }
}

/// The header of a byte string of `len` bytes.
pub open spec fn bin_header(len: u32) -> Seq<u8> {
    if len < 0x100 {
        seq![0xc4u8, len as u8]
    } else if len < 0x1_0000 {
        seq![0xc5u8] + be16_bytes(len as int)
    } else {
        seq![0xc6u8] + be32_bytes(len as int)
    }
}

/// The header of an array of `len` values.
pub open spec fn array_header(len: u32) -> Seq<u8> {
    if len < 0x10 {
        seq![(0x90 + len) as u8]
    } else if len < 0x1_0000 {
        seq![0xdcu8] + be16_bytes(len as int)
    } else {
        seq![0xddu8] + be32_bytes(len as int)
    }
}

/// The header of a map of `len` pairs.
pub open spec fn map_header(len: u32) -> Seq<u8> {
    if len < 0x10 {
        seq![(0x80 + len) as u8]
    } else if len < 0x1_0000 {
        seq![0xdeu8] + be16_bytes(len as int)
    } else {
        seq![0xdfu8] + be32_bytes(len as int)
    }
}

/// A length as the 32 bits that a header has room for: the low 32 bits of
/// one that is larger.
pub open spec fn header_len(len: nat) -> u32 {
    (len % 0x1_0000_0000) as u32
}

/// The encoding of the string whose UTF-8 bytes are `bytes`.
pub open spec fn str_bytes(bytes: Seq<u8>) -> Seq<u8> {
    str_header(header_len(bytes.len())) + bytes
}

/// The encoding of the byte string `bytes`.
pub open spec fn bin_bytes(bytes: Seq<u8>) -> Seq<u8> {
    bin_header(header_len(bytes.len())) + bytes
}

/// The encoding of a boolean.
pub open spec fn bool_bytes(v: bool) -> Seq<u8> {
    if v {
        seq![0xc3u8]
    } else {
        seq![0xc2u8]
    }
}

/// The encoding of nil.
pub open spec fn nil_bytes() -> Seq<u8> {
    seq![0xc0u8]
}

/// The encoding of the 32-bit float with the bit pattern `bits`.
pub open spec fn f32_bytes(bits: u32) -> Seq<u8> {
    seq![0xcau8] + be32_bytes(bits as int)
}

/// The encoding of the 64-bit float with the bit pattern `bits`.
pub open spec fn f64_bytes(bits: u64) -> Seq<u8> {
    seq![0xcbu8] + be64_bytes(bits as int)
}

/// Calls `rmp::encode::write_uint`, which writes `v` in the shortest of the
/// unsigned forms. Its only failure is that of the writer, and a `Vec` takes
/// every write.
#[verifier::external_body]
pub(crate) fn write_uint(out: &mut Vec<u8>, v: u64)
    ensures
        final(out)@ == old(out)@ + uint_bytes(v),
{
    let _ = rmp::encode::write_uint(out, v);
}

/// Calls `rmp::encode::write_sint`, which writes `v` in the shortest form:
/// a signed one where `v` is negative, else an unsigned one. Its only
/// failure is that of the writer, and a `Vec` takes every write.
#[verifier::external_body]
pub(crate) fn write_sint(out: &mut Vec<u8>, v: i64)
    ensures
        final(out)@ == old(out)@ + sint_bytes(v),
{
    let _ = rmp::encode::write_sint(out, v);
}

/// Calls `rmp::encode::write_str`, which writes the header for the length of
/// `s` in bytes, cut to 32 bits, and then the bytes of `s`. Its only failure
/// is that of the writer, and a `Vec` takes every write.
#[verifier::external_body]
pub(crate) fn write_str(out: &mut Vec<u8>, s: &str)
    ensures
        final(out)@ == old(out)@ + str_bytes(encode_utf8(s@)),
{
    let _ = rmp::encode::write_str(out, s);
}

/// Calls `rmp::encode::write_bin`, which writes the header for the length of
/// `data`, cut to 32 bits, and then `data`. Its only failure is that of the
/// writer, and a `Vec` takes every write.
#[verifier::external_body]
pub(crate) fn write_bin(out: &mut Vec<u8>, data: &[u8])
    ensures
        final(out)@ == old(out)@ + bin_bytes(data@),
{
    let _ = rmp::encode::write_bin(out, data);
}

/// Calls `rmp::encode::write_bool`, which writes the one byte that stands
/// for `v`. Its only failure is that of the writer, and a `Vec` takes every
/// write.
#[verifier::external_body]
pub(crate) fn write_bool(out: &mut Vec<u8>, v: bool)
    ensures
        final(out)@ == old(out)@ + bool_bytes(v),
{
    let _ = rmp::encode::write_bool(out, v);
}

/// Calls `rmp::encode::write_nil`, which writes the one byte that stands for
/// nil. Its only failure is that of the writer, and a `Vec` takes every
/// write.
#[verifier::external_body]
pub(crate) fn write_nil(out: &mut Vec<u8>)
    ensures
        final(out)@ == old(out)@ + nil_bytes(),
{
    let _ = rmp::encode::write_nil(out);
}

/// Calls `rmp::encode::write_array_len`, which writes the shortest array
/// header for `len`. Its only failure is that of the writer, and a `Vec`
/// takes every write.
#[verifier::external_body]
pub(crate) fn write_array_len(out: &mut Vec<u8>, len: u32)
    ensures
        final(out)@ == old(out)@ + array_header(len),
{
    let _ = rmp::encode::write_array_len(out, len);
}

/// Calls `rmp::encode::write_map_len`, which writes the shortest map header
/// for `len`. Its only failure is that of the writer, and a `Vec` takes every
/// write.
#[verifier::external_body]
pub(crate) fn write_map_len(out: &mut Vec<u8>, len: u32)
    ensures
        final(out)@ == old(out)@ + map_header(len),
{
    let _ = rmp::encode::write_map_len(out, len);
}

/// Appends the two big-endian bytes of `v`.
fn push_be16(out: &mut Vec<u8>, v: u16)
    ensures
        final(out)@ == old(out)@ + be16_bytes(v as int),
{
    out.push((v / 0x100) as u8);
    out.push((v % 0x100) as u8);
    assert(out@ =~= old(out)@ + be16_bytes(v as int));
}

/// Appends the four big-endian bytes of `v`.
fn push_be32(out: &mut Vec<u8>, v: u32)
    ensures
        final(out)@ == old(out)@ + be32_bytes(v as int),
{
    push_be16(out, (v / 0x1_0000) as u16);
    push_be16(out, (v % 0x1_0000) as u16);
    assert(out@ =~= old(out)@ + be32_bytes(v as int));
}

/// Writes the 32-bit float with the bit pattern `bits`.
pub fn write_f32_bits(out: &mut Vec<u8>, bits: u32)
    ensures
        final(out)@ == old(out)@ + f32_bytes(bits),
{
    out.push(0xca);
    push_be32(out, bits);
    assert(out@ =~= old(out)@ + f32_bytes(bits));
}

/// Writes the 64-bit float with the bit pattern `bits`.
pub fn write_f64_bits(out: &mut Vec<u8>, bits: u64)
    ensures
        final(out)@ == old(out)@ + f64_bytes(bits),
{
    out.push(0xcb);
    push_be32(out, (bits / 0x1_0000_0000) as u32);
    push_be32(out, (bits % 0x1_0000_0000) as u32);
    assert(out@ =~= old(out)@ + f64_bytes(bits));
}

} // verus!
