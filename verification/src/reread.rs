//! What the reader makes of what the packer wrote: every value that was
//! written is read back, whatever follows it.

use crate::encode::{
    bin_bytes, bin_header, header_len, sint_bytes, str_bytes, str_header, uint_bytes,
};
use crate::endian::{
    be16_bytes, be32_bytes, be64_bytes, lemma_be16_round_trip, lemma_be32_round_trip,
    lemma_be64_round_trip,
};
use crate::error::ReadFault;
use crate::escape::json_escaped;
use crate::msgpack::{
    event_after, event_at, length_after, marker_of, payload_after, Marker, Token,
};
use crate::pack::{fits, token_bytes};
use vstd::prelude::*;
use vstd::utf8::{encode_utf8, encode_utf8_decode_utf8, encode_utf8_valid_utf8};

verus! {

/// The token that is read back from what was written for `token`: the same
/// one, but that a signed number that is not negative comes back unsigned.
pub open spec fn reread(token: Token) -> Token {
    match token {
        Token::SInt(v) => if v >= 0 {
            Token::UInt(v as u64)
        } else {
            token
        },
        Token::Str(s) => Token::Str(json_escaped(s)),
        _ => token,
    }
}

/// An unsigned number is read back as it was written.
pub proof fn lemma_reread_uint(v: u64, tail: Seq<u8>)
    ensures
        event_at(uint_bytes(v) + tail) == Ok::<(Token, nat), ReadFault>(
            (Token::UInt(v), uint_bytes(v).len()),
        ),
{
    reveal(marker_of);
    reveal(event_after);
    let input = uint_bytes(v) + tail;
    let body = input.skip(1);
    if v < 0x80 {
    } else if v < 0x100 {
    } else if v < 0x1_0000 {
        lemma_be16_round_trip(v as int, tail);
        assert(body =~= be16_bytes(v as int) + tail);
    } else if v < 0x1_0000_0000 {
        lemma_be32_round_trip(v as int, tail);
        assert(body =~= be32_bytes(v as int) + tail);
    } else {
        lemma_be64_round_trip(v as int, tail);
        assert(body =~= be64_bytes(v as int) + tail);
    }
}

/// A negative number of at most 8 bits is read back as it was written.
proof fn lemma_reread_i8(v: i64, tail: Seq<u8>)
    requires
        -0x80 <= v < 0,
    ensures
        event_at(sint_bytes(v) + tail) == Ok::<(Token, nat), ReadFault>(
            (Token::SInt(v), sint_bytes(v).len()),
        ),
{
    reveal(marker_of);
    reveal(event_after);
    let input = sint_bytes(v) + tail;
    if v >= -0x20 {
        assert(input[0] == (v + 0x100) as u8);
    } else {
        assert(input[0] == 0xd0u8);
        assert(input.skip(1)[0] == (v + 0x100) as u8);
    }
}

/// A negative number of 16 bits is read back as it was written.
proof fn lemma_reread_i16(v: i64, tail: Seq<u8>)
    requires
        -0x8000 <= v < -0x80,
    ensures
        event_at(sint_bytes(v) + tail) == Ok::<(Token, nat), ReadFault>(
            (Token::SInt(v), sint_bytes(v).len()),
        ),
{
    reveal(marker_of);
    reveal(event_after);
    let input = sint_bytes(v) + tail;
    assert(input[0] == 0xd1u8);
    lemma_be16_round_trip(v + 0x1_0000, tail);
    assert(input.skip(1) =~= be16_bytes(v + 0x1_0000) + tail);
}

/// A negative number of 32 bits is read back as it was written.
proof fn lemma_reread_i32(v: i64, tail: Seq<u8>)
    requires
        -0x8000_0000 <= v < -0x8000,
    ensures
        event_at(sint_bytes(v) + tail) == Ok::<(Token, nat), ReadFault>(
            (Token::SInt(v), sint_bytes(v).len()),
        ),
{
    reveal(marker_of);
    reveal(event_after);
    let input = sint_bytes(v) + tail;
    assert(input[0] == 0xd2u8);
    lemma_be32_round_trip(v + 0x1_0000_0000, tail);
    assert(input.skip(1) =~= be32_bytes(v + 0x1_0000_0000) + tail);
}

/// A negative number of 64 bits is read back as it was written.
proof fn lemma_reread_i64(v: i64, tail: Seq<u8>)
    requires
        v < -0x8000_0000,
    ensures
        event_at(sint_bytes(v) + tail) == Ok::<(Token, nat), ReadFault>(
            (Token::SInt(v), sint_bytes(v).len()),
        ),
{
    reveal(marker_of);
    reveal(event_after);
    let input = sint_bytes(v) + tail;
    assert(input[0] == 0xd3u8);
    lemma_be64_round_trip(v + 0x1_0000_0000_0000_0000, tail);
    assert(input.skip(1) =~= be64_bytes(v + 0x1_0000_0000_0000_0000) + tail);
}

/// A signed number is read back with the value that was written.
pub proof fn lemma_reread_sint(v: i64, tail: Seq<u8>)
    ensures
        event_at(sint_bytes(v) + tail) == Ok::<(Token, nat), ReadFault>(
            (reread(Token::SInt(v)), sint_bytes(v).len()),
        ),
{
    if v >= 0 {
        lemma_reread_uint(v as u64, tail);
    } else if v >= -0x80 {
        lemma_reread_i8(v, tail);
    } else if v >= -0x8000 {
        lemma_reread_i16(v, tail);
    } else if v >= -0x8000_0000 {
        lemma_reread_i32(v, tail);
    } else {
        lemma_reread_i64(v, tail);
    }
}

/// A float is read back with the bits that were written.
pub proof fn lemma_reread_float(token: Token, tail: Seq<u8>)
    requires
        token is F32 || token is F64,
    ensures
        event_at(token_bytes(token) + tail) == Ok::<(Token, nat), ReadFault>(
            (token, token_bytes(token).len()),
        ),
{
    reveal(marker_of);
    reveal(event_after);
    let input = token_bytes(token) + tail;
    let body = input.skip(1);
    match token {
        Token::F32(bits) => {
            lemma_be32_round_trip(bits as int, tail);
            assert(body =~= be32_bytes(bits as int) + tail);
        },
        Token::F64(bits) => {
            lemma_be64_round_trip(bits as int, tail);
            assert(body =~= be64_bytes(bits as int) + tail);
        },
        _ => {},
    }
}

/// The header of an array or of a map is read back with the count that was
/// written.
pub proof fn lemma_reread_header(token: Token, tail: Seq<u8>)
    requires
        token is StartArray || token is StartObject,
        fits(token),
    ensures
        event_at(token_bytes(token) + tail) == Ok::<(Token, nat), ReadFault>(
            (token, token_bytes(token).len()),
        ),
{
    reveal(marker_of);
    reveal(event_after);
    let input = token_bytes(token) + tail;
    let body = input.skip(1);
    let n: nat = match token {
        Token::StartArray(n) => n,
        Token::StartObject(n) => n,
        _ => 0,
    };
    if n < 0x10 {
    } else if n < 0x1_0000 {
        lemma_be16_round_trip(n as int, tail);
        assert(body =~= be16_bytes(n as int) + tail);
    } else {
        lemma_be32_round_trip(n as int, tail);
        assert(body =~= be32_bytes(n as int) + tail);
    }
}

/// Where the marker `m` announces `bytes.len()` in the `head` that follows
/// it, its payload is `bytes`.
proof fn lemma_payload(m: Marker, head: Seq<u8>, bytes: Seq<u8>, tail: Seq<u8>)
    requires
        length_after(m, head + (bytes + tail)) == Ok::<(nat, nat), ReadFault>(
            (bytes.len(), head.len()),
        ),
    ensures
        payload_after(m, head + (bytes + tail)) == Ok::<(Seq<u8>, nat), ReadFault>(
            (bytes, head.len() + bytes.len()),
        ),
{
    let body = head + (bytes + tail);
    assert(body.subrange(head.len() as int, (head.len() + bytes.len()) as int) =~= bytes);
}

/// The header of a string or a byte string announces the length that was
/// written into it: `first` is the marker byte and `head` what follows it.
proof fn lemma_length(first: u8, head: Seq<u8>, len: nat, rest: Seq<u8>)
    requires
        len <= u32::MAX,
        ({
            ||| seq![first] + head == str_header(len as u32)
            ||| seq![first] + head == bin_header(len as u32)
        }),
    ensures
        length_after(marker_of(first), head + rest) == Ok::<(nat, nat), ReadFault>(
            (len, head.len()),
        ),
        marker_of(first).is_str() <==> seq![first] + head == str_header(len as u32),
        marker_of(first) is Bin8 || marker_of(first) is Bin16 || marker_of(first) is Bin32 <==> seq![
            first,
        ] + head == bin_header(len as u32),
{
    reveal(marker_of);
    let whole = seq![first] + head;
    assert(whole[0] == first);
    assert(whole.skip(1) =~= head);
    if whole == str_header(len as u32) {
        if len < 0x20 {
            assert(head =~= Seq::<u8>::empty());
        } else if len < 0x100 {
            assert(head =~= seq![len as u8]);
            assert((head + rest)[0] == len as u8);
        } else if len < 0x1_0000 {
            assert(head =~= be16_bytes(len as int));
            lemma_be16_round_trip(len as int, rest);
        } else {
            assert(head =~= be32_bytes(len as int));
            lemma_be32_round_trip(len as int, rest);
        }
    } else {
        if len < 0x100 {
            assert(head =~= seq![len as u8]);
            assert((head + rest)[0] == len as u8);
        } else if len < 0x1_0000 {
            assert(head =~= be16_bytes(len as int));
            lemma_be16_round_trip(len as int, rest);
        } else {
            assert(head =~= be32_bytes(len as int));
            lemma_be32_round_trip(len as int, rest);
        }
    }
}

/// A string is read back as it was written.
pub proof fn lemma_reread_str(s: Seq<char>, tail: Seq<u8>)
    requires
        encode_utf8(s).len() <= u32::MAX,
    ensures
        event_at(str_bytes(encode_utf8(s)) + tail) == Ok::<(Token, nat), ReadFault>(
            (Token::Str(s), str_bytes(encode_utf8(s)).len()),
        ),
{
    let bytes = encode_utf8(s);
    let len = bytes.len();
    let header = str_header(len as u32);
    let input = str_bytes(bytes) + tail;
    let first = header[0];
    let head = header.skip(1);
    encode_utf8_valid_utf8(s);
    encode_utf8_decode_utf8(s);
    assert(header_len(len) == len);
    assert(seq![first] + head =~= header);
    assert(input[0] == first);
    assert(input.skip(1) =~= head + (bytes + tail));
    lemma_length(first, head, len, bytes + tail);
    lemma_payload(marker_of(first), head, bytes, tail);
    reveal(event_after);
}

/// A byte string is read back as it was written.
pub proof fn lemma_reread_bin(bytes: Seq<u8>, tail: Seq<u8>)
    requires
        bytes.len() <= u32::MAX,
    ensures
        event_at(bin_bytes(bytes) + tail) == Ok::<(Token, nat), ReadFault>(
            (Token::Bytes(bytes), bin_bytes(bytes).len()),
        ),
{
    let len = bytes.len();
    let header = bin_header(len as u32);
    let input = bin_bytes(bytes) + tail;
    let first = header[0];
    let head = header.skip(1);
    assert(header_len(len) == len);
    assert(seq![first] + head =~= header);
    assert(input[0] == first);
    assert(input.skip(1) =~= head + (bytes + tail));
    lemma_length(first, head, len, bytes + tail);
    lemma_payload(marker_of(first), head, bytes, tail);
    reveal(event_after);
}

/// Whatever the packer wrote for a token is read back as that token, from
/// exactly the bytes that were written, whatever follows them.
pub proof fn lemma_reread(token: Token, tail: Seq<u8>)
    requires
        fits(token),
    ensures
        event_at(token_bytes(token) + tail) == Ok::<(Token, nat), ReadFault>(
            (reread(token), token_bytes(token).len()),
        ),
{
    reveal(marker_of);
    reveal(event_after);
    match token {
        Token::SInt(v) => lemma_reread_sint(v, tail),
        Token::UInt(v) => lemma_reread_uint(v, tail),
        Token::Str(s) => lemma_reread_str(json_escaped(s), tail),
        Token::Bytes(b) => lemma_reread_bin(b, tail),
        Token::F32(_) | Token::F64(_) => lemma_reread_float(token, tail),
        Token::StartObject(_) | Token::StartArray(_) => lemma_reread_header(token, tail),
        Token::Bool(_) => {},
        Token::Nil => {},
    }
}

} // verus!
