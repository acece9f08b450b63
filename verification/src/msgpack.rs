//! Reading one MessagePack value at a time from the front of a byte slice.

use crate::endian::{
    be16, be32, be64, read_be_i16, read_be_i32, read_be_i64, read_be_u16, read_be_u32,
    read_be_u64, signed,
};
use crate::error::{ReadFault, ReadValueError};
use vstd::prelude::*;
use vstd::slice::slice_subrange;
use vstd::utf8::{decode_utf8, valid_utf8};

verus! {

/// The first byte of a MessagePack value, told apart by family. The small
/// families carry their value or length in the marker itself.
#[derive(Clone, Copy, Debug)]
pub enum Marker {
    FixPos(u8),
    FixMap(u8),
    FixArray(u8),
    FixStr(u8),
    Null,
    Reserved,
    False,
    True,
    Bin8,
    Bin16,
    Bin32,
    Ext8,
    Ext16,
    Ext32,
    F32,
    F64,
    U8,
    U16,
    U32,
    U64,
    I8,
    I16,
    I32,
    I64,
    FixExt1,
    FixExt2,
    FixExt4,
    FixExt8,
    FixExt16,
    Str8,
    Str16,
    Str32,
    Array16,
    Array32,
    Map16,
    Map32,
    FixNeg(i8),
}

/// The marker that the byte `n` is.
#[verifier::opaque]
pub open spec fn marker_of(n: u8) -> Marker {
    if n <= 0x7f {
        Marker::FixPos(n)
    } else if n <= 0x8f {
        Marker::FixMap((n - 0x80) as u8)
    } else if n <= 0x9f {
        Marker::FixArray((n - 0x90) as u8)
    } else if n <= 0xbf {
        Marker::FixStr((n - 0xa0) as u8)
    } else if n == 0xc0 {
        Marker::Null
    } else if n == 0xc1 {
        Marker::Reserved
    } else if n == 0xc2 {
        Marker::False
    } else if n == 0xc3 {
        Marker::True
    } else if n == 0xc4 {
        Marker::Bin8
    } else if n == 0xc5 {
        Marker::Bin16
    } else if n == 0xc6 {
        Marker::Bin32
    } else if n == 0xc7 {
        Marker::Ext8
    } else if n == 0xc8 {
        Marker::Ext16
    } else if n == 0xc9 {
        Marker::Ext32
    } else if n == 0xca {
        Marker::F32
    } else if n == 0xcb {
        Marker::F64
    } else if n == 0xcc {
        Marker::U8
    } else if n == 0xcd {
        Marker::U16
    } else if n == 0xce {
        Marker::U32
    } else if n == 0xcf {
        Marker::U64
    } else if n == 0xd0 {
        Marker::I8
    } else if n == 0xd1 {
        Marker::I16
    } else if n == 0xd2 {
        Marker::I32
    } else if n == 0xd3 {
        Marker::I64
    } else if n == 0xd4 {
        Marker::FixExt1
    } else if n == 0xd5 {
        Marker::FixExt2
    } else if n == 0xd6 {
        Marker::FixExt4
    } else if n == 0xd7 {
        Marker::FixExt8
    } else if n == 0xd8 {
        Marker::FixExt16
    } else if n == 0xd9 {
        Marker::Str8
    } else if n == 0xda {
        Marker::Str16
    } else if n == 0xdb {
        Marker::Str32
    } else if n == 0xdc {
        Marker::Array16
    } else if n == 0xdd {
        Marker::Array32
    } else if n == 0xde {
        Marker::Map16
    } else if n == 0xdf {
        Marker::Map32
    } else {
        Marker::FixNeg((n - 0x100) as i8)
    }
}

impl Marker {
    /// Classifies a byte.
    pub fn from_u8(n: u8) -> (m: Marker)
        ensures
            m == marker_of(n),
    {
        proof {
            reveal(marker_of);
        }
        if n <= 0x7f {
            Marker::FixPos(n)
        } else if n <= 0x8f {
            Marker::FixMap(n - 0x80)
        } else if n <= 0x9f {
            Marker::FixArray(n - 0x90)
        } else if n <= 0xbf {
            Marker::FixStr(n - 0xa0)
        } else if n == 0xc0 {
            Marker::Null
        } else if n == 0xc1 {
            Marker::Reserved
        } else if n == 0xc2 {
            Marker::False
        } else if n == 0xc3 {
            Marker::True
        } else if n == 0xc4 {
            Marker::Bin8
        } else if n == 0xc5 {
            Marker::Bin16
        } else if n == 0xc6 {
            Marker::Bin32
        } else if n == 0xc7 {
            Marker::Ext8
        } else if n == 0xc8 {
            Marker::Ext16
        } else if n == 0xc9 {
            Marker::Ext32
        } else if n == 0xca {
            Marker::F32
        } else if n == 0xcb {
            Marker::F64
        } else if n == 0xcc {
            Marker::U8
        } else if n == 0xcd {
            Marker::U16
        } else if n == 0xce {
            Marker::U32
        } else if n == 0xcf {
            Marker::U64
        } else if n == 0xd0 {
            Marker::I8
        } else if n == 0xd1 {
            Marker::I16
        } else if n == 0xd2 {
            Marker::I32
        } else if n == 0xd3 {
            Marker::I64
        } else if n == 0xd4 {
            Marker::FixExt1
        } else if n == 0xd5 {
            Marker::FixExt2
        } else if n == 0xd6 {
            Marker::FixExt4
        } else if n == 0xd7 {
            Marker::FixExt8
        } else if n == 0xd8 {
            Marker::FixExt16
        } else if n == 0xd9 {
            Marker::Str8
        } else if n == 0xda {
            Marker::Str16
        } else if n == 0xdb {
            Marker::Str32
        } else if n == 0xdc {
            Marker::Array16
        } else if n == 0xdd {
            Marker::Array32
        } else if n == 0xde {
            Marker::Map16
        } else if n == 0xdf {
            Marker::Map32
        } else {
            Marker::FixNeg(byte_to_i8(n))
        }
    }

    /// Whether a value that starts with this marker is a string.
    pub open spec fn is_str(self) -> bool {
        self is FixStr || self is Str8 || self is Str16 || self is Str32
    }
}

/// The byte `n` read as two's complement.
pub fn byte_to_i8(n: u8) -> (v: i8)
    ensures
        v == signed(n as int, 0x80),
{
    if n < 0x80 {
        n as i8
    } else {
        (n as i16 - 0x100) as i8
    }
}

/// One decoded value. A string or a byte string borrows from the input. A
/// float is held as its IEEE 754 bit pattern. A container is only announced:
/// the `n` values of an array, or the `n` key and value pairs of a map,
/// follow in the input and are the caller's to read.
#[derive(Debug)]
pub enum ValueEvent<'a> {
    SInt(i64),
    UInt(u64),
    Str(&'a str),
    Bytes(&'a [u8]),
    F32(u32),
    F64(u64),
    StartObject(usize),
    StartArray(usize),
    Bool(bool),
    Nil,
}

/// [`ValueEvent`] as contracts speak of it.
pub enum Token {
    SInt(i64),
    UInt(u64),
    Str(Seq<char>),
    Bytes(Seq<u8>),
    F32(u32),
    F64(u64),
    StartObject(nat),
    StartArray(nat),
    Bool(bool),
    Nil,
}

impl<'a> View for ValueEvent<'a> {
    type V = Token;

    open spec fn view(&self) -> Token {
        match self {
            ValueEvent::SInt(v) => Token::SInt(*v),
            ValueEvent::UInt(v) => Token::UInt(*v),
            ValueEvent::Str(s) => Token::Str(s@),
            ValueEvent::Bytes(b) => Token::Bytes(b@),
            ValueEvent::F32(bits) => Token::F32(*bits),
            ValueEvent::F64(bits) => Token::F64(*bits),
            ValueEvent::StartObject(n) => Token::StartObject(*n as nat),
            ValueEvent::StartArray(n) => Token::StartArray(*n as nat),
            ValueEvent::Bool(b) => Token::Bool(*b),
            ValueEvent::Nil => Token::Nil,
        }
    }
}

/// What [`len_from_marker`] says of a marker that announces no length.
pub const NO_LENGTH: &'static str =
    "called len_from_marker on a marker without length information!";

/// The length that marker `m` announces, and how many of the bytes `body`
/// that follow the marker spell it.
pub open spec fn length_after(m: Marker, body: Seq<u8>) -> Result<(nat, nat), ReadFault> {
    match m {
        Marker::FixMap(l) | Marker::FixArray(l) | Marker::FixStr(l) => Ok((l as nat, 0)),
        Marker::Bin8 | Marker::Str8 => if body.len() >= 1 {
            Ok((body[0] as nat, 1))
        } else {
            Err(ReadFault::IOError)
        },
        Marker::Bin16 | Marker::Str16 | Marker::Array16 | Marker::Map16 => if body.len() >= 2 {
            Ok((be16(body) as nat, 2))
        } else {
            Err(ReadFault::IOError)
        },
        Marker::Bin32 | Marker::Str32 | Marker::Array32 | Marker::Map32 => if body.len() >= 4 {
            Ok((be32(body) as nat, 4))
        } else {
            Err(ReadFault::IOError)
        },
        _ => Err(ReadFault::InvalidCall(NO_LENGTH@)),
    }
}

/// `token`, read from the first `n` bytes of `body`, if there are that many.
pub open spec fn fixed(body: Seq<u8>, n: nat, token: Token) -> Result<(Token, nat), ReadFault> {
    if body.len() >= n {
        Ok((token, n))
    } else {
        Err(ReadFault::IOError)
    }
}

/// The payload that marker `m` announces: the bytes after its length, and
/// how many bytes of `body` length and payload take together.
pub open spec fn payload_after(m: Marker, body: Seq<u8>) -> Result<(Seq<u8>, nat), ReadFault> {
    match length_after(m, body) {
        Err(fault) => Err(fault),
        Ok((len, k)) => if body.len() >= k + len {
            Ok((body.subrange(k as int, (k + len) as int), k + len))
        } else {
            Err(ReadFault::IOError)
        },
    }
}

/// The value that starts with marker `m` and goes on with `body`, and how
/// many bytes of `body` belong to it.
#[verifier::opaque]
pub open spec fn event_after(m: Marker, body: Seq<u8>) -> Result<(Token, nat), ReadFault> {
    match m {
        Marker::Null => Ok((Token::Nil, 0)),
        Marker::False => Ok((Token::Bool(false), 0)),
        Marker::True => Ok((Token::Bool(true), 0)),
        Marker::F32 => fixed(body, 4, Token::F32(be32(body) as u32)),
        Marker::F64 => fixed(body, 8, Token::F64(be64(body) as u64)),
        Marker::FixPos(v) => Ok((Token::UInt(v as u64), 0)),
        Marker::U8 => fixed(body, 1, Token::UInt(body[0] as u64)),
        Marker::U16 => fixed(body, 2, Token::UInt(be16(body) as u64)),
        Marker::U32 => fixed(body, 4, Token::UInt(be32(body) as u64)),
        Marker::U64 => fixed(body, 8, Token::UInt(be64(body) as u64)),
        Marker::FixNeg(v) => Ok((Token::SInt(v as i64), 0)),
        Marker::I8 => fixed(body, 1, Token::SInt(signed(body[0] as int, 0x80) as i64)),
        Marker::I16 => fixed(body, 2, Token::SInt(signed(be16(body), 0x8000) as i64)),
        Marker::I32 => fixed(body, 4, Token::SInt(signed(be32(body), 0x8000_0000) as i64)),
        Marker::I64 => fixed(
            body,
            8,
            Token::SInt(signed(be64(body), 0x8000_0000_0000_0000) as i64),
        ),
        Marker::FixMap(_) | Marker::Map16 | Marker::Map32 => match length_after(m, body) {
            Err(fault) => Err(fault),
            Ok((len, k)) => Ok((Token::StartObject(len), k)),
        },
        Marker::FixArray(_) | Marker::Array16 | Marker::Array32 => match length_after(m, body) {
            Err(fault) => Err(fault),
            Ok((len, k)) => Ok((Token::StartArray(len), k)),
        },
        Marker::FixStr(_) | Marker::Str8 | Marker::Str16 | Marker::Str32 => match payload_after(
            m,
            body,
        ) {
            Err(fault) => Err(fault),
            Ok((bytes, k)) => if valid_utf8(bytes) {
                Ok((Token::Str(decode_utf8(bytes)), k))
            } else {
                Err(ReadFault::InvalidUTF8)
            },
        },
        Marker::Bin8 | Marker::Bin16 | Marker::Bin32 => match payload_after(m, body) {
            Err(fault) => Err(fault),
            Ok((bytes, k)) => Ok((Token::Bytes(bytes), k)),
        },
        Marker::FixExt1 | Marker::FixExt2 | Marker::FixExt4 | Marker::FixExt8
        | Marker::FixExt16 => Err(ReadFault::UnsupportedType("FixExt"@)),
        Marker::Ext8 | Marker::Ext16 | Marker::Ext32 => Err(ReadFault::UnsupportedType("Ext"@)),
        Marker::Reserved => Err(ReadFault::UnsupportedType("Reserved"@)),
    }
}

/// The value at the front of `input`, and the number of bytes it takes
/// there: for a container, those of its header alone.
pub open spec fn event_at(input: Seq<u8>) -> Result<(Token, nat), ReadFault> {
    if input.len() == 0 {
        Err(ReadFault::RmpValueRead)
    } else {
        match event_after(marker_of(input[0]), input.skip(1)) {
            Err(fault) => Err(fault),
            Ok((token, n)) => Ok((token, n + 1)),
        }
    }
}

/// A value takes at least its marker and at most what there is.
pub proof fn lemma_event_within(input: Seq<u8>)
    ensures
        event_at(input) matches Ok((_, n)) ==> 1 <= n <= input.len(),
{
    reveal(event_after);
    if input.len() > 0 {
        let m = marker_of(input[0]);
        let body = input.skip(1);
        match length_after(m, body) {
            Ok((len, k)) => {
                assert(k <= body.len());
            },
            Err(_) => {},
        }
    }
}

/// What starts as a string does is a string, if it can be read at all.
pub proof fn lemma_str_marker(input: Seq<u8>)
    requires
        input.len() > 0,
        marker_of(input[0]).is_str(),
    ensures
        event_at(input) matches Ok((token, _)) ==> token is Str,
{
    reveal(event_after);
}

/// Whether the count of a container, or the length of a byte string, is one
/// that 32 bits can hold, as every one that was read is.
pub open spec fn in_range(token: Token) -> bool {
    match token {
        Token::StartObject(n) | Token::StartArray(n) => n <= u32::MAX,
        Token::Bytes(b) => b.len() <= u32::MAX,
        _ => true,
    }
}

/// Calls `core::str::from_utf8`, which accepts exactly the byte sequences
/// that are UTF-8 and returns them as the string they encode.
#[verifier::external_body]
pub(crate) fn str_from_utf8<'a>(bytes: &'a [u8]) -> (r: Result<&'a str, core::str::Utf8Error>)
    ensures
        r is Ok <==> valid_utf8(bytes@),
        r matches Ok(s) ==> s@ == decode_utf8(bytes@),
{
    core::str::from_utf8(bytes)
}

/// Reads the length that `marker` announces from the front of `buf` and moves
/// `buf` past it. Fails, and leaves `buf` alone, where `buf` ends too early or
/// `marker` announces no length.
pub fn len_from_marker(marker: &Marker, buf: &mut &[u8]) -> (r: Result<usize, ReadValueError>)
    ensures
        match length_after(*marker, old(buf)@) {
            Ok((len, k)) => r == Ok::<usize, ReadValueError>(len as usize) && len <= u32::MAX
                && final(buf)@ == old(buf)@.skip(k as int),
            Err(fault) => r matches Err(e) && e@ == fault && final(buf)@ == old(buf)@,
        },
{
    let body: &[u8] = *buf;
    let (len, k): (usize, usize) = match marker {
        Marker::FixMap(l) | Marker::FixArray(l) | Marker::FixStr(l) => (*l as usize, 0),
        Marker::Bin8 | Marker::Str8 => {
            if body.len() < 1 {
                return Err(ReadValueError::IOError);
            }
            (body[0] as usize, 1)
        },
        Marker::Bin16 | Marker::Str16 | Marker::Array16 | Marker::Map16 => {
            if body.len() < 2 {
                return Err(ReadValueError::IOError);
            }
            (read_be_u16(body) as usize, 2)
        },
        Marker::Bin32 | Marker::Str32 | Marker::Array32 | Marker::Map32 => {
            if body.len() < 4 {
                return Err(ReadValueError::IOError);
            }
            (read_be_u32(body) as usize, 4)
        },
        _ => {
            return Err(ReadValueError::InvalidCall(NO_LENGTH));
        },
    };
    *buf = slice_subrange(body, k, body.len());
    Ok(len)
}

/// Whether `m` starts a number of a fixed width that follows the marker.
pub open spec fn is_wide_number(m: Marker) -> bool {
    m is F32 || m is F64 || m is U8 || m is U16 || m is U32 || m is U64 || m is I8 || m is I16
        || m is I32 || m is I64
}

/// Reads the number that follows `marker` at the front of `body`, and says
/// how many bytes it takes.
fn read_number<'a>(marker: Marker, body: &'a [u8]) -> (r: Result<
    (ValueEvent<'a>, usize),
    ReadValueError,
>)
    requires
        is_wide_number(marker),
    ensures
        match event_after(marker, body@) {
            Ok((token, n)) => r matches Ok((event, used)) && event@ == token && used == n && n
                <= body@.len(),
            Err(fault) => r matches Err(e) && e@ == fault,
        },
{
    proof {
        reveal(event_after);
    }
    let width: usize = match marker {
        Marker::U8 | Marker::I8 => 1,
        Marker::U16 | Marker::I16 => 2,
        Marker::F32 | Marker::U32 | Marker::I32 => 4,
        _ => 8,
    };
    if body.len() < width {
        return Err(ReadValueError::IOError);
    }
    let event = match marker {
        Marker::F32 => ValueEvent::F32(read_be_u32(body)),
        Marker::F64 => ValueEvent::F64(read_be_u64(body)),
        Marker::U8 => ValueEvent::UInt(body[0] as u64),
        Marker::U16 => ValueEvent::UInt(read_be_u16(body) as u64),
        Marker::U32 => ValueEvent::UInt(read_be_u32(body) as u64),
        Marker::U64 => ValueEvent::UInt(read_be_u64(body)),
        Marker::I8 => ValueEvent::SInt(byte_to_i8(body[0]) as i64),
        Marker::I16 => ValueEvent::SInt(read_be_i16(body) as i64),
        Marker::I32 => ValueEvent::SInt(read_be_i32(body) as i64),
        _ => ValueEvent::SInt(read_be_i64(body)),
    };
    Ok((event, width))
}

/// Reads the length and the payload that follow `marker` at the front of
/// `body`, and says how many bytes both take.
fn read_payload<'a>(marker: Marker, body: &'a [u8]) -> (r: Result<
    (&'a [u8], usize),
    ReadValueError,
>)
    ensures
        match payload_after(marker, body@) {
            Ok((bytes, n)) => r matches Ok((payload, used)) && payload@ == bytes && used == n && n
                <= body@.len() && bytes.len() <= u32::MAX,
            Err(fault) => r matches Err(e) && e@ == fault,
        },
{
    let mut rest: &'a [u8] = body;
    let len = match len_from_marker(&marker, &mut rest) {
        Ok(len) => len,
        Err(e) => {
            return Err(e);
        },
    };
    if rest.len() < len {
        return Err(ReadValueError::IOError);
    }
    let payload = slice_subrange(rest, 0, len);
    proof {
        let k = length_after(marker, body@)->Ok_0.1;
        assert(payload@ =~= body@.subrange(k as int, k + len));
    }
    Ok((payload, body.len() - rest.len() + len))
}

/// Reads the value that starts with `marker` and goes on at the front of
/// `body`, and says how many bytes of `body` belong to it.
fn read_after<'a>(marker: Marker, body: &'a [u8]) -> (r: Result<
    (ValueEvent<'a>, usize),
    ReadValueError,
>)
    ensures
        match event_after(marker, body@) {
            Ok((token, n)) => r matches Ok((event, used)) && event@ == token && used == n && n
                <= body@.len() && in_range(token),
            Err(fault) => r matches Err(e) && e@ == fault,
        },
{
    proof {
        reveal(event_after);
    }
    match marker {
        Marker::Null => Ok((ValueEvent::Nil, 0)),
        Marker::False => Ok((ValueEvent::Bool(false), 0)),
        Marker::True => Ok((ValueEvent::Bool(true), 0)),
        Marker::FixPos(v) => Ok((ValueEvent::UInt(v as u64), 0)),
        Marker::FixNeg(v) => Ok((ValueEvent::SInt(v as i64), 0)),
        Marker::F32 | Marker::F64 | Marker::U8 | Marker::U16 | Marker::U32 | Marker::U64
        | Marker::I8 | Marker::I16 | Marker::I32 | Marker::I64 => read_number(marker, body),
        Marker::FixMap(_) | Marker::Map16 | Marker::Map32 => {
            let mut rest: &'a [u8] = body;
            match len_from_marker(&marker, &mut rest) {
                Ok(len) => Ok((ValueEvent::StartObject(len), body.len() - rest.len())),
                Err(e) => Err(e),
            }
        },
        Marker::FixArray(_) | Marker::Array16 | Marker::Array32 => {
            let mut rest: &'a [u8] = body;
            match len_from_marker(&marker, &mut rest) {
                Ok(len) => Ok((ValueEvent::StartArray(len), body.len() - rest.len())),
                Err(e) => Err(e),
            }
        },
        Marker::FixStr(_) | Marker::Str8 | Marker::Str16 | Marker::Str32 => {
            match read_payload(marker, body) {
                Ok((bytes, used)) => match str_from_utf8(bytes) {
                    Ok(s) => Ok((ValueEvent::Str(s), used)),
                    Err(e) => Err(ReadValueError::InvalidUTF8(e)),
                },
                Err(e) => Err(e),
            }
        },
        Marker::Bin8 | Marker::Bin16 | Marker::Bin32 => {
            match read_payload(marker, body) {
                Ok((bytes, used)) => Ok((ValueEvent::Bytes(bytes), used)),
                Err(e) => Err(e),
            }
        },
        Marker::FixExt1 | Marker::FixExt2 | Marker::FixExt4 | Marker::FixExt8
        | Marker::FixExt16 => Err(ReadValueError::UnsupportedType("FixExt")),
        Marker::Ext8 | Marker::Ext16 | Marker::Ext32 => Err(ReadValueError::UnsupportedType("Ext")),
        Marker::Reserved => Err(ReadValueError::UnsupportedType("Reserved")),
    }
}

/// Reads the value at the front of `buf` and moves `buf` past it: past the
/// whole value for a scalar, past the header alone for a container. On a
/// failure `buf` stays where it was.
pub fn read_value<'a>(buf: &mut &'a [u8]) -> (r: Result<ValueEvent<'a>, ReadValueError>)
    ensures
        match event_at(old(buf)@) {
            Ok((token, n)) => r matches Ok(event) && event@ == token && 1 <= n <= old(buf)@.len()
                && final(buf)@ == old(buf)@.skip(n as int) && in_range(token),
            Err(fault) => r matches Err(e) && e@ == fault && final(buf)@ == old(buf)@,
        },
{
    let input: &'a [u8] = *buf;
    if input.len() == 0 {
        return Err(ReadValueError::RmpValueRead);
    }
    let marker = Marker::from_u8(input[0]);
    let body = slice_subrange(input, 1, input.len());
    assert(body@ == input@.skip(1));
    match read_after(marker, body) {
        Ok((event, used)) => {
            let rest = slice_subrange(body, used, body.len());
            assert(rest@ =~= input@.skip(used + 1));
            *buf = rest;
            Ok(event)
        },
        Err(e) => Err(e),
    }
}

} // verus!
