//! Packing: a MessagePack stream is written out again with each key of a map
//! replaced by the id that an interner has for it, and each string escaped
//! for JSON.

use crate::encode::{
    array_header, bin_bytes, bool_bytes, f32_bytes, f64_bytes, map_header, nil_bytes, sint_bytes,
    str_bytes, uint_bytes,
};
use crate::encode::{
    write_array_len, write_bin, write_bool, write_f32_bits, write_f64_bits, write_map_len,
    write_nil, write_sint, write_str, write_uint,
};
use crate::error::{PackError, PackFault, ReadFault, ReadValueError};
use crate::escape::{escape, json_escaped};
use crate::intern::{Ids, Interner};
use crate::prefix::lemma_begins_longer;
use crate::msgpack::{
    event_at, lemma_event_within, lemma_str_marker, marker_of, read_value, Marker, Token,
    ValueEvent,
};
use vstd::prelude::*;
use vstd::utf8::encode_utf8;

verus! {

/// What the packer says of a key that is no string.
pub const STRING_KEYS_ONLY: &'static str = "mpsquish only supports maps with string keys";

/// What packing some input comes to.
pub struct Packed {
    /// The bytes written.
    pub out: Seq<u8>,
    /// How many bytes of the input were taken to write them.
    pub used: nat,
    /// The escaped keys that were replaced by their ids.
    pub keys: Set<Seq<char>>,
    /// Whether a key was reached that the interner is asked about.
    pub asked: bool,
    /// Whether some escaped string was too long for the 32 bits of a header.
    pub clipped: bool,
    /// Why packing stopped, where it did.
    pub fault: Option<PackFault>,
}

impl Packed {
    /// Nothing read and nothing written.
    pub open spec fn nothing() -> Packed {
        Packed {
            out: Seq::empty(),
            used: 0,
            keys: Set::empty(),
            asked: false,
            clipped: false,
            fault: None,
        }
    }

    /// Stopped at once, for `fault`.
    pub open spec fn failed(fault: PackFault) -> Packed {
        Packed { fault: Some(fault), ..Packed::nothing() }
    }

    /// `self`, and after it `next`, unless `self` stopped.
    pub open spec fn followed_by(self, next: Packed) -> Packed {
        if self.fault is Some {
            self
        } else {
            Packed {
                out: self.out + next.out,
                used: self.used + next.used,
                keys: self.keys + next.keys,
                asked: self.asked || next.asked,
                clipped: self.clipped || next.clipped,
                fault: next.fault,
            }
        }
    }
}

/// The bytes that the packer writes for `token`: the value itself for a
/// scalar, with a string escaped first, and the header for a container.
pub open spec fn token_bytes(token: Token) -> Seq<u8> {
    match token {
        Token::SInt(v) => sint_bytes(v),
        Token::UInt(v) => uint_bytes(v),
        Token::Str(s) => str_bytes(encode_utf8(json_escaped(s))),
        Token::Bytes(b) => bin_bytes(b),
        Token::F32(bits) => f32_bytes(bits),
        Token::F64(bits) => f64_bytes(bits),
        Token::StartObject(n) => map_header(n as u32),
        Token::StartArray(n) => array_header(n as u32),
        Token::Bool(v) => bool_bytes(v),
        Token::Nil => nil_bytes(),
    }
}

/// Whether the header that the packer writes for `token` has room for its
/// length.
pub open spec fn fits(token: Token) -> bool {
    match token {
        Token::Str(s) => encode_utf8(json_escaped(s)).len() <= u32::MAX,
        Token::Bytes(b) => b.len() <= u32::MAX,
        Token::StartObject(n) => n <= u32::MAX,
        Token::StartArray(n) => n <= u32::MAX,
        _ => true,
    }
}

/// Packing the token that a value starts with, which took `n` bytes: the
/// whole of a scalar, the header of a container.
pub open spec fn packed_head(token: Token, n: nat) -> Packed {
    Packed { out: token_bytes(token), used: n, clipped: !fits(token), ..Packed::nothing() }
}

/// Packing the key at the front of `input`: a string, which is escaped and
/// replaced by the id that `ids` has for it.
pub open spec fn packed_key(input: Seq<u8>, ids: Ids) -> Packed {
    if input.len() == 0 {
        Packed::failed(PackFault::ValueRead(ReadFault::RmpValueRead))
    } else if !marker_of(input[0]).is_str() {
        Packed::failed(PackFault::Unsupported(STRING_KEYS_ONLY@))
    } else {
        match event_at(input) {
            Err(fault) => Packed::failed(PackFault::ValueRead(fault)),
            Ok((Token::Str(s), n)) => {
                let key = json_escaped(s);
                if ids.contains_key(key) {
                    Packed {
                        out: uint_bytes(ids[key] as u64),
                        used: n,
                        keys: set![key],
                        asked: true,
                        clipped: false,
                        fault: None,
                    }
                } else {
                    Packed { asked: true, ..Packed::failed(PackFault::Interner) }
                }
            },
            Ok(_) => Packed::failed(PackFault::Unsupported(STRING_KEYS_ONLY@)),
        }
    }
}

/// Packing the value at the front of `input`, with all that it contains.
pub open spec fn packed_value(input: Seq<u8>, ids: Ids) -> Packed
    decreases input.len(), 0nat,
{
    match event_at(input) {
        Err(fault) => Packed::failed(PackFault::ValueRead(fault)),
        Ok((token, n)) => {
            let head = packed_head(token, n);
            if 1 <= n <= input.len() {
                match token {
                    Token::StartArray(count) => head.followed_by(
                        packed_items(input.skip(n as int), count, ids),
                    ),
                    Token::StartObject(count) => head.followed_by(
                        packed_pairs(input.skip(n as int), count, ids),
                    ),
                    _ => head,
                }
            } else {
                head
            }
        },
    }
}

/// Packing the key at the front of `input` and the value after it.
pub open spec fn packed_pair(input: Seq<u8>, ids: Ids) -> Packed
    decreases input.len(), 1nat,
{
    let key = packed_key(input, ids);
    if key.fault is None && key.used <= input.len() {
        key.followed_by(packed_value(input.skip(key.used as int), ids))
    } else {
        key
    }
}

/// Packing the first `count` values of `input`, one after the other.
pub open spec fn packed_items(input: Seq<u8>, count: nat, ids: Ids) -> Packed
    decreases input.len(), count + 1,
{
    if count == 0 {
        Packed::nothing()
    } else {
        let before = packed_items(input, (count - 1) as nat, ids);
        if before.fault is None && before.used <= input.len() {
            before.followed_by(packed_value(input.skip(before.used as int), ids))
        } else {
            before
        }
    }
}

/// Packing the first `count` pairs of `input`, one after the other.
pub open spec fn packed_pairs(input: Seq<u8>, count: nat, ids: Ids) -> Packed
    decreases input.len(), count + 1,
{
    if count == 0 {
        Packed::nothing()
    } else {
        let before = packed_pairs(input, (count - 1) as nat, ids);
        if before.fault is None && before.used <= input.len() {
            before.followed_by(packed_pair(input.skip(before.used as int), ids))
        } else {
            before
        }
    }
}

/// Packing never takes more input than there is.
pub proof fn lemma_value_within(input: Seq<u8>, ids: Ids)
    ensures
        packed_value(input, ids).used <= input.len(),
    decreases input.len(), 0nat,
{
    lemma_event_within(input);
    match event_at(input) {
        Ok((token, n)) => {
            match token {
                Token::StartArray(count) => lemma_items_within(input.skip(n as int), count, ids),
                Token::StartObject(count) => lemma_pairs_within(input.skip(n as int), count, ids),
                _ => {},
            }
        },
        Err(_) => {},
    }
}

/// Packing a pair never takes more input than there is.
pub proof fn lemma_pair_within(input: Seq<u8>, ids: Ids)
    ensures
        packed_pair(input, ids).used <= input.len(),
    decreases input.len(), 1nat,
{
    lemma_event_within(input);
    let key = packed_key(input, ids);
    if key.fault is None && key.used <= input.len() {
        lemma_value_within(input.skip(key.used as int), ids);
    }
}

/// Packing values never takes more input than there is.
pub proof fn lemma_items_within(input: Seq<u8>, count: nat, ids: Ids)
    ensures
        packed_items(input, count, ids).used <= input.len(),
    decreases input.len(), count + 1,
{
    if count > 0 {
        let before = packed_items(input, (count - 1) as nat, ids);
        lemma_items_within(input, (count - 1) as nat, ids);
        if before.fault is None {
            lemma_value_within(input.skip(before.used as int), ids);
        }
    }
}

/// Packing pairs never takes more input than there is.
pub proof fn lemma_pairs_within(input: Seq<u8>, count: nat, ids: Ids)
    ensures
        packed_pairs(input, count, ids).used <= input.len(),
    decreases input.len(), count + 1,
{
    if count > 0 {
        let before = packed_pairs(input, (count - 1) as nat, ids);
        lemma_pairs_within(input, (count - 1) as nat, ids);
        if before.fault is None {
            lemma_pair_within(input.skip(before.used as int), ids);
        }
    }
}

/// What is in both maps is the same in both, so growing twice is growing.
pub proof fn lemma_submap_chain<K, V>(a: Map<K, V>, b: Map<K, V>, c: Map<K, V>)
    requires
        a.submap_of(b),
        b.submap_of(c),
    ensures
        a.submap_of(c),
{
    assert forall|k: K| #[trigger] a.dom().contains(k) implies c.dom().contains(k) && a[k]
        == c[k] by {
        assert(b.dom().contains(k));
    }
}

/// A key that was packed without asking for an id that is missing is
/// packed the same with any larger table.
pub proof fn lemma_key_stable(
    input: Seq<u8>,
    ids: Ids,
    more: Ids,
)
    requires
        ids.submap_of(more),
        packed_key(input, ids).fault != Some(PackFault::Interner),
    ensures
        packed_key(input, more) == packed_key(input, ids),
{
    if input.len() > 0 && marker_of(input[0]).is_str() {
        match event_at(input) {
            Ok((Token::Str(s), n)) => {
                let key = json_escaped(s);
                assert(ids.dom().contains(key));
            },
            _ => {},
        }
    }
}

/// A value that was packed without asking for an id that is missing is
/// packed the same with any larger table.
pub proof fn lemma_value_stable(
    input: Seq<u8>,
    ids: Ids,
    more: Ids,
)
    requires
        ids.submap_of(more),
        packed_value(input, ids).fault != Some(PackFault::Interner),
    ensures
        packed_value(input, more) == packed_value(input, ids),
    decreases input.len(), 0nat,
{
    match event_at(input) {
        Ok((token, n)) => {
            if 1 <= n <= input.len() {
                match token {
                    Token::StartArray(count) => {
                        lemma_items_stable(input.skip(n as int), count, ids, more);
                    },
                    Token::StartObject(count) => {
                        lemma_pairs_stable(input.skip(n as int), count, ids, more);
                    },
                    _ => {},
                }
            }
        },
        Err(_) => {},
    }
}

/// A pair that was packed without asking for an id that is missing is
/// packed the same with any larger table.
pub proof fn lemma_pair_stable(
    input: Seq<u8>,
    ids: Ids,
    more: Ids,
)
    requires
        ids.submap_of(more),
        packed_pair(input, ids).fault != Some(PackFault::Interner),
    ensures
        packed_pair(input, more) == packed_pair(input, ids),
    decreases input.len(), 1nat,
{
    lemma_key_stable(input, ids, more);
    let key = packed_key(input, ids);
    if key.fault is None && key.used <= input.len() {
        lemma_value_stable(input.skip(key.used as int), ids, more);
    }
}

/// Values that were packed without asking for an id that is missing are
/// packed the same with any larger table.
pub proof fn lemma_items_stable(
    input: Seq<u8>,
    count: nat,
    ids: Ids,
    more: Ids,
)
    requires
        ids.submap_of(more),
        packed_items(input, count, ids).fault != Some(PackFault::Interner),
    ensures
        packed_items(input, count, more) == packed_items(input, count, ids),
    decreases input.len(), count + 1,
{
    if count > 0 {
        let before = packed_items(input, (count - 1) as nat, ids);
        lemma_items_stable(input, (count - 1) as nat, ids, more);
        if before.fault is None && before.used <= input.len() {
            lemma_value_stable(input.skip(before.used as int), ids, more);
        }
    }
}

/// Pairs that were packed without asking for an id that is missing are
/// packed the same with any larger table.
pub proof fn lemma_pairs_stable(
    input: Seq<u8>,
    count: nat,
    ids: Ids,
    more: Ids,
)
    requires
        ids.submap_of(more),
        packed_pairs(input, count, ids).fault != Some(PackFault::Interner),
    ensures
        packed_pairs(input, count, more) == packed_pairs(input, count, ids),
    decreases input.len(), count + 1,
{
    if count > 0 {
        let before = packed_pairs(input, (count - 1) as nat, ids);
        lemma_pairs_stable(input, (count - 1) as nat, ids, more);
        if before.fault is None && before.used <= input.len() {
            lemma_pair_stable(input.skip(before.used as int), ids, more);
        }
    }
}

/// Once packing values has stopped, asking for more of them changes nothing.
pub proof fn lemma_items_stuck(input: Seq<u8>, done: nat, count: nat, ids: Ids)
    requires
        done <= count,
        packed_items(input, done, ids).fault is Some,
    ensures
        packed_items(input, count, ids) == packed_items(input, done, ids),
    decreases count,
{
    if done < count {
        lemma_items_stuck(input, done, (count - 1) as nat, ids);
    }
}

/// Once packing pairs has stopped, asking for more of them changes nothing.
pub proof fn lemma_pairs_stuck(input: Seq<u8>, done: nat, count: nat, ids: Ids)
    requires
        done <= count,
        packed_pairs(input, done, ids).fault is Some,
    ensures
        packed_pairs(input, count, ids) == packed_pairs(input, done, ids),
    decreases count,
{
    if done < count {
        lemma_pairs_stuck(input, done, (count - 1) as nat, ids);
    }
}

/// What packing the first values writes is the beginning of what packing
/// more of them writes.
pub proof fn lemma_items_grow(input: Seq<u8>, done: nat, count: nat, ids: Ids)
    requires
        done <= count,
    ensures
        packed_items(input, done, ids).out.is_prefix_of(packed_items(input, count, ids).out),
        packed_items(input, done, ids).keys.subset_of(packed_items(input, count, ids).keys),
    decreases count,
{
    let first = packed_items(input, done, ids).out;
    if done < count {
        lemma_items_grow(input, done, (count - 1) as nat, ids);
        let before = packed_items(input, (count - 1) as nat, ids).out;
        let all = packed_items(input, count, ids).out;
        assert(before.is_prefix_of(all)) by {
            assert(before =~= all.subrange(0, before.len() as int));
        }
        lemma_begins_longer(first, Seq::empty(), before, all);
        assert(Seq::<u8>::empty() + before =~= before);
        assert(Seq::<u8>::empty() + all =~= all);
    } else {
        assert(first =~= first.subrange(0, first.len() as int));
    }
}

/// What packing the first pairs writes is the beginning of what packing
/// more of them writes.
pub proof fn lemma_pairs_grow(input: Seq<u8>, done: nat, count: nat, ids: Ids)
    requires
        done <= count,
    ensures
        packed_pairs(input, done, ids).out.is_prefix_of(packed_pairs(input, count, ids).out),
        packed_pairs(input, done, ids).keys.subset_of(packed_pairs(input, count, ids).keys),
    decreases count,
{
    let first = packed_pairs(input, done, ids).out;
    if done < count {
        lemma_pairs_grow(input, done, (count - 1) as nat, ids);
        let before = packed_pairs(input, (count - 1) as nat, ids).out;
        let all = packed_pairs(input, count, ids).out;
        assert(before.is_prefix_of(all)) by {
            assert(before =~= all.subrange(0, before.len() as int));
        }
        lemma_begins_longer(first, Seq::empty(), before, all);
        assert(Seq::<u8>::empty() + before =~= before);
        assert(Seq::<u8>::empty() + all =~= all);
    } else {
        assert(first =~= first.subrange(0, first.len() as int));
    }
}

/// If the interner is asked within the first values, it is asked within
/// more of them.
pub proof fn lemma_items_asked(input: Seq<u8>, done: nat, count: nat, ids: Ids)
    requires
        done <= count,
        packed_items(input, done, ids).asked,
    ensures
        packed_items(input, count, ids).asked,
    decreases count,
{
    if done < count {
        lemma_items_asked(input, done, (count - 1) as nat, ids);
    }
}

/// If the interner is asked within the first pairs, it is asked within more
/// of them.
pub proof fn lemma_pairs_asked(input: Seq<u8>, done: nat, count: nat, ids: Ids)
    requires
        done <= count,
        packed_pairs(input, done, ids).asked,
    ensures
        packed_pairs(input, count, ids).asked,
    decreases count,
{
    if done < count {
        lemma_pairs_asked(input, done, (count - 1) as nat, ids);
    }
}

/// What a run of the packer owes: `input`, `before` and `out` are the rest
/// of the stream, the interner and the output before it and `rest`, `after`
/// and `grown` after it, `r` is what it returned, and `p` is what packing
/// `input` with the table of `after` comes to. The table and the output only
/// grow. Unless the interner failed, the run did exactly `p`; the interner can
/// only fail where `p` asks it, and an infallible one never, and then what
/// was written is the beginning of what `p` has, and what was interned are
/// keys of `p`.
pub open spec fn packs<I: Interner>(
    input: Seq<u8>,
    before: I,
    out: Seq<u8>,
    rest: Seq<u8>,
    after: I,
    grown: Seq<u8>,
    r: Result<(), PackError<I>>,
    p: Packed,
) -> bool {
    &&& before.ids().submap_of(after.ids())
    &&& after.infallible() == before.infallible()
    &&& out.is_prefix_of(grown)
    &&& match r {
        Err(PackError::Interner(_)) => cut_short(before, out, after, grown, p),
        Err(e) => p.fault == Some(e@) && did(input, before.ids(), out, rest, after.ids(), grown, p),
        Ok(()) => p.fault is None && did(input, before.ids(), out, rest, after.ids(), grown, p),
    }
}

/// The run ended where the interner failed: `p` asks the interner, which is
/// not an infallible one; what was written is the beginning of what `p` has,
/// and the table has no new key but keys of `p`.
pub open spec fn cut_short<I: Interner>(
    before: I,
    out: Seq<u8>,
    after: I,
    grown: Seq<u8>,
    p: Packed,
) -> bool {
    &&& p.asked
    &&& !before.infallible()
    &&& grown.is_prefix_of(out + p.out)
    &&& after.ids().dom().subset_of(before.ids().dom() + p.keys)
}

/// The run wrote what `p` has, took the input that `p` used, and the table
/// has the keys of `p` and no other new ones.
pub open spec fn did(
    input: Seq<u8>,
    ids: Ids,
    out: Seq<u8>,
    rest: Seq<u8>,
    more: Ids,
    grown: Seq<u8>,
    p: Packed,
) -> bool {
    &&& kept(ids, out, more, grown, p)
    &&& p.used <= input.len()
    &&& rest =~= input.skip(p.used as int)
}

/// The run wrote what `p` has, and the table has the keys of `p` and no
/// other new ones.
pub open spec fn kept(
    ids: Ids,
    out: Seq<u8>,
    more: Ids,
    grown: Seq<u8>,
    p: Packed,
) -> bool {
    &&& grown =~= out + p.out
    &&& more.dom() =~= ids.dom() + p.keys
}

/// What a run of the packer owes to the table and the output: as [`packs`],
/// without a word on where the input stands.
pub open spec fn packs_into<I: Interner>(
    before: I,
    out: Seq<u8>,
    after: I,
    grown: Seq<u8>,
    r: Result<(), PackError<I>>,
    p: Packed,
) -> bool {
    &&& before.ids().submap_of(after.ids())
    &&& after.infallible() == before.infallible()
    &&& out.is_prefix_of(grown)
    &&& match r {
        Err(PackError::Interner(_)) => cut_short(before, out, after, grown, p),
        Err(e) => p.fault == Some(e@) && kept(before.ids(), out, after.ids(), grown, p),
        Ok(()) => p.fault is None && kept(before.ids(), out, after.ids(), grown, p),
    }
}

/// Writes the id that the interner returned for a key, or hands its failure
/// on and writes nothing.
pub fn write_key_id<I: Interner>(out: &mut Vec<u8>, id: Result<usize, I::Err>) -> (r: Result<
    (),
    PackError<I>,
>)
    ensures
        match id {
            Ok(k) => r is Ok && final(out)@ == old(out)@ + uint_bytes(k as u64),
            Err(e) => r matches Err(PackError::Interner(handed)) && handed == e && final(out)@
                == old(out)@,
        },
{
    match id {
        Ok(k) => {
            write_uint(out, k as u64);
            Ok(())
        },
        Err(e) => Err(PackError::Interner(e)),
    }
}

/// Packs the key at the front of `reader`: reads a string, escapes it, and
/// writes the id that the interner gives it. Anything but a string in this
/// place is refused, and nothing is read or written for it.
pub fn pack_key<I: Interner>(reader: &mut &[u8], interner: &mut I, out: &mut Vec<u8>) -> (r:
    Result<(), PackError<I>>)
    ensures
        packs(
            old(reader)@,
            *old(interner),
            old(out)@,
            final(reader)@,
            *final(interner),
            final(out)@,
            r,
            packed_key(old(reader)@, final(interner).ids()),
        ),
{
    let input: &[u8] = *reader;
    if input.len() == 0 {
        return Err(PackError::ValueRead(ReadValueError::RmpValueRead));
    }
    match Marker::from_u8(input[0]) {
        Marker::FixStr(_) | Marker::Str8 | Marker::Str16 | Marker::Str32 => {},
        _ => {
            return Err(PackError::Unsupported(STRING_KEYS_ONLY));
        },
    }
    proof {
        lemma_str_marker(input@);
    }
    match read_value(reader) {
        Err(e) => Err(PackError::ValueRead(e)),
        Ok(ValueEvent::Str(key)) => {
            let escaped = escape(key);
            let id = interner.intern(escaped.as_str());
            let r = write_key_id(out, id);
            proof {
                if id is Ok {
                    assert(interner.ids().dom() =~= old(interner).ids().dom() + set![escaped@]);
                }
            }
            r
        },
        Ok(_) => Err(PackError::Unsupported(STRING_KEYS_ONLY)),
    }
}

/// Packs the value at the front of `reader` with all that it contains: a
/// scalar is written again in its shortest form, a string escaped first; a
/// container gets its header, and then its values or pairs are packed in
/// turn. The first failure ends the run, and what was written stays.
pub fn pack_value<I: Interner>(reader: &mut &[u8], interner: &mut I, out: &mut Vec<u8>) -> (r:
    Result<(), PackError<I>>)
    ensures
        packs(
            old(reader)@,
            *old(interner),
            old(out)@,
            final(reader)@,
            *final(interner),
            final(out)@,
            r,
            packed_value(old(reader)@, final(interner).ids()),
        ),
    decreases old(reader)@.len(), 0nat,
{
    let ghost input = reader@;
    let event = match read_value(reader) {
        Ok(event) => event,
        Err(e) => {
            return Err(PackError::ValueRead(e));
        },
    };
    let ghost token = event_at(input)->Ok_0.0;
    let ghost n = event_at(input)->Ok_0.1;
    match event {
        ValueEvent::SInt(v) => {
            write_sint(out, v);
            proof {
                lemma_scalar_packed(input, *interner, old(out)@, token, n, out@);
            }
            Ok(())
        },
        ValueEvent::UInt(v) => {
            write_uint(out, v);
            proof {
                lemma_scalar_packed(input, *interner, old(out)@, token, n, out@);
            }
            Ok(())
        },
        ValueEvent::Str(s) => {
            let escaped = escape(s);
            write_str(out, escaped.as_str());
            proof {
                lemma_scalar_packed(input, *interner, old(out)@, token, n, out@);
            }
            Ok(())
        },
        ValueEvent::Bytes(data) => {
            write_bin(out, data);
            proof {
                lemma_scalar_packed(input, *interner, old(out)@, token, n, out@);
            }
            Ok(())
        },
        ValueEvent::F32(bits) => {
            write_f32_bits(out, bits);
            proof {
                lemma_scalar_packed(input, *interner, old(out)@, token, n, out@);
            }
            Ok(())
        },
        ValueEvent::F64(bits) => {
            write_f64_bits(out, bits);
            proof {
                lemma_scalar_packed(input, *interner, old(out)@, token, n, out@);
            }
            Ok(())
        },
        ValueEvent::Bool(v) => {
            write_bool(out, v);
            proof {
                lemma_scalar_packed(input, *interner, old(out)@, token, n, out@);
            }
            Ok(())
        },
        ValueEvent::Nil => {
            write_nil(out);
            proof {
                lemma_scalar_packed(input, *interner, old(out)@, token, n, out@);
            }
            Ok(())
        },
        ValueEvent::StartArray(count) => {
            write_array_len(out, count as u32);
            let ghost head = out@;
            let r = pack_items(reader, interner, out, count);
            proof {
                let inner = packed_items(input.skip(n as int), count as nat, interner.ids());
                lemma_headed(
                    input,
                    n,
                    *old(interner),
                    old(out)@,
                    head,
                    reader@,
                    *interner,
                    out@,
                    r,
                    inner,
                );
            }
            r
        },
        ValueEvent::StartObject(count) => {
            write_map_len(out, count as u32);
            let ghost head = out@;
            let r = pack_pairs(reader, interner, out, count);
            proof {
                let inner = packed_pairs(input.skip(n as int), count as nat, interner.ids());
                lemma_headed(
                    input,
                    n,
                    *old(interner),
                    old(out)@,
                    head,
                    reader@,
                    *interner,
                    out@,
                    r,
                    inner,
                );
            }
            r
        },
    }
}

/// A run that wrote what stands for a scalar, and took the scalar, packed
/// it.
proof fn lemma_scalar_packed<I: Interner>(
    input: Seq<u8>,
    table: I,
    out: Seq<u8>,
    token: Token,
    n: nat,
    grown: Seq<u8>,
)
    requires
        event_at(input) == Ok::<(Token, nat), ReadFault>((token, n)),
        n <= input.len(),
        !(token is StartArray),
        !(token is StartObject),
        grown == out + token_bytes(token),
    ensures
        packs(
            input,
            table,
            out,
            input.skip(n as int),
            table,
            grown,
            Ok::<(), PackError<I>>(()),
            packed_value(input, table.ids()),
        ),
{
    assert(out.is_prefix_of(grown)) by {
        assert(out =~= grown.subrange(0, out.len() as int));
    }
}

/// A run that did `inner` on what follows a header of `n` bytes did the
/// header and then `inner` on the whole.
proof fn lemma_headed<I: Interner>(
    input: Seq<u8>,
    n: nat,
    before: I,
    out: Seq<u8>,
    head: Seq<u8>,
    rest: Seq<u8>,
    after: I,
    grown: Seq<u8>,
    r: Result<(), PackError<I>>,
    inner: Packed,
)
    requires
        n <= input.len(),
        out.is_prefix_of(head),
        packs(input.skip(n as int), before, head, rest, after, grown, r, inner),
    ensures
        packs(
            input,
            before,
            out,
            rest,
            after,
            grown,
            r,
            Packed {
                out: head.skip(out.len() as int),
                used: n,
                clipped: false,
                ..Packed::nothing()
            }.followed_by(inner),
        ),
{
    let wrote = head.skip(out.len() as int);
    assert(head =~= out + wrote);
    if r matches Err(PackError::Interner(_)) {
        assert(head + inner.out =~= out + (wrote + inner.out));
    }
}

/// Packs the key at the front of `reader` and the value after it.
pub fn pack_pair<I: Interner>(reader: &mut &[u8], interner: &mut I, out: &mut Vec<u8>) -> (r:
    Result<(), PackError<I>>)
    ensures
        packs(
            old(reader)@,
            *old(interner),
            old(out)@,
            final(reader)@,
            *final(interner),
            final(out)@,
            r,
            packed_pair(old(reader)@, final(interner).ids()),
        ),
    decreases old(reader)@.len(), 1nat,
{
    let ghost input = reader@;
    match pack_key(reader, interner, out) {
        Ok(()) => {},
        Err(e) => {
            return Err(e);
        },
    }
    let ghost keyed = *interner;
    let ghost key = packed_key(input, keyed.ids());
    let ghost after_key = out@;
    let r = pack_value(reader, interner, out);
    proof {
        let more = interner.ids();
        lemma_key_stable(input, keyed.ids(), more);
        lemma_joined(
            input,
            *old(interner),
            old(out)@,
            key,
            keyed,
            after_key,
            reader@,
            *interner,
            out@,
            r,
            packed_value(input.skip(key.used as int), more),
        );
    }
    r
}

/// A run that did `first` and then, from where that ended, `second`, did
/// `first` followed by `second`.
proof fn lemma_joined<I: Interner>(
    input: Seq<u8>,
    before: I,
    out: Seq<u8>,
    first: Packed,
    between: I,
    mid_out: Seq<u8>,
    rest: Seq<u8>,
    after: I,
    grown: Seq<u8>,
    r: Result<(), PackError<I>>,
    second: Packed,
)
    requires
        before.ids().submap_of(between.ids()),
        between.infallible() == before.infallible(),
        first.fault is None,
        did(input, before.ids(), out, input.skip(first.used as int), between.ids(), mid_out, first),
        packs(input.skip(first.used as int), between, mid_out, rest, after, grown, r, second),
    ensures
        packs(input, before, out, rest, after, grown, r, first.followed_by(second)),
{
    lemma_submap_chain(before.ids(), between.ids(), after.ids());
    if r matches Err(PackError::Interner(_)) {
        assert(mid_out + second.out =~= out + (first.out + second.out));
    }
}

/// Packs `count` values from the front of `reader`, one after the other.
pub fn pack_items<I: Interner>(
    reader: &mut &[u8],
    interner: &mut I,
    out: &mut Vec<u8>,
    count: usize,
) -> (r: Result<(), PackError<I>>)
    ensures
        packs(
            old(reader)@,
            *old(interner),
            old(out)@,
            final(reader)@,
            *final(interner),
            final(out)@,
            r,
            packed_items(old(reader)@, count as nat, final(interner).ids()),
        ),
    decreases old(reader)@.len(), count + 1,
{
    let ghost input = reader@;
    let ghost ids = interner.ids();
    let mut i: usize = 0;
    while i < count
        invariant
            i <= count,
            input == old(reader)@,
            ids == old(interner).ids(),
            ids.submap_of(interner.ids()),
            interner.infallible() == old(interner).infallible(),
            packed_items(input, i as nat, interner.ids()).fault is None,
            did(
                input,
                ids,
                old(out)@,
                reader@,
                interner.ids(),
                out@,
                packed_items(input, i as nat, interner.ids()),
            ),
        decreases count - i,
    {
        let ghost so_far_table = *interner;
        let ghost so_far = packed_items(input, i as nat, so_far_table.ids());
        let ghost so_far_out = out@;
        let r = pack_value(reader, interner, out);
        proof {
            let more = interner.ids();
            lemma_items_stable(input, i as nat, so_far_table.ids(), more);
            lemma_joined(
                input,
                *old(interner),
                old(out)@,
                so_far,
                so_far_table,
                so_far_out,
                reader@,
                *interner,
                out@,
                r,
                packed_value(input.skip(so_far.used as int), more),
            );
            assert(packed_items(input, (i + 1) as nat, more) == so_far.followed_by(
                packed_value(input.skip(so_far.used as int), more),
            ));
            match r {
                Ok(()) => {},
                Err(PackError::Interner(_)) => {
                    lemma_items_asked(input, (i + 1) as nat, count as nat, more);
                    lemma_items_grow(input, (i + 1) as nat, count as nat, more);
                    lemma_begins_longer(
                        out@,
                        old(out)@,
                        packed_items(input, (i + 1) as nat, more).out,
                        packed_items(input, count as nat, more).out,
                    );
                },
                Err(_) => {
                    lemma_items_stuck(input, (i + 1) as nat, count as nat, more);
                },
            }
        }
        match r {
            Ok(()) => {},
            Err(e) => {
                return Err(e);
            },
        }
        i += 1;
    }
    Ok(())
}

/// Packs `count` pairs of a key and a value from the front of `reader`, one
/// after the other.
pub fn pack_pairs<I: Interner>(
    reader: &mut &[u8],
    interner: &mut I,
    out: &mut Vec<u8>,
    count: usize,
) -> (r: Result<(), PackError<I>>)
    ensures
        packs(
            old(reader)@,
            *old(interner),
            old(out)@,
            final(reader)@,
            *final(interner),
            final(out)@,
            r,
            packed_pairs(old(reader)@, count as nat, final(interner).ids()),
        ),
    decreases old(reader)@.len(), count + 1,
{
    let ghost input = reader@;
    let ghost ids = interner.ids();
    let mut i: usize = 0;
    while i < count
        invariant
            i <= count,
            input == old(reader)@,
            ids == old(interner).ids(),
            ids.submap_of(interner.ids()),
            interner.infallible() == old(interner).infallible(),
            packed_pairs(input, i as nat, interner.ids()).fault is None,
            did(
                input,
                ids,
                old(out)@,
                reader@,
                interner.ids(),
                out@,
                packed_pairs(input, i as nat, interner.ids()),
            ),
        decreases count - i,
    {
        let ghost so_far_table = *interner;
        let ghost so_far = packed_pairs(input, i as nat, so_far_table.ids());
        let ghost so_far_out = out@;
        let r = pack_pair(reader, interner, out);
        proof {
            let more = interner.ids();
            lemma_pairs_stable(input, i as nat, so_far_table.ids(), more);
            lemma_joined(
                input,
                *old(interner),
                old(out)@,
                so_far,
                so_far_table,
                so_far_out,
                reader@,
                *interner,
                out@,
                r,
                packed_pair(input.skip(so_far.used as int), more),
            );
            assert(packed_pairs(input, (i + 1) as nat, more) == so_far.followed_by(
                packed_pair(input.skip(so_far.used as int), more),
            ));
            match r {
                Ok(()) => {},
                Err(PackError::Interner(_)) => {
                    lemma_pairs_asked(input, (i + 1) as nat, count as nat, more);
                    lemma_pairs_grow(input, (i + 1) as nat, count as nat, more);
                    lemma_begins_longer(
                        out@,
                        old(out)@,
                        packed_pairs(input, (i + 1) as nat, more).out,
                        packed_pairs(input, count as nat, more).out,
                    );
                },
                Err(_) => {
                    lemma_pairs_stuck(input, (i + 1) as nat, count as nat, more);
                },
            }
        }
        match r {
            Ok(()) => {},
            Err(e) => {
                return Err(e);
            },
        }
        i += 1;
    }
    Ok(())
}

/// Packing the whole of `input`: one value after the other until nothing is
/// left.
pub open spec fn packed_stream(input: Seq<u8>, ids: Ids) -> Packed
    decreases input.len(),
{
    if input.len() == 0 {
        Packed::nothing()
    } else {
        let first = packed_value(input, ids);
        if first.fault is None && 1 <= first.used <= input.len() {
            first.followed_by(packed_stream(input.skip(first.used as int), ids))
        } else {
            first
        }
    }
}

/// Rewrites a MessagePack stream with the keys of its maps interned: the
/// pieces of one run are the rest of the input, the table that grows, and
/// the output that is appended to.
pub struct Packer<'a, I: Interner> {
    pub interner: &'a mut I,
    pub reader: &'a [u8],
    pub out: &'a mut Vec<u8>,
}

impl<'a, I: Interner> Packer<'a, I> {
    /// A packer that reads `reader`, asks `interner` and appends to `out`.
    pub fn new(interner: &'a mut I, reader: &'a [u8], out: &'a mut Vec<u8>) -> (p: Packer<'a, I>)
        ensures
            p.reader@ == reader@,
            *p.interner == *old(interner),
            *p.out == *old(out),
            *final(p.interner) == *final(interner),
            *final(p.out) == *final(out),
    {
        Packer { interner, reader, out }
    }

    /// Packs the next value of the input with all that it contains; see
    /// [`pack_value`]. The packer goes on with the same table and output.
    pub fn pack_one(&mut self) -> (r: Result<(), PackError<I>>)
        ensures
            packs(
                old(self).reader@,
                *old(self).interner,
                old(self).out@,
                final(self).reader@,
                *final(self).interner,
                final(self).out@,
                r,
                packed_value(old(self).reader@, final(self).interner.ids()),
            ),
            *final(final(self).interner) == *final(old(self).interner),
            *final(final(self).out) == *final(old(self).out),
    {
        pack_value(&mut self.reader, self.interner, self.out)
    }
}

/// Packs every value of `stream` into `out`, interning the keys with
/// `interner`. Stops at the first failure; what was written until then
/// stays in `out`.
pub fn pack_msgpack_stream<I: Interner>(stream: &[u8], interner: &mut I, out: &mut Vec<u8>) -> (r:
    Result<(), PackError<I>>)
    ensures
        packs_into(
            *old(interner),
            old(out)@,
            *final(interner),
            final(out)@,
            r,
            packed_stream(stream@, final(interner).ids()),
        ),
{
    let ghost ids = interner.ids();
    let ghost mut done = Packed::nothing();
    let mut reader: &[u8] = stream;
    while reader.len() > 0
        invariant
            ids == old(interner).ids(),
            ids.submap_of(interner.ids()),
            interner.infallible() == old(interner).infallible(),
            done.fault is None,
            did(stream@, ids, old(out)@, reader@, interner.ids(), out@, done),
            forall|more: Ids| #[trigger]
                interner.ids().submap_of(more) ==> same(
                    packed_stream(stream@, more),
                    done.followed_by(packed_stream(reader@, more)),
                ),
        decreases reader@.len(),
    {
        let ghost so_far_table = *interner;
        let ghost so_far_ids = interner.ids();
        let ghost so_far_out = out@;
        let ghost here = reader@;
        let r = pack_value(&mut reader, interner, out);
        proof {
            let now = interner.ids();
            let value = packed_value(here, now);
            lemma_joined(
                stream@,
                *old(interner),
                old(out)@,
                done,
                so_far_table,
                so_far_out,
                reader@,
                *interner,
                out@,
                r,
                value,
            );
            assert(so_far_ids.submap_of(now));
            assert(now.submap_of(now));
            if !(r matches Err(PackError::Interner(_))) {
                assert forall|more: Ids| #[trigger] now.submap_of(more) implies same(
                    packed_stream(stream@, more),
                    done.followed_by(value).followed_by(packed_stream(reader@, more)),
                ) by {
                    lemma_submap_chain(so_far_ids, now, more);
                    lemma_value_stable(here, now, more);
                }
            }
            done = done.followed_by(value);
        }
        match r {
            Ok(()) => {},
            Err(e) => {
                return Err(e);
            },
        }
    }
    proof {
        assert(interner.ids().submap_of(interner.ids()));
    }
    Ok(())
}

/// Whether two results of packing agree in everything.
pub open spec fn same(a: Packed, b: Packed) -> bool {
    &&& a.out =~= b.out
    &&& a.used == b.used
    &&& a.keys =~= b.keys
    &&& a.asked == b.asked
    &&& a.clipped == b.clipped
    &&& a.fault == b.fault
}

} // verus!
