//! What holds of packing and transcoding together.

use crate::error::{PackFault, UnpackFault};
use crate::escape::json_escaped;
use crate::intern::{interned, inverts, Ids, Names};
use crate::json::{quoted, Float};
use crate::msgpack::{event_at, lemma_event_within, marker_of, Token};
use crate::pack::{
    fits, lemma_items_within, lemma_pairs_stuck, lemma_pairs_within, lemma_value_within,
    packed_head, packed_items, packed_key, packed_pair, packed_pairs, packed_stream,
    packed_value, token_bytes, Packed, STRING_KEYS_ONLY,
};
use crate::reread::{lemma_reread, lemma_reread_uint, reread};
use crate::unpack::{
    json_field, json_fields, json_items, json_key, json_scalar, json_value, Json, Keys,
};
use vstd::prelude::*;

verus! {

/// Whether packing went through, cut no string short, and `names` gives
/// every key that it replaced back from its id.
pub open spec fn resolvable(p: Packed, ids: Ids, names: Names) -> bool {
    &&& p.fault is None
    &&& !p.clipped
    &&& inverts(names, ids, p.keys)
}

/// Whether transcoding what was packed came to the same as transcoding the
/// raw input: the same text and the same end, and, where it went through,
/// all of what was packed and of the raw input was taken.
pub open spec fn agrees(p: Packed, packed: Json, raw: Json) -> bool {
    &&& packed.text == raw.text
    &&& packed.fault == raw.fault
    &&& raw.fault is None ==> packed.used == p.out.len() && raw.used == p.used
}

/// Where one run of the packer followed by another is resolvable, each of
/// the two is.
pub proof fn lemma_resolvable_parts(
    a: Packed,
    b: Packed,
    ids: Ids,
    names: Names,
)
    requires
        a.fault is None,
        resolvable(a.followed_by(b), ids, names),
    ensures
        resolvable(a, ids, names),
        resolvable(b, ids, names),
{
    let p = a.followed_by(b);
    assert forall|t: Seq<char>| #[trigger] a.keys.contains(t) implies ids.contains_key(t)
        && names.contains_key(ids[t]) && names[ids[t]] == t by {
        assert(p.keys.contains(t));
    }
    assert forall|t: Seq<char>| #[trigger] b.keys.contains(t) implies ids.contains_key(t)
        && names.contains_key(ids[t]) && names[ids[t]] == t by {
        assert(p.keys.contains(t));
    }
}

/// A packed scalar, whatever follows it, is transcoded as the raw scalar
/// is.
pub proof fn lemma_scalar_agrees(
    token: Token,
    n: nat,
    names: Names,
    floats: spec_fn(Float) -> Seq<char>,
    tail: Seq<u8>,
)
    requires
        fits(token),
        !(token is StartArray),
        !(token is StartObject),
    ensures
        agrees(
            packed_head(token, n),
            json_value(token_bytes(token) + tail, Keys::Interned(names), floats),
            json_scalar(token, n, Keys::Raw, floats),
        ),
{
    let wrote = token_bytes(token);
    lemma_reread(token, tail);
    lemma_event_within(wrote + tail);
    assert(json_value(wrote + tail, Keys::Interned(names), floats) == json_scalar(
        reread(token),
        wrote.len(),
        Keys::Interned(names),
        floats,
    ));
}

/// A packed array, whatever follows it, is transcoded as the raw array is,
/// if its values are.
pub proof fn lemma_array_agrees(
    count: nat,
    n: nat,
    inner: Packed,
    packed_inner: Json,
    raw_inner: Json,
    names: Names,
    floats: spec_fn(Float) -> Seq<char>,
    tail: Seq<u8>,
)
    requires
        count <= u32::MAX,
        inner.fault is None,
        agrees(inner, packed_inner, raw_inner),
        packed_inner == json_items(inner.out + tail, count, Keys::Interned(names), floats),
    ensures
        agrees(
            packed_head(Token::StartArray(count), n).followed_by(inner),
            json_value(
                packed_head(Token::StartArray(count), n).followed_by(inner).out + tail,
                Keys::Interned(names),
                floats,
            ),
            Json::of(seq!['['], n).followed_by(raw_inner).followed_by(Json::of(seq![']'], 0)),
        ),
{
    let token = Token::StartArray(count);
    let wrote = token_bytes(token);
    let p = packed_head(token, n).followed_by(inner);
    lemma_reread(token, inner.out + tail);
    lemma_event_within(wrote + (inner.out + tail));
    assert(p.out + tail =~= wrote + (inner.out + tail));
    assert((p.out + tail).skip(wrote.len() as int) =~= inner.out + tail);
    assert(json_value(p.out + tail, Keys::Interned(names), floats) == Json::of(
        seq!['['],
        wrote.len(),
    ).followed_by(packed_inner).followed_by(Json::of(seq![']'], 0)));
}

/// A packed map, whatever follows it, is transcoded as the raw map is, if
/// its pairs are.
pub proof fn lemma_map_agrees(
    count: nat,
    n: nat,
    inner: Packed,
    packed_inner: Json,
    raw_inner: Json,
    names: Names,
    floats: spec_fn(Float) -> Seq<char>,
    tail: Seq<u8>,
)
    requires
        count <= u32::MAX,
        inner.fault is None,
        agrees(inner, packed_inner, raw_inner),
        packed_inner == json_fields(inner.out + tail, count, Keys::Interned(names), floats),
    ensures
        agrees(
            packed_head(Token::StartObject(count), n).followed_by(inner),
            json_value(
                packed_head(Token::StartObject(count), n).followed_by(inner).out + tail,
                Keys::Interned(names),
                floats,
            ),
            Json::of(seq!['{'], n).followed_by(raw_inner).followed_by(Json::of(seq!['}'], 0)),
        ),
{
    let token = Token::StartObject(count);
    let wrote = token_bytes(token);
    let p = packed_head(token, n).followed_by(inner);
    lemma_reread(token, inner.out + tail);
    lemma_event_within(wrote + (inner.out + tail));
    assert(p.out + tail =~= wrote + (inner.out + tail));
    assert((p.out + tail).skip(wrote.len() as int) =~= inner.out + tail);
    assert(json_value(p.out + tail, Keys::Interned(names), floats) == Json::of(
        seq!['{'],
        wrote.len(),
    ).followed_by(packed_inner).followed_by(Json::of(seq!['}'], 0)));
}

/// A packed value, whatever follows it, is transcoded as the raw value is.
pub proof fn lemma_value_agrees(
    input: Seq<u8>,
    ids: Ids,
    names: Names,
    floats: spec_fn(Float) -> Seq<char>,
    tail: Seq<u8>,
)
    requires
        resolvable(packed_value(input, ids), ids, names),
    ensures
        agrees(
            packed_value(input, ids),
            json_value(packed_value(input, ids).out + tail, Keys::Interned(names), floats),
            json_value(input, Keys::Raw, floats),
        ),
    decreases input.len(), 0nat,
{
    let keys = Keys::Interned(names);
    lemma_event_within(input);
    match event_at(input) {
        Ok((token, n)) => {
            let head = packed_head(token, n);
            match token {
                Token::StartArray(count) => {
                    let rest = input.skip(n as int);
                    let inner = packed_items(rest, count, ids);
                    assert(packed_value(input, ids) == head.followed_by(inner));
                    lemma_resolvable_parts(head, inner, ids, names);
                    lemma_items_agree(rest, count, ids, names, floats, tail);
                    lemma_array_agrees(
                        count,
                        n,
                        inner,
                        json_items(inner.out + tail, count, keys, floats),
                        json_items(rest, count, Keys::Raw, floats),
                        names,
                        floats,
                        tail,
                    );
                },
                Token::StartObject(count) => {
                    let rest = input.skip(n as int);
                    let inner = packed_pairs(rest, count, ids);
                    assert(packed_value(input, ids) == head.followed_by(inner));
                    lemma_resolvable_parts(head, inner, ids, names);
                    lemma_pairs_agree(rest, count, ids, names, floats, tail);
                    lemma_map_agrees(
                        count,
                        n,
                        inner,
                        json_fields(inner.out + tail, count, keys, floats),
                        json_fields(rest, count, Keys::Raw, floats),
                        names,
                        floats,
                        tail,
                    );
                },
                _ => {
                    assert(packed_value(input, ids) == head);
                    lemma_scalar_agrees(token, n, names, floats, tail);
                },
            }
        },
        Err(_) => {},
    }
}

/// The key of a packed pair, whatever follows it, is read as the name that
/// the raw key has.
pub proof fn lemma_key_agrees(
    input: Seq<u8>,
    ids: Ids,
    names: Names,
    tail: Seq<u8>,
)
    requires
        resolvable(packed_key(input, ids), ids, names),
    ensures
        ({
            let key = packed_key(input, ids);
            let packed = json_key(key.out + tail, Keys::Interned(names));
            let raw = json_key(input, Keys::Raw);
            &&& raw.fault is None
            &&& packed.fault is None
            &&& packed.text == raw.text
            &&& packed.used == key.out.len()
            &&& raw.used == key.used
            &&& 1 <= raw.used <= input.len()
        }),
{
    let key = packed_key(input, ids);
    lemma_event_within(input);
    match event_at(input) {
        Ok((Token::Str(s), n)) => {
            let name = json_escaped(s);
            let id = ids[name];
            assert(key.keys.contains(name));
            lemma_reread_uint(id as u64, tail);
        },
        _ => {},
    }
}

/// A packed pair, whatever follows it, is transcoded as the raw field is.
pub proof fn lemma_pair_agrees(
    input: Seq<u8>,
    first: bool,
    ids: Ids,
    names: Names,
    floats: spec_fn(Float) -> Seq<char>,
    tail: Seq<u8>,
)
    requires
        resolvable(packed_pair(input, ids), ids, names),
    ensures
        agrees(
            packed_pair(input, ids),
            json_field(packed_pair(input, ids).out + tail, first, Keys::Interned(names), floats),
            json_field(input, first, Keys::Raw, floats),
        ),
    decreases input.len(), 1nat,
{
    let p = packed_pair(input, ids);
    let key = packed_key(input, ids);
    lemma_event_within(input);
    if key.fault is None && key.used <= input.len() {
        let rest = input.skip(key.used as int);
        let value = packed_value(rest, ids);
        assert(p == key.followed_by(value));
        lemma_resolvable_parts(key, value, ids, names);
        lemma_key_agrees(input, ids, names, value.out + tail);
        assert(p.out + tail =~= key.out + (value.out + tail));
        assert((p.out + tail).skip(key.out.len() as int) =~= value.out + tail);
        lemma_value_agrees(rest, ids, names, floats, tail);
    }
}

/// Packed values, whatever follows them, are transcoded as the raw values
/// are.
pub proof fn lemma_items_agree(
    input: Seq<u8>,
    count: nat,
    ids: Ids,
    names: Names,
    floats: spec_fn(Float) -> Seq<char>,
    tail: Seq<u8>,
)
    requires
        resolvable(packed_items(input, count, ids), ids, names),
    ensures
        agrees(
            packed_items(input, count, ids),
            json_items(
                packed_items(input, count, ids).out + tail,
                count,
                Keys::Interned(names),
                floats,
            ),
            json_items(input, count, Keys::Raw, floats),
        ),
    decreases input.len(), count + 1,
{
    if count > 0 {
        let p = packed_items(input, count, ids);
        let before = packed_items(input, (count - 1) as nat, ids);
        lemma_items_within(input, (count - 1) as nat, ids);
        let value = packed_value(input.skip(before.used as int), ids);
        assert(p == before.followed_by(value));
        lemma_resolvable_parts(before, value, ids, names);
        assert(p.out + tail =~= before.out + (value.out + tail));
        lemma_items_agree(input, (count - 1) as nat, ids, names, floats, value.out + tail);
        assert((p.out + tail).skip(before.out.len() as int) =~= value.out + tail);
        lemma_value_agrees(input.skip(before.used as int), ids, names, floats, tail);
    }
}

/// Packed pairs, whatever follows them, are transcoded as the raw fields
/// are.
pub proof fn lemma_pairs_agree(
    input: Seq<u8>,
    count: nat,
    ids: Ids,
    names: Names,
    floats: spec_fn(Float) -> Seq<char>,
    tail: Seq<u8>,
)
    requires
        resolvable(packed_pairs(input, count, ids), ids, names),
    ensures
        agrees(
            packed_pairs(input, count, ids),
            json_fields(
                packed_pairs(input, count, ids).out + tail,
                count,
                Keys::Interned(names),
                floats,
            ),
            json_fields(input, count, Keys::Raw, floats),
        ),
    decreases input.len(), count + 1,
{
    if count > 0 {
        let p = packed_pairs(input, count, ids);
        let before = packed_pairs(input, (count - 1) as nat, ids);
        lemma_pairs_within(input, (count - 1) as nat, ids);
        let pair = packed_pair(input.skip(before.used as int), ids);
        assert(p == before.followed_by(pair));
        lemma_resolvable_parts(before, pair, ids, names);
        assert(p.out + tail =~= before.out + (pair.out + tail));
        lemma_pairs_agree(input, (count - 1) as nat, ids, names, floats, pair.out + tail);
        assert((p.out + tail).skip(before.out.len() as int) =~= pair.out + tail);
        lemma_pair_agrees(input.skip(before.used as int), count == 1, ids, names, floats, tail);
    }
}

/// Packing and transcoding give what transcoding alone gives. Where a
/// document was packed with the ids of `ids`, no escaped string in it was
/// too long for a MessagePack header, and `names` gives each key back from
/// its id, transcoding the packed bytes comes to the same as transcoding the
/// document itself: the same text, and the same failure where the document
/// holds what JSON cannot.
pub proof fn law_round_trip(
    doc: Seq<u8>,
    ids: Ids,
    names: Names,
    floats: spec_fn(Float) -> Seq<char>,
)
    requires
        resolvable(packed_value(doc, ids), ids, names),
    ensures
        json_value(packed_value(doc, ids).out, Keys::Interned(names), floats).text == json_value(
            doc,
            Keys::Raw,
            floats,
        ).text,
        json_value(packed_value(doc, ids).out, Keys::Interned(names), floats).fault == json_value(
            doc,
            Keys::Raw,
            floats,
        ).fault,
{
    lemma_value_agrees(doc, ids, names, floats, Seq::empty());
    assert(packed_value(doc, ids).out + Seq::<u8>::empty() =~= packed_value(doc, ids).out);
}

/// The same of a whole stream: transcoding what a stream was packed to
/// comes to the same as transcoding the stream, which is transcoding its
/// first document.
pub proof fn law_stream_round_trip(
    stream: Seq<u8>,
    ids: Ids,
    names: Names,
    floats: spec_fn(Float) -> Seq<char>,
)
    requires
        stream.len() > 0,
        resolvable(packed_stream(stream, ids), ids, names),
    ensures
        json_value(packed_stream(stream, ids).out, Keys::Interned(names), floats).text
            == json_value(stream, Keys::Raw, floats).text,
        json_value(packed_stream(stream, ids).out, Keys::Interned(names), floats).fault
            == json_value(stream, Keys::Raw, floats).fault,
{
    let first = packed_value(stream, ids);
    lemma_value_within(stream, ids);
    lemma_event_within(stream);
    if first.fault is None && 1 <= first.used <= stream.len() {
        let others = packed_stream(stream.skip(first.used as int), ids);
        lemma_resolvable_parts(first, others, ids, names);
        lemma_value_agrees(stream, ids, names, floats, others.out);
    }
}

/// A string is escaped once. Where a document is one string, the text that
/// its packed form is transcoded to is that string between quotes, escaped
/// as JSON asks: what the packer escaped, the transcoder does not escape
/// again.
pub proof fn law_escaped_once(
    doc: Seq<u8>,
    s: Seq<char>,
    ids: Ids,
    names: Names,
    floats: spec_fn(Float) -> Seq<char>,
)
    requires
        event_at(doc) matches Ok((Token::Str(t), _)) && t == s,
        !packed_value(doc, ids).clipped,
    ensures
        packed_value(doc, ids).fault is None,
        json_value(packed_value(doc, ids).out, Keys::Interned(names), floats).fault is None,
        json_value(packed_value(doc, ids).out, Keys::Interned(names), floats).text == quoted(
            json_escaped(s),
        ),
        json_value(doc, Keys::Raw, floats).text == quoted(json_escaped(s)),
{
    lemma_event_within(doc);
    law_round_trip(doc, ids, names, floats);
}

/// A key that is no string is refused. Where the input stands at a pair
/// whose key does not start as a string does, packing the pair fails as
/// unsupported, with nothing read and nothing written.
pub proof fn law_key_must_be_string(input: Seq<u8>, ids: Ids)
    requires
        input.len() > 0,
        !marker_of(input[0]).is_str(),
    ensures
        packed_pair(input, ids).fault == Some(PackFault::Unsupported(STRING_KEYS_ONLY@)),
        packed_pair(input, ids).out == Seq::<u8>::empty(),
        packed_pair(input, ids).used == 0,
{
}

/// The same of a whole map: where the first key of a map is no string,
/// packing the map fails as unsupported when only its header is written.
pub proof fn law_map_key_must_be_string(input: Seq<u8>, ids: Ids)
    requires
        event_at(input) matches Ok((Token::StartObject(count), n)) && count > 0 && n < input.len()
            && !marker_of(input[n as int]).is_str(),
    ensures
        packed_value(input, ids).fault == Some(PackFault::Unsupported(STRING_KEYS_ONLY@)),
        event_at(input) matches Ok((token, n)) && packed_value(input, ids).out == token_bytes(token)
            && packed_value(input, ids).used == n,
{
    lemma_event_within(input);
    match event_at(input) {
        Ok((Token::StartObject(count), n)) => {
            let rest = input.skip(n as int);
            law_key_must_be_string(rest, ids);
            assert(packed_pairs(rest, 0, ids) == Packed::nothing());
            assert(rest.skip(0) =~= rest);
            assert(packed_pairs(rest, 1, ids) == Packed::nothing().followed_by(
                packed_pair(rest, ids),
            ));
            lemma_pairs_stuck(rest, 1, count, ids);
            let p = packed_value(input, ids);
            assert(p.out =~= token_bytes(Token::StartObject(count)));
        },
        _ => {},
    }
}

/// An id without a name ends the run. Where the input stands at a field
/// whose key is an id that `names` does not have, transcoding the field
/// fails with the key not found, and nothing is written for the field.
pub proof fn law_key_must_be_known(
    input: Seq<u8>,
    first: bool,
    names: Names,
    floats: spec_fn(Float) -> Seq<char>,
)
    requires
        event_at(input) matches Ok((Token::UInt(k), _)) && !(k <= usize::MAX && names.contains_key(
            k as usize,
        )),
    ensures
        json_field(input, first, Keys::Interned(names), floats).fault == Some(
            UnpackFault::KeyNotFound,
        ),
        json_field(input, first, Keys::Interned(names), floats).text == Seq::<char>::empty(),
{
}

/// Interning is stable: a string that is interned twice gets the same id
/// both times, and the second time changes nothing.
pub proof fn law_interning_stable(
    before: Ids,
    s: Seq<char>,
    first: usize,
    between: Ids,
    second: usize,
    after: Ids,
)
    requires
        interned(before, s, Some(first), between),
        interned(between, s, Some(second), after),
    ensures
        first == second,
        after == between,
{
    assert(after =~= between);
}

} // verus!
