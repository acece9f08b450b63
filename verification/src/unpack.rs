//! Transcoding: a MessagePack stream is written as JSON text, value by
//! value, without a tree in between. A compacted stream has ids for keys,
//! which a resolver turns back into strings, and its strings are escaped
//! already; a raw stream has strings for keys, and its strings are escaped
//! on the way.

use crate::error::{UnpackError, UnpackFault};
use crate::escape::{escape, json_escaped};
use crate::intern::{Names, Resolver};
use crate::json::{
    bool_text, decimal, null_text, quoted, rendering, renders, write_bool, write_float, write_i64,
    write_null, write_quoted, write_u64, Float,
};
use crate::msgpack::{event_at, read_value, Token, ValueEvent};
use crate::prefix::{lemma_begins_longer, lemma_begins_more};
use vstd::prelude::*;
use vstd::string::StringExecFns;

verus! {

/// What the transcoder says of a byte string.
pub const NO_BINARY: &'static str = "binary arrays are not supported";

/// What the transcoder says of a key of a raw stream that is no string.
pub const STRING_KEYS: &'static str = "map with non-str key";

/// What the transcoder says of a key of a compacted stream that is no id.
pub const ID_KEYS: &'static str = "map with non-interned/uint key";

/// What stands for the keys of the maps in a stream.
pub enum Keys {
    /// The keys are strings, and no string is escaped yet.
    Raw,
    /// The keys are ids of strings in this table, and every string is
    /// escaped already.
    Interned(Names),
}

/// What transcoding some input comes to.
pub struct Json {
    /// The text written.
    pub text: Seq<char>,
    /// How many bytes of the input were taken to write it.
    pub used: nat,
    /// Whether a key was reached that the resolver is asked about.
    pub asked: bool,
    /// Why transcoding stopped, where it did.
    pub fault: Option<UnpackFault>,
}

impl Json {
    /// Nothing read and nothing written.
    pub open spec fn nothing() -> Json {
        Json { text: Seq::empty(), used: 0, asked: false, fault: None }
    }

    /// `text` written for `used` bytes.
    pub open spec fn of(text: Seq<char>, used: nat) -> Json {
        Json { text, used, asked: false, fault: None }
    }

    /// Stopped for `fault` after `used` bytes, with nothing written.
    pub open spec fn failed(fault: UnpackFault, used: nat) -> Json {
        Json { text: Seq::empty(), used, asked: false, fault: Some(fault) }
    }

    /// `self`, and after it `next`, unless `self` stopped.
    pub open spec fn followed_by(self, next: Json) -> Json {
        if self.fault is Some {
            self
        } else {
            Json {
                text: self.text + next.text,
                used: self.used + next.used,
                asked: self.asked || next.asked,
                fault: next.fault,
            }
        }
    }
}

/// The JSON text of a scalar that took `used` bytes. A byte string has
/// none.
pub open spec fn json_scalar(
    token: Token,
    used: nat,
    keys: Keys,
    floats: spec_fn(Float) -> Seq<char>,
) -> Json {
    match token {
        Token::SInt(v) => Json::of(decimal(v as int), used),
        Token::UInt(v) => Json::of(decimal(v as int), used),
        Token::Str(s) => Json::of(
            quoted(
                if keys is Raw {
                    json_escaped(s)
                } else {
                    s
                },
            ),
            used,
        ),
        Token::F32(bits) => Json::of(floats(Float::Single(bits)), used),
        Token::F64(bits) => Json::of(floats(Float::Double(bits)), used),
        Token::Bool(v) => Json::of(bool_text(v), used),
        Token::Nil => Json::of(null_text(), used),
        _ => Json::failed(UnpackFault::Unsupported(NO_BINARY@), used),
    }
}

/// The name of the field whose key stands at the front of `input`, as it is
/// written between the quotes; in `text`.
pub open spec fn json_key(input: Seq<u8>, keys: Keys) -> Json {
    match event_at(input) {
        Err(fault) => Json::failed(UnpackFault::ValueRead(fault), 0),
        Ok((token, n)) => match keys {
            Keys::Raw => match token {
                Token::Str(s) => Json::of(json_escaped(s), n),
                _ => Json::failed(UnpackFault::Unsupported(STRING_KEYS@), n),
            },
            Keys::Interned(names) => match token {
                Token::UInt(k) => if k <= usize::MAX && names.contains_key(k as usize) {
                    Json { asked: true, ..Json::of(names[k as usize], n) }
                } else {
                    Json { asked: true, ..Json::failed(UnpackFault::KeyNotFound, n) }
                },
                _ => Json::failed(UnpackFault::Unsupported(ID_KEYS@), n),
            },
        },
    }
}

/// The comma between two neighbours: nothing before the first.
pub open spec fn comma(first: bool) -> Seq<char> {
    if first {
        Seq::empty()
    } else {
        seq![',']
    }
}

/// Transcoding the value at the front of `input`, with all that it
/// contains.
pub open spec fn json_value(
    input: Seq<u8>,
    keys: Keys,
    floats: spec_fn(Float) -> Seq<char>,
) -> Json
    decreases input.len(), 0nat,
{
    match event_at(input) {
        Err(fault) => Json::failed(UnpackFault::ValueRead(fault), 0),
        Ok((token, n)) => {
            if 1 <= n <= input.len() {
                match token {
                    Token::StartArray(count) => Json::of(seq!['['], n).followed_by(
                        json_items(input.skip(n as int), count, keys, floats),
                    ).followed_by(Json::of(seq![']'], 0)),
                    Token::StartObject(count) => Json::of(seq!['{'], n).followed_by(
                        json_fields(input.skip(n as int), count, keys, floats),
                    ).followed_by(Json::of(seq!['}'], 0)),
                    _ => json_scalar(token, n, keys, floats),
                }
            } else {
                json_scalar(token, n, keys, floats)
            }
        },
    }
}

/// Transcoding the field at the front of `input`: once its name is known,
/// a comma unless it is the `first`, the name in quotes, a colon, and the
/// value.
pub open spec fn json_field(
    input: Seq<u8>,
    first: bool,
    keys: Keys,
    floats: spec_fn(Float) -> Seq<char>,
) -> Json
    decreases input.len(), 1nat,
{
    let key = json_key(input, keys);
    if key.fault is None && key.used <= input.len() {
        Json { text: comma(first) + quoted(key.text) + seq![':'], ..key }.followed_by(
            json_value(input.skip(key.used as int), keys, floats),
        )
    } else {
        key
    }
}

/// Transcoding the first `count` values of `input`, with commas between
/// them.
pub open spec fn json_items(
    input: Seq<u8>,
    count: nat,
    keys: Keys,
    floats: spec_fn(Float) -> Seq<char>,
) -> Json
    decreases input.len(), count + 1,
{
    if count == 0 {
        Json::nothing()
    } else {
        let before = json_items(input, (count - 1) as nat, keys, floats);
        if before.fault is None && before.used <= input.len() {
            before.followed_by(Json::of(comma(count == 1), 0)).followed_by(
                json_value(input.skip(before.used as int), keys, floats),
            )
        } else {
            before
        }
    }
}

/// Transcoding the first `count` fields of `input`, with commas between
/// them.
pub open spec fn json_fields(
    input: Seq<u8>,
    count: nat,
    keys: Keys,
    floats: spec_fn(Float) -> Seq<char>,
) -> Json
    decreases input.len(), count + 1,
{
    if count == 0 {
        Json::nothing()
    } else {
        let before = json_fields(input, (count - 1) as nat, keys, floats);
        if before.fault is None && before.used <= input.len() {
            before.followed_by(
                json_field(input.skip(before.used as int), count == 1, keys, floats),
            )
        } else {
            before
        }
    }
}

/// Once transcoding values has stopped, asking for more of them changes
/// nothing.
pub proof fn lemma_items_stuck(
    input: Seq<u8>,
    done: nat,
    count: nat,
    keys: Keys,
    floats: spec_fn(Float) -> Seq<char>,
)
    requires
        done <= count,
        json_items(input, done, keys, floats).fault is Some,
    ensures
        json_items(input, count, keys, floats) == json_items(input, done, keys, floats),
    decreases count,
{
    if done < count {
        lemma_items_stuck(input, done, (count - 1) as nat, keys, floats);
    }
}

/// Once transcoding fields has stopped, asking for more of them changes
/// nothing.
pub proof fn lemma_fields_stuck(
    input: Seq<u8>,
    done: nat,
    count: nat,
    keys: Keys,
    floats: spec_fn(Float) -> Seq<char>,
)
    requires
        done <= count,
        json_fields(input, done, keys, floats).fault is Some,
    ensures
        json_fields(input, count, keys, floats) == json_fields(input, done, keys, floats),
    decreases count,
{
    if done < count {
        lemma_fields_stuck(input, done, (count - 1) as nat, keys, floats);
    }
}

/// What transcoding the first values writes is the beginning of what
/// transcoding more of them writes.
pub proof fn lemma_items_grow(
    input: Seq<u8>,
    done: nat,
    count: nat,
    keys: Keys,
    floats: spec_fn(Float) -> Seq<char>,
)
    requires
        done <= count,
    ensures
        json_items(input, done, keys, floats).text.is_prefix_of(
            json_items(input, count, keys, floats).text,
        ),
    decreases count,
{
    let first = json_items(input, done, keys, floats).text;
    if done < count {
        lemma_items_grow(input, done, (count - 1) as nat, keys, floats);
        let before = json_items(input, (count - 1) as nat, keys, floats).text;
        let all = json_items(input, count, keys, floats).text;
        assert(before.is_prefix_of(all)) by {
            assert(before =~= all.subrange(0, before.len() as int));
        }
        lemma_begins_longer(first, Seq::empty(), before, all);
        assert(Seq::<char>::empty() + before =~= before);
        assert(Seq::<char>::empty() + all =~= all);
    } else {
        assert(first =~= first.subrange(0, first.len() as int));
    }
}

/// What transcoding the first fields writes is the beginning of what
/// transcoding more of them writes.
pub proof fn lemma_fields_grow(
    input: Seq<u8>,
    done: nat,
    count: nat,
    keys: Keys,
    floats: spec_fn(Float) -> Seq<char>,
)
    requires
        done <= count,
    ensures
        json_fields(input, done, keys, floats).text.is_prefix_of(
            json_fields(input, count, keys, floats).text,
        ),
    decreases count,
{
    let first = json_fields(input, done, keys, floats).text;
    if done < count {
        lemma_fields_grow(input, done, (count - 1) as nat, keys, floats);
        let before = json_fields(input, (count - 1) as nat, keys, floats).text;
        let all = json_fields(input, count, keys, floats).text;
        assert(before.is_prefix_of(all)) by {
            assert(before =~= all.subrange(0, before.len() as int));
        }
        lemma_begins_longer(first, Seq::empty(), before, all);
        assert(Seq::<char>::empty() + before =~= before);
        assert(Seq::<char>::empty() + all =~= all);
    } else {
        assert(first =~= first.subrange(0, first.len() as int));
    }
}

/// If the resolver is asked within the first values, it is asked within
/// more of them.
pub proof fn lemma_items_asked(
    input: Seq<u8>,
    done: nat,
    count: nat,
    keys: Keys,
    floats: spec_fn(Float) -> Seq<char>,
)
    requires
        done <= count,
        json_items(input, done, keys, floats).asked,
    ensures
        json_items(input, count, keys, floats).asked,
    decreases count,
{
    if done < count {
        lemma_items_asked(input, done, (count - 1) as nat, keys, floats);
    }
}

/// If the resolver is asked within the first fields, it is asked within
/// more of them.
pub proof fn lemma_fields_asked(
    input: Seq<u8>,
    done: nat,
    count: nat,
    keys: Keys,
    floats: spec_fn(Float) -> Seq<char>,
)
    requires
        done <= count,
        json_fields(input, done, keys, floats).asked,
    ensures
        json_fields(input, count, keys, floats).asked,
    decreases count,
{
    if done < count {
        lemma_fields_asked(input, done, (count - 1) as nat, keys, floats);
    }
}

/// The keys that a run works with: those of the resolver it was given, or
/// raw strings where it was given none.
pub open spec fn keys_of<R: Resolver>(resolver: Option<&R>) -> Keys {
    match resolver {
        Some(resolver) => Keys::Interned(resolver.names()),
        None => Keys::Raw,
    }
}

/// Whether no lookup can fail: there is no resolver to ask, or it is an
/// infallible one.
pub open spec fn certain<R: Resolver>(resolver: Option<&R>) -> bool {
    match resolver {
        Some(resolver) => resolver.infallible(),
        None => true,
    }
}

/// The run ended where the resolver failed: `j` asks the resolver, which is
/// not an infallible one, and what was written is the beginning of what `j`
/// has.
pub open spec fn cut_short<R: Resolver>(
    resolver: Option<&R>,
    out: Seq<char>,
    grown: Seq<char>,
    j: Json,
) -> bool {
    &&& j.asked
    &&& !certain(resolver)
    &&& grown.is_prefix_of(out + j.text)
}

/// The run wrote what `j` has and took the input that `j` used.
pub open spec fn wrote(
    input: Seq<u8>,
    out: Seq<char>,
    rest: Seq<u8>,
    grown: Seq<char>,
    j: Json,
) -> bool {
    &&& grown =~= out + j.text
    &&& j.used <= input.len()
    &&& rest =~= input.skip(j.used as int)
}

/// What a run of the transcoder owes: `input` and `out` are the rest of the
/// stream and the text before it and `rest` and `grown` after it, `r` is
/// what it returned, and `j` is what transcoding `input` comes to. The text
/// only grows. Unless the resolver failed, the run did exactly `j`; the
/// resolver can only fail where `j` asks it, and an infallible one never,
/// and then what was written is the beginning of what `j` has.
pub open spec fn transcodes<R: Resolver>(
    input: Seq<u8>,
    out: Seq<char>,
    rest: Seq<u8>,
    grown: Seq<char>,
    r: Result<(), UnpackError<R>>,
    j: Json,
    resolver: Option<&R>,
) -> bool {
    &&& out.is_prefix_of(grown)
    &&& match r {
        Err(UnpackError::Resolver(_)) => cut_short(resolver, out, grown, j),
        Err(e) => j.fault == Some(e@) && wrote(input, out, rest, grown, j),
        Ok(()) => j.fault is None && wrote(input, out, rest, grown, j),
    }
}

/// What a run of the transcoder owes to the text: as [`transcodes`],
/// without a word on where the input stands.
pub open spec fn transcodes_into<R: Resolver>(
    out: Seq<char>,
    grown: Seq<char>,
    r: Result<(), UnpackError<R>>,
    j: Json,
    resolver: Option<&R>,
) -> bool {
    &&& out.is_prefix_of(grown)
    &&& match r {
        Err(UnpackError::Resolver(_)) => cut_short(resolver, out, grown, j),
        Err(e) => j.fault == Some(e@) && grown =~= out + j.text,
        Ok(()) => j.fault is None && grown =~= out + j.text,
    }
}

/// A run that did `first` and then, from where that ended, `second`, did
/// `first` followed by `second`.
proof fn lemma_joined<R: Resolver>(
    input: Seq<u8>,
    out: Seq<char>,
    first: Json,
    mid: Seq<char>,
    rest: Seq<u8>,
    grown: Seq<char>,
    r: Result<(), UnpackError<R>>,
    second: Json,
    resolver: Option<&R>,
)
    requires
        first.fault is None,
        wrote(input, out, input.skip(first.used as int), mid, first),
        transcodes(input.skip(first.used as int), mid, rest, grown, r, second, resolver),
    ensures
        transcodes(input, out, rest, grown, r, first.followed_by(second), resolver),
{
    if r matches Err(UnpackError::Resolver(_)) {
        assert(mid + second.text =~= out + (first.text + second.text));
    }
}

/// The name that a lookup found for a key, or why there is none: the
/// resolver has no string for the key, or it failed.
pub fn field_name<'a, R: Resolver>(found: Result<Option<&'a str>, R::Err>) -> (r: Result<
    &'a str,
    UnpackError<R>,
>)
    ensures
        match found {
            Ok(Some(name)) => r == Ok::<&str, UnpackError<R>>(name),
            Ok(None) => r matches Err(UnpackError::KeyNotFound),
            Err(e) => r matches Err(UnpackError::Resolver(handed)) && handed == e,
        },
{
    match found {
        Ok(Some(name)) => Ok(name),
        Ok(None) => Err(UnpackError::KeyNotFound),
        Err(e) => Err(UnpackError::Resolver(e)),
    }
}

/// Appends a comma, unless this is the first of its neighbours.
fn write_comma(out: &mut String, first: bool)
    ensures
        final(out)@ == old(out)@ + comma(first),
{
    if !first {
        proof {
            reveal_strlit(",");
        }
        out.append(",");
        assert(out@ =~= old(out)@ + comma(first));
    } else {
        assert(out@ =~= old(out)@ + comma(first));
    }
}

/// Appends the start of a field: a comma unless it is the first, the name
/// in quotes, and a colon.
fn write_name(out: &mut String, first: bool, name: &str)
    ensures
        final(out)@ == old(out)@ + (comma(first) + quoted(name@) + seq![':']),
{
    write_comma(out, first);
    write_quoted(out, name);
    proof {
        reveal_strlit(":");
    }
    out.append(":");
    assert(out@ =~= old(out)@ + (comma(first) + quoted(name@) + seq![':']));
}

/// Transcodes the value at the front of `reader` with all that it contains.
/// With a resolver the stream is taken as compacted: strings are written as
/// they are, and keys are ids. Without one it is taken as raw: strings are
/// escaped, and keys are strings. The first failure ends the run, and what
/// was written stays.
pub fn transcode_value<R: Resolver, F: Fn(Float) -> String>(
    reader: &mut &[u8],
    resolver: Option<&R>,
    out: &mut String,
    render: &F,
) -> (r: Result<(), UnpackError<R>>)
    requires
        renders(*render),
    ensures
        transcodes(
            old(reader)@,
            old(out)@,
            final(reader)@,
            final(out)@,
            r,
            json_value(old(reader)@, keys_of(resolver), rendering(*render)),
            resolver,
        ),
    decreases old(reader)@.len(), 0nat,
{
    let ghost input = reader@;
    let ghost keys = keys_of(resolver);
    let ghost floats = rendering(*render);
    let event = match read_value(reader) {
        Ok(event) => event,
        Err(e) => {
            return Err(UnpackError::ValueRead(e));
        },
    };
    let ghost n = event_at(input)->Ok_0.1;
    match event {
        ValueEvent::SInt(v) => {
            write_i64(out, v);
            Ok(())
        },
        ValueEvent::UInt(v) => {
            write_u64(out, v);
            Ok(())
        },
        ValueEvent::Str(s) => {
            match resolver {
                Some(_) => {
                    write_quoted(out, s);
                },
                None => {
                    let escaped = escape(s);
                    write_quoted(out, escaped.as_str());
                },
            }
            Ok(())
        },
        ValueEvent::Bytes(_) => Err(UnpackError::Unsupported(NO_BINARY)),
        ValueEvent::F32(bits) => {
            write_float(out, Float::Single(bits), render);
            Ok(())
        },
        ValueEvent::F64(bits) => {
            write_float(out, Float::Double(bits), render);
            Ok(())
        },
        ValueEvent::Bool(v) => {
            write_bool(out, v);
            Ok(())
        },
        ValueEvent::Nil => {
            write_null(out);
            Ok(())
        },
        ValueEvent::StartArray(count) => {
            proof {
                reveal_strlit("[");
                reveal_strlit("]");
            }
            out.append("[");
            let ghost opened = out@;
            let r = transcode_items(reader, resolver, out, render, count);
            let ghost filled = out@;
            if r.is_ok() {
                out.append("]");
            }
            proof {
                let open = Json::of(seq!['['], n);
                let inner = json_items(input.skip(n as int), count as nat, keys, floats);
                assert(opened =~= old(out)@ + open.text);
                lemma_joined(input, old(out)@, open, opened, reader@, filled, r, inner, resolver);
                if r matches Err(UnpackError::Resolver(_)) {
                    lemma_begins_more(
                        filled,
                        old(out)@,
                        open.followed_by(inner).text,
                        seq![']'],
                    );
                }
            }
            r
        },
        ValueEvent::StartObject(count) => {
            proof {
                reveal_strlit("{");
                reveal_strlit("}");
            }
            out.append("{");
            let ghost opened = out@;
            let r = transcode_fields(reader, resolver, out, render, count);
            let ghost filled = out@;
            if r.is_ok() {
                out.append("}");
            }
            proof {
                let open = Json::of(seq!['{'], n);
                let inner = json_fields(input.skip(n as int), count as nat, keys, floats);
                assert(opened =~= old(out)@ + open.text);
                lemma_joined(input, old(out)@, open, opened, reader@, filled, r, inner, resolver);
                if r matches Err(UnpackError::Resolver(_)) {
                    lemma_begins_more(
                        filled,
                        old(out)@,
                        open.followed_by(inner).text,
                        seq!['}'],
                    );
                }
            }
            r
        },
    }
}

/// Transcodes the field at the front of `reader`: finds the name for its
/// key, writes the start of the field, and transcodes its value.
pub fn transcode_field<R: Resolver, F: Fn(Float) -> String>(
    reader: &mut &[u8],
    resolver: Option<&R>,
    out: &mut String,
    render: &F,
    first: bool,
) -> (r: Result<(), UnpackError<R>>)
    requires
        renders(*render),
    ensures
        transcodes(
            old(reader)@,
            old(out)@,
            final(reader)@,
            final(out)@,
            r,
            json_field(old(reader)@, first, keys_of(resolver), rendering(*render)),
            resolver,
        ),
    decreases old(reader)@.len(), 1nat,
{
    let ghost input = reader@;
    let ghost keys = keys_of(resolver);
    let event = match read_value(reader) {
        Ok(event) => event,
        Err(e) => {
            return Err(UnpackError::ValueRead(e));
        },
    };
    match resolver {
        None => match event {
            ValueEvent::Str(s) => {
                let name = escape(s);
                write_name(out, first, name.as_str());
            },
            _ => {
                return Err(UnpackError::Unsupported(STRING_KEYS));
            },
        },
        Some(resolver) => match event {
            ValueEvent::UInt(k) => {
                if k > usize::MAX as u64 {
                    return Err(UnpackError::KeyNotFound);
                }
                match field_name(resolver.resolve(k as usize)) {
                    Ok(name) => {
                        write_name(out, first, name);
                    },
                    Err(e) => {
                        return Err(e);
                    },
                }
            },
            _ => {
                return Err(UnpackError::Unsupported(ID_KEYS));
            },
        },
    }
    let ghost key = json_key(input, keys);
    let ghost start = Json { text: comma(first) + quoted(key.text) + seq![':'], ..key };
    let ghost named = out@;
    let r = transcode_value(reader, resolver, out, render);
    proof {
        lemma_joined(
            input,
            old(out)@,
            start,
            named,
            reader@,
            out@,
            r,
            json_value(input.skip(key.used as int), keys, rendering(*render)),
            resolver,
        );
    }
    r
}

/// Transcodes `count` values from the front of `reader`, with commas
/// between them.
pub fn transcode_items<R: Resolver, F: Fn(Float) -> String>(
    reader: &mut &[u8],
    resolver: Option<&R>,
    out: &mut String,
    render: &F,
    count: usize,
) -> (r: Result<(), UnpackError<R>>)
    requires
        renders(*render),
    ensures
        transcodes(
            old(reader)@,
            old(out)@,
            final(reader)@,
            final(out)@,
            r,
            json_items(old(reader)@, count as nat, keys_of(resolver), rendering(*render)),
            resolver,
        ),
    decreases old(reader)@.len(), count + 1,
{
    let ghost input = reader@;
    let ghost keys = keys_of(resolver);
    let ghost floats = rendering(*render);
    let mut i: usize = 0;
    while i < count
        invariant
            i <= count,
            renders(*render),
            input == old(reader)@,
            keys == keys_of(resolver),
            floats == rendering(*render),
            json_items(input, i as nat, keys, floats).fault is None,
            wrote(input, old(out)@, reader@, out@, json_items(input, i as nat, keys, floats)),
        decreases count - i,
    {
        let ghost so_far = json_items(input, i as nat, keys, floats);
        write_comma(out, i == 0);
        let ghost parted = out@;
        let r = transcode_value(reader, resolver, out, render);
        proof {
            let lead = so_far.followed_by(Json::of(comma(i == 0), 0));
            assert(parted =~= old(out)@ + lead.text);
            lemma_joined(
                input,
                old(out)@,
                lead,
                parted,
                reader@,
                out@,
                r,
                json_value(input.skip(so_far.used as int), keys, floats),
                resolver,
            );
            match r {
                Ok(()) => {},
                Err(UnpackError::Resolver(_)) => {
                    lemma_items_asked(input, (i + 1) as nat, count as nat, keys, floats);
                    lemma_items_grow(input, (i + 1) as nat, count as nat, keys, floats);
                    lemma_begins_longer(
                        out@,
                        old(out)@,
                        json_items(input, (i + 1) as nat, keys, floats).text,
                        json_items(input, count as nat, keys, floats).text,
                    );
                },
                Err(_) => {
                    lemma_items_stuck(input, (i + 1) as nat, count as nat, keys, floats);
                },
            }
        }
        match r {
            Ok(()) => {},
            Err(e) => {
                return Err(e);
            },
        }
        i += 1;
    }
    Ok(())
}

/// Transcodes `count` fields from the front of `reader`, with commas
/// between them.
pub fn transcode_fields<R: Resolver, F: Fn(Float) -> String>(
    reader: &mut &[u8],
    resolver: Option<&R>,
    out: &mut String,
    render: &F,
    count: usize,
) -> (r: Result<(), UnpackError<R>>)
    requires
        renders(*render),
    ensures
        transcodes(
            old(reader)@,
            old(out)@,
            final(reader)@,
            final(out)@,
            r,
            json_fields(old(reader)@, count as nat, keys_of(resolver), rendering(*render)),
            resolver,
        ),
    decreases old(reader)@.len(), count + 1,
{
    let ghost input = reader@;
    let ghost keys = keys_of(resolver);
    let ghost floats = rendering(*render);
    let mut i: usize = 0;
    while i < count
        invariant
            i <= count,
            renders(*render),
            input == old(reader)@,
            keys == keys_of(resolver),
            floats == rendering(*render),
            json_fields(input, i as nat, keys, floats).fault is None,
            wrote(input, old(out)@, reader@, out@, json_fields(input, i as nat, keys, floats)),
        decreases count - i,
    {
        let ghost so_far = json_fields(input, i as nat, keys, floats);
        let ghost parted = out@;
        let r = transcode_field(reader, resolver, out, render, i == 0);
        proof {
            lemma_joined(
                input,
                old(out)@,
                so_far,
                parted,
                reader@,
                out@,
                r,
                json_field(input.skip(so_far.used as int), i == 0, keys, floats),
                resolver,
            );
            match r {
                Ok(()) => {},
                Err(UnpackError::Resolver(_)) => {
                    lemma_fields_asked(input, (i + 1) as nat, count as nat, keys, floats);
                    lemma_fields_grow(input, (i + 1) as nat, count as nat, keys, floats);
                    lemma_begins_longer(
                        out@,
                        old(out)@,
                        json_fields(input, (i + 1) as nat, keys, floats).text,
                        json_fields(input, count as nat, keys, floats).text,
                    );
                },
                Err(_) => {
                    lemma_fields_stuck(input, (i + 1) as nat, count as nat, keys, floats);
                },
            }
        }
        match r {
            Ok(()) => {},
            Err(e) => {
                return Err(e);
            },
        }
        i += 1;
    }
    Ok(())
}

/// A resolver with no names, for a stream that has none to look up.
pub struct NoOpInterner;

impl Resolver for NoOpInterner {
    type Err = core::convert::Infallible;

    open spec fn names(&self) -> Names {
        Map::empty()
    }

    open spec fn infallible(&self) -> bool {
        true
    }

    fn resolve(&self, _k: usize) -> (r: Result<Option<&str>, core::convert::Infallible>)
        ensures
            r == Ok::<Option<&str>, core::convert::Infallible>(None),
    {
        Ok(None)
    }
}

/// Transcodes a raw stream, one whose keys were not interned, to JSON.
pub struct NonInternedRmpToJson<'a, 's> {
    pub reader: &'a mut &'s [u8],
}

impl<'a, 's> NonInternedRmpToJson<'a, 's> {
    /// A transcoder that reads on from where `reader` stands.
    pub fn new(reader: &'a mut &'s [u8]) -> (t: NonInternedRmpToJson<'a, 's>)
        ensures
            *t.reader == *old(reader),
            *final(t.reader) == *final(reader),
    {
        NonInternedRmpToJson { reader }
    }

    /// Transcodes the next value of the stream with all that it contains,
    /// appends the text to `out` and moves the reader past the value.
    /// Strings are escaped, keys are strings, and floats are written as
    /// `render` writes them.
    pub fn try_write_to_json<F: Fn(Float) -> String>(self, out: &mut String, render: &F) -> (r:
        Result<(), UnpackError<NoOpInterner>>)
        requires
            renders(*render),
        ensures
            transcodes(
                (*old(self.reader))@,
                old(out)@,
                (*final(self.reader))@,
                final(out)@,
                r,
                json_value((*old(self.reader))@, Keys::Raw, rendering(*render)),
                None::<&NoOpInterner>,
            ),
    {
        transcode_value(self.reader, None::<&NoOpInterner>, out, render)
    }
}

/// Transcodes a compacted stream to JSON.
pub struct RmpToJson<'a, 's, I: Resolver> {
    pub reader: &'a mut &'s [u8],
    pub interner: &'a I,
}

impl<'a, 's, I: Resolver> RmpToJson<'a, 's, I> {
    /// A transcoder that reads on from where `reader` stands and looks keys
    /// up in `interner`.
    pub fn new(reader: &'a mut &'s [u8], interner: &'a I) -> (t: RmpToJson<'a, 's, I>)
        ensures
            *t.reader == *old(reader),
            *final(t.reader) == *final(reader),
            t.interner == interner,
    {
        RmpToJson { reader, interner }
    }

    /// Transcodes the next value of the stream with all that it contains,
    /// appends the text to `out` and moves the reader past the value.
    /// Strings are written as they are, keys are ids that the resolver turns
    /// into names, and floats are written as `render` writes them.
    pub fn try_write_to_json<F: Fn(Float) -> String>(self, out: &mut String, render: &F) -> (r:
        Result<(), UnpackError<I>>)
        requires
            renders(*render),
        ensures
            transcodes(
                (*old(self.reader))@,
                old(out)@,
                (*final(self.reader))@,
                final(out)@,
                r,
                json_value(
                    (*old(self.reader))@,
                    Keys::Interned(self.interner.names()),
                    rendering(*render),
                ),
                Some(self.interner),
            ),
    {
        transcode_value(self.reader, Some(self.interner), out, render)
    }
}

/// Transcodes the first value of the compacted stream `stream` to JSON and
/// appends the text to `out`. The ids of the keys are looked up in
/// `interner`; floats are written as `render` writes them.
pub fn compacted_stream_to_json<R: Resolver, F: Fn(Float) -> String>(
    stream: &[u8],
    interner: &R,
    out: &mut String,
    render: &F,
) -> (r: Result<(), UnpackError<R>>)
    requires
        renders(*render),
    ensures
        transcodes_into(
            old(out)@,
            final(out)@,
            r,
            json_value(stream@, Keys::Interned(interner.names()), rendering(*render)),
            Some(interner),
        ),
{
    let mut reader: &[u8] = stream;
    RmpToJson::new(&mut reader, interner).try_write_to_json(out, render)
}

/// Transcodes the first value of the raw stream `stream` to JSON and appends
/// the text to `out`. Floats are written as `render` writes them.
pub fn raw_msgpack_to_json<F: Fn(Float) -> String>(
    stream: &[u8],
    out: &mut String,
    render: &F,
) -> (r: Result<(), UnpackError<NoOpInterner>>)
    requires
        renders(*render),
    ensures
        transcodes_into(
            old(out)@,
            final(out)@,
            r,
            json_value(stream@, Keys::Raw, rendering(*render)),
            None::<&NoOpInterner>,
        ),
{
    let mut reader: &[u8] = stream;
    NonInternedRmpToJson::new(&mut reader).try_write_to_json(out, render)
}

} // verus!
