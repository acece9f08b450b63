use lasso::Rodeo;
use mpsquish::error::ReadValueError;
use mpsquish::intern::Names;
use mpsquish::rodeo::into_resolver;
use mpsquish::unpack::{field_name, transcode_value};
use mpsquish::{
    compacted_stream_to_json, raw_msgpack_to_json, Float, Interner, NoOpInterner,
    NonInternedRmpToJson, Resolver, RmpToJson, UnpackError,
};
use nyoom_json::WriteToJson;

fn render(x: Float) -> String {
    let mut text = String::new();
    match x {
        Float::Single(bits) => f32::from_bits(bits).write_to_json(&mut text),
        Float::Double(bits) => f64::from_bits(bits).write_to_json(&mut text),
    }
    text
}

fn table(names: &[&str]) -> lasso::RodeoResolver {
    let mut rodeo = Rodeo::new();
    for name in names {
        assert!(rodeo.intern(name).is_ok());
    }
    into_resolver(rodeo)
}

fn compact(doc: &[u8], names: &[&str]) -> (Result<(), UnpackError<lasso::RodeoResolver>>, String) {
    let resolver = table(names);
    let mut out = String::new();
    let r = compacted_stream_to_json(doc, &resolver, &mut out, &render);
    (r, out)
}

fn json(doc: &[u8], names: &[&str]) -> String {
    let (r, out) = compact(doc, names);
    assert!(r.is_ok());
    out
}

fn raw(doc: &[u8]) -> (Result<(), UnpackError<NoOpInterner>>, String) {
    let mut out = String::new();
    let r = raw_msgpack_to_json(doc, &mut out, &render);
    (r, out)
}

fn raw_json(doc: &[u8]) -> String {
    let (r, out) = raw(doc);
    assert!(r.is_ok());
    out
}

struct Broken;

impl Resolver for Broken {
    type Err = String;

    fn names(&self) -> Names {
        unreachable!()
    }

    fn infallible(&self) -> bool {
        unreachable!()
    }

    fn resolve(&self, k: usize) -> Result<Option<&str>, String> {
        Err(format!("cannot look up {}", k))
    }
}

#[test]
fn numbers_are_written_in_decimal() {
    assert_eq!(json(&[0x00], &[]), "0");
    assert_eq!(json(&[0x7f], &[]), "127");
    assert_eq!(json(&[0xcc, 0xff], &[]), "255");
    assert_eq!(json(&[0xcd, 0x30, 0x39], &[]), "12345");
    assert_eq!(json(&[0xce, 0xff, 0xff, 0xff, 0xff], &[]), "4294967295");
    assert_eq!(
        json(&[0xcf, 0xff, 0xff, 0xff, 0xff, 0xff, 0xff, 0xff, 0xff], &[]),
        "18446744073709551615"
    );
    assert_eq!(json(&[0xff], &[]), "-1");
    assert_eq!(json(&[0xe0], &[]), "-32");
    assert_eq!(json(&[0xd0, 0x80], &[]), "-128");
    assert_eq!(json(&[0xd1, 0x80, 0x00], &[]), "-32768");
    assert_eq!(json(&[0xd2, 0x80, 0x00, 0x00, 0x00], &[]), "-2147483648");
    assert_eq!(
        json(&[0xd3, 0x80, 0x00, 0x00, 0x00, 0x00, 0x00, 0x00, 0x00], &[]),
        "-9223372036854775808"
    );
    assert_eq!(json(&[0xd3, 0, 0, 0, 0, 0, 0, 0, 100], &[]), "100");
}

#[test]
fn fixed_words_are_written_as_json_has_them() {
    assert_eq!(json(&[0xc0], &[]), "null");
    assert_eq!(json(&[0xc2], &[]), "false");
    assert_eq!(json(&[0xc3], &[]), "true");
}

#[test]
fn floats_are_written_as_the_renderer_writes_them() {
    let mut doc = vec![0xcb];
    doc.extend_from_slice(&2.5f64.to_be_bytes());
    assert_eq!(json(&doc, &[]), "2.5");
    let mut doc = vec![0xca];
    doc.extend_from_slice(&0.1f32.to_be_bytes());
    assert_eq!(json(&doc, &[]), "0.1");
    let resolver = table(&[]);
    let mut out = String::from("x=");
    let marked = |x: Float| match x {
        Float::Single(bits) => format!("s{}", bits),
        Float::Double(bits) => format!("d{}", bits),
    };
    let doc = [0x92, 0xca, 0, 0, 0, 7, 0xcb, 0, 0, 0, 0, 0, 0, 1, 0];
    assert!(compacted_stream_to_json(&doc, &resolver, &mut out, &marked).is_ok());
    assert_eq!(out, "x=[s7,d256]");
}

#[test]
fn a_compacted_string_is_written_as_it_is() {
    assert_eq!(json(&[0xa2, b'h', b'i'], &[]), "\"hi\"");
    assert_eq!(json(&[0xa2, b'\\', b'n'], &[]), "\"\\n\"");
    assert_eq!(json(&[0xa0], &[]), "\"\"");
    assert_eq!(json(&[0xa2, 0xc3, 0xa9], &[]), "\"\u{e9}\"");
}

#[test]
fn a_raw_string_is_escaped() {
    assert_eq!(raw_json(&[0xa2, b'h', b'i']), "\"hi\"");
    assert_eq!(raw_json(&[0xa1, 0x0a]), "\"\\n\"");
    assert_eq!(raw_json(&[0xa3, b'a', b'"', b'b']), "\"a\\\"b\"");
    assert_eq!(raw_json(&[0xa1, 0x00]), "\"\\u0000\"");
}

#[test]
fn arrays_are_bracketed_and_separated_by_commas() {
    assert_eq!(json(&[0x90], &[]), "[]");
    assert_eq!(json(&[0x91, 0x01], &[]), "[1]");
    assert_eq!(json(&[0x93, 0x01, 0xc0, 0xa1, b'x'], &[]), "[1,null,\"x\"]");
    assert_eq!(json(&[0x92, 0x90, 0x91, 0x90], &[]), "[[],[[]]]");
    assert_eq!(json(&[0xdc, 0x00, 0x02, 0x01, 0x02], &[]), "[1,2]");
}

#[test]
fn objects_have_the_names_that_the_resolver_gives() {
    assert_eq!(json(&[0x80], &[]), "{}");
    assert_eq!(json(&[0x81, 0x00, 0x01], &["a"]), "{\"a\":1}");
    assert_eq!(json(&[0x82, 0x01, 0xc3, 0x00, 0xc2], &["a", "b"]), "{\"b\":true,\"a\":false}");
    assert_eq!(
        json(&[0x81, 0x00, 0x82, 0x00, 0x90, 0x01, 0x80], &["a", "b"]),
        "{\"a\":{\"a\":[],\"b\":{}}}"
    );
    assert_eq!(json(&[0x81, 0x00, 0x01], &["a\\\"b"]), "{\"a\\\"b\":1}");
    assert_eq!(json(&[0x81, 0xcd, 0x00, 0x01, 0x05], &["a", "b"]), "{\"b\":5}");
}

#[test]
fn raw_objects_have_their_own_keys_escaped() {
    assert_eq!(raw_json(&[0x81, 0xa1, b'k', 0x01]), "{\"k\":1}");
    assert_eq!(raw_json(&[0x82, 0xa1, b'"', 0x01, 0xa1, b'b', 0x91, 0xc0]), "{\"\\\"\":1,\"b\":[null]}");
}

#[test]
fn only_the_first_value_is_transcoded_and_text_is_appended() {
    let resolver = table(&[]);
    let mut out = String::from(">");
    assert!(compacted_stream_to_json(&[0x01, 0x02], &resolver, &mut out, &render).is_ok());
    assert_eq!(out, ">1");
}

#[test]
fn an_unknown_id_is_a_key_not_found() {
    let (r, out) = compact(&[0x81, 0x05, 0x01], &["a"]);
    assert!(matches!(r, Err(UnpackError::KeyNotFound)));
    assert_eq!(out, "{");
    let (r, out) = compact(&[0x82, 0x00, 0x01, 0x01, 0x02], &["a"]);
    assert!(matches!(r, Err(UnpackError::KeyNotFound)));
    assert_eq!(out, "{\"a\":1");
    let (r, out) = compact(&[0x81, 0xcf, 0xff, 0xff, 0xff, 0xff, 0xff, 0xff, 0xff, 0xff, 0x01], &["a"]);
    assert!(matches!(r, Err(UnpackError::KeyNotFound)));
    assert_eq!(out, "{");
}

#[test]
fn a_key_that_is_no_id_is_unsupported() {
    let (r, out) = compact(&[0x81, 0xa1, b'a', 0x01], &["a"]);
    assert!(matches!(r, Err(UnpackError::Unsupported("map with non-interned/uint key"))));
    assert_eq!(out, "{");
    let (r, _) = compact(&[0x81, 0xff, 0x01], &["a"]);
    assert!(matches!(r, Err(UnpackError::Unsupported("map with non-interned/uint key"))));
    let (r, _) = compact(&[0x81, 0xd0, 0x00, 0x01], &["a"]);
    assert!(matches!(r, Err(UnpackError::Unsupported(_))));
}

#[test]
fn a_raw_key_that_is_no_string_is_unsupported() {
    let (r, out) = raw(&[0x81, 0x00, 0x01]);
    assert!(matches!(r, Err(UnpackError::Unsupported("map with non-str key"))));
    assert_eq!(out, "{");
    let (r, _) = raw(&[0x81, 0x90, 0x01]);
    assert!(matches!(r, Err(UnpackError::Unsupported("map with non-str key"))));
}

#[test]
fn a_byte_string_has_no_json() {
    let (r, out) = compact(&[0xc4, 0x01, 0x00], &[]);
    assert!(matches!(r, Err(UnpackError::Unsupported("binary arrays are not supported"))));
    assert_eq!(out, "");
    let (r, out) = compact(&[0x92, 0x01, 0xc4, 0x00], &[]);
    assert!(matches!(r, Err(UnpackError::Unsupported("binary arrays are not supported"))));
    assert_eq!(out, "[1,");
    let (r, out) = raw(&[0x81, 0xa1, b'k', 0xc5, 0x00, 0x00]);
    assert!(matches!(r, Err(UnpackError::Unsupported("binary arrays are not supported"))));
    assert_eq!(out, "{\"k\":");
}

#[test]
fn what_cannot_be_read_cannot_be_transcoded() {
    let (r, out) = compact(&[], &[]);
    assert!(matches!(r, Err(UnpackError::ValueRead(ReadValueError::RmpValueRead))));
    assert_eq!(out, "");
    let (r, out) = compact(&[0x92, 0x01], &[]);
    assert!(matches!(r, Err(UnpackError::ValueRead(ReadValueError::RmpValueRead))));
    assert_eq!(out, "[1,");
    let (r, _) = compact(&[0xda, 0x00, 0x0a, b'a', b'b', b'c'], &[]);
    assert!(matches!(r, Err(UnpackError::ValueRead(ReadValueError::IOError))));
    let (r, _) = compact(&[0xa1, 0xff], &[]);
    assert!(matches!(r, Err(UnpackError::ValueRead(ReadValueError::InvalidUTF8(_)))));
    let (r, _) = compact(&[0xc7, 0x00, 0x00], &[]);
    assert!(matches!(r, Err(UnpackError::ValueRead(ReadValueError::UnsupportedType("Ext")))));
    let (r, out) = compact(&[0x81], &["a"]);
    assert!(matches!(r, Err(UnpackError::ValueRead(ReadValueError::RmpValueRead))));
    assert_eq!(out, "{");
    let (r, out) = compact(&[0x81, 0x00], &["a"]);
    assert!(matches!(r, Err(UnpackError::ValueRead(ReadValueError::RmpValueRead))));
    assert_eq!(out, "{\"a\":");
}

#[test]
fn a_failing_resolver_stops_the_run() {
    let mut out = String::new();
    let r = compacted_stream_to_json(&[0x92, 0x01, 0x81, 0x03, 0x01], &Broken, &mut out, &render);
    match r {
        Err(UnpackError::Resolver(why)) => assert_eq!(why, "cannot look up 3"),
        _ => panic!("the resolver was not asked"),
    }
    assert_eq!(out, "[1,{");
}

#[test]
fn without_keys_the_resolver_is_not_asked() {
    let mut out = String::new();
    assert!(compacted_stream_to_json(&[0x92, 0x01, 0x90], &Broken, &mut out, &render).is_ok());
    assert_eq!(out, "[1,[]]");
}

#[test]
fn a_lookup_names_the_field_or_says_why_not() {
    assert!(matches!(field_name::<Broken>(Ok(Some("n"))), Ok("n")));
    assert!(matches!(field_name::<Broken>(Ok(None)), Err(UnpackError::KeyNotFound)));
    assert!(matches!(
        field_name::<Broken>(Err("down".to_string())),
        Err(UnpackError::Resolver(_))
    ));
}

#[test]
fn the_no_op_resolver_has_no_names() {
    assert!(matches!(NoOpInterner.resolve(0), Ok(None)));
    assert!(matches!(NoOpInterner.resolve(usize::MAX), Ok(None)));
    let mut out = String::new();
    let r = compacted_stream_to_json(&[0x81, 0x00, 0x01], &NoOpInterner, &mut out, &render);
    assert!(matches!(r, Err(UnpackError::KeyNotFound)));
}

#[test]
fn a_rodeo_resolves_what_it_interned() {
    let mut rodeo = Rodeo::new();
    assert_eq!(rodeo.intern("first").ok(), Some(0));
    assert_eq!(rodeo.intern("second").ok(), Some(1));
    assert!(matches!(Resolver::resolve(&rodeo, 0), Ok(Some("first"))));
    assert!(matches!(Resolver::resolve(&rodeo, 1), Ok(Some("second"))));
    assert!(matches!(Resolver::resolve(&rodeo, 2), Ok(None)));
    assert!(matches!(Resolver::resolve(&rodeo, usize::MAX), Ok(None)));
    let mut out = String::new();
    assert!(compacted_stream_to_json(&[0x81, 0x01, 0xc0], &rodeo, &mut out, &render).is_ok());
    assert_eq!(out, "{\"second\":null}");
}

#[test]
fn transcoders_move_their_reader_past_the_value() {
    let resolver = table(&["a"]);
    let doc = [0x81, 0x00, 0x91, 0x01, 0xc3, 0xc0];
    let mut cursor: &[u8] = &doc;
    let mut out = String::new();
    assert!(RmpToJson::new(&mut cursor, &resolver).try_write_to_json(&mut out, &render).is_ok());
    assert_eq!(cursor, &[0xc3, 0xc0]);
    assert!(RmpToJson::new(&mut cursor, &resolver).try_write_to_json(&mut out, &render).is_ok());
    assert_eq!(cursor, &[0xc0]);
    assert_eq!(out, "{\"a\":[1]}true");
    let doc = [0x81, 0xa1, b'k', 0x90, 0x07];
    let mut cursor: &[u8] = &doc;
    let mut out = String::new();
    assert!(NonInternedRmpToJson::new(&mut cursor).try_write_to_json(&mut out, &render).is_ok());
    assert_eq!(cursor, &[0x07]);
    assert_eq!(out, "{\"k\":[]}");
}

#[test]
fn one_function_transcodes_both_kinds_of_stream() {
    let resolver = table(&["a"]);
    let mut cursor: &[u8] = &[0x81, 0x00, 0xa1, b'"'];
    let mut out = String::new();
    assert!(transcode_value(&mut cursor, Some(&resolver), &mut out, &render).is_ok());
    assert_eq!(out, "{\"a\":\"\"\"}");
    let mut cursor: &[u8] = &[0x81, 0xa1, b'a', 0xa1, b'"'];
    let mut out = String::new();
    assert!(transcode_value(&mut cursor, None::<&NoOpInterner>, &mut out, &render).is_ok());
    assert_eq!(out, "{\"a\":\"\\\"\"}");
}
