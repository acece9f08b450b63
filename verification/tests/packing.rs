use lasso::Rodeo;
use mpsquish::error::ReadValueError;
use mpsquish::pack::{pack_key, pack_pair, write_key_id};
use mpsquish::intern::Ids;
use mpsquish::{pack_msgpack_stream, Interner, PackError, Packer};

fn pack(doc: &[u8]) -> (Result<(), PackError<Rodeo>>, Vec<u8>, Rodeo) {
    let mut rodeo = Rodeo::new();
    let mut out = Vec::new();
    let r = pack_msgpack_stream(doc, &mut rodeo, &mut out);
    (r, out, rodeo)
}

fn packed(doc: &[u8]) -> Vec<u8> {
    let (r, out, _) = pack(doc);
    assert!(r.is_ok());
    out
}

struct Full;

impl Interner for Full {
    type Err = String;

    fn ids(&self) -> Ids {
        unreachable!()
    }

    fn infallible(&self) -> bool {
        unreachable!()
    }

    fn intern(&mut self, s: &str) -> Result<usize, String> {
        Err(format!("no room for {}", s))
    }
}

#[test]
fn unsigned_numbers_get_the_shortest_form() {
    assert_eq!(packed(&[0x7f]), vec![0x7f]);
    assert_eq!(packed(&[0xcc, 0x05]), vec![0x05]);
    assert_eq!(packed(&[0xcc, 0x80]), vec![0xcc, 0x80]);
    assert_eq!(packed(&[0xcd, 0x00, 0xff]), vec![0xcc, 0xff]);
    assert_eq!(packed(&[0xcd, 0x01, 0x00]), vec![0xcd, 0x01, 0x00]);
    assert_eq!(packed(&[0xce, 0x00, 0x00, 0xff, 0xff]), vec![0xcd, 0xff, 0xff]);
    assert_eq!(packed(&[0xce, 0x00, 0x01, 0x00, 0x00]), vec![0xce, 0x00, 0x01, 0x00, 0x00]);
    assert_eq!(
        packed(&[0xcf, 0x00, 0x00, 0x00, 0x00, 0xff, 0xff, 0xff, 0xff]),
        vec![0xce, 0xff, 0xff, 0xff, 0xff]
    );
    assert_eq!(
        packed(&[0xcf, 0x00, 0x00, 0x00, 0x01, 0x00, 0x00, 0x00, 0x00]),
        vec![0xcf, 0x00, 0x00, 0x00, 0x01, 0x00, 0x00, 0x00, 0x00]
    );
    assert_eq!(
        packed(&[0xcf, 0xff, 0xff, 0xff, 0xff, 0xff, 0xff, 0xff, 0xfe]),
        vec![0xcf, 0xff, 0xff, 0xff, 0xff, 0xff, 0xff, 0xff, 0xfe]
    );
}

#[test]
fn signed_numbers_get_the_shortest_form() {
    assert_eq!(packed(&[0xff]), vec![0xff]);
    assert_eq!(packed(&[0xd0, 0xe0]), vec![0xe0]);
    assert_eq!(packed(&[0xd0, 0xdf]), vec![0xd0, 0xdf]);
    assert_eq!(packed(&[0xd1, 0xff, 0x80]), vec![0xd0, 0x80]);
    assert_eq!(packed(&[0xd1, 0xff, 0x7f]), vec![0xd1, 0xff, 0x7f]);
    assert_eq!(packed(&[0xd2, 0xff, 0xff, 0x80, 0x00]), vec![0xd1, 0x80, 0x00]);
    assert_eq!(packed(&[0xd2, 0xff, 0xff, 0x7f, 0xff]), vec![0xd2, 0xff, 0xff, 0x7f, 0xff]);
    assert_eq!(
        packed(&[0xd3, 0xff, 0xff, 0xff, 0xff, 0x80, 0x00, 0x00, 0x00]),
        vec![0xd2, 0x80, 0x00, 0x00, 0x00]
    );
    assert_eq!(
        packed(&[0xd3, 0xff, 0xff, 0xff, 0xff, 0x7f, 0xff, 0xff, 0xff]),
        vec![0xd3, 0xff, 0xff, 0xff, 0xff, 0x7f, 0xff, 0xff, 0xff]
    );
    assert_eq!(
        packed(&[0xd3, 0x80, 0x00, 0x00, 0x00, 0x00, 0x00, 0x00, 0x00]),
        vec![0xd3, 0x80, 0x00, 0x00, 0x00, 0x00, 0x00, 0x00, 0x00]
    );
}

#[test]
fn signed_numbers_that_are_not_negative_are_written_unsigned() {
    assert_eq!(packed(&[0xd0, 0x05]), vec![0x05]);
    assert_eq!(packed(&[0xd1, 0x00, 0x80]), vec![0xcc, 0x80]);
    assert_eq!(packed(&[0xd2, 0x00, 0x00, 0x01, 0x00]), vec![0xcd, 0x01, 0x00]);
    assert_eq!(
        packed(&[0xd3, 0x00, 0x00, 0x00, 0x00, 0x00, 0x01, 0x00, 0x00]),
        vec![0xce, 0x00, 0x01, 0x00, 0x00]
    );
    assert_eq!(
        packed(&[0xd3, 0x7f, 0xff, 0xff, 0xff, 0xff, 0xff, 0xff, 0xff]),
        vec![0xcf, 0x7f, 0xff, 0xff, 0xff, 0xff, 0xff, 0xff, 0xff]
    );
}

#[test]
fn fixed_words_and_floats_are_written_as_they_were() {
    assert_eq!(packed(&[0xc0]), vec![0xc0]);
    assert_eq!(packed(&[0xc2]), vec![0xc2]);
    assert_eq!(packed(&[0xc3]), vec![0xc3]);
    let mut single = vec![0xca];
    single.extend_from_slice(&3.25f32.to_be_bytes());
    assert_eq!(packed(&single), single);
    let mut double = vec![0xcb];
    double.extend_from_slice(&(-0.1f64).to_be_bytes());
    assert_eq!(packed(&double), double);
    let mut nan = vec![0xcb];
    nan.extend_from_slice(&[0x7f, 0xf8, 0x00, 0x00, 0x00, 0x00, 0x12, 0x34]);
    assert_eq!(packed(&nan), nan);
}

#[test]
fn strings_are_escaped_before_they_are_written() {
    assert_eq!(packed(&[0xa2, b'h', b'i']), vec![0xa2, b'h', b'i']);
    assert_eq!(packed(&[0xa1, b'"']), vec![0xa2, b'\\', b'"']);
    assert_eq!(packed(&[0xa1, b'\\']), vec![0xa2, b'\\', b'\\']);
    assert_eq!(packed(&[0xa1, 0x0a]), vec![0xa2, b'\\', b'n']);
    assert_eq!(packed(&[0xa1, 0x01]), vec![0xa6, b'\\', b'u', b'0', b'0', b'0', b'1']);
    assert_eq!(packed(&[0xa1, 0x1f]), vec![0xa6, b'\\', b'u', b'0', b'0', b'1', b'f']);
    assert_eq!(packed(&[0xa2, 0xc3, 0xa9]), vec![0xa2, 0xc3, 0xa9]);
    assert_eq!(packed(&[0xa1, 0x7f]), vec![0xa1, 0x7f]);
}

#[test]
fn a_string_that_grows_gets_a_longer_header() {
    let mut doc = vec![0xb0];
    doc.extend_from_slice(&[b'"'; 16]);
    let mut expected = vec![0xd9, 0x20];
    for _ in 0..16 {
        expected.extend_from_slice(b"\\\"");
    }
    assert_eq!(packed(&doc), expected);
    let mut doc = vec![0xd9, 0x80];
    doc.extend_from_slice(&[b'\\'; 128]);
    let mut expected = vec![0xda, 0x01, 0x00];
    expected.extend_from_slice(&[b'\\'; 256]);
    assert_eq!(packed(&doc), expected);
}

#[test]
fn byte_strings_are_written_unchanged() {
    assert_eq!(packed(&[0xc4, 0x03, 0x00, b'"', 0xff]), vec![0xc4, 0x03, 0x00, b'"', 0xff]);
    assert_eq!(packed(&[0xc5, 0x00, 0x01, 0x07]), vec![0xc4, 0x01, 0x07]);
    assert_eq!(packed(&[0xc6, 0x00, 0x00, 0x00, 0x00]), vec![0xc4, 0x00]);
    let mut doc = vec![0xc5, 0x01, 0x00];
    doc.extend_from_slice(&[0xab; 256]);
    assert_eq!(packed(&doc), doc);
}

#[test]
fn arrays_are_packed_value_by_value() {
    assert_eq!(packed(&[0x90]), vec![0x90]);
    assert_eq!(packed(&[0x93, 0xcc, 0x01, 0xc0, 0xa1, b'"']), vec![0x93, 0x01, 0xc0, 0xa2, b'\\', b'"']);
    assert_eq!(packed(&[0xdc, 0x00, 0x02, 0x01, 0x02]), vec![0x92, 0x01, 0x02]);
    assert_eq!(packed(&[0x91, 0x91, 0x91, 0xc3]), vec![0x91, 0x91, 0x91, 0xc3]);
    let mut doc = vec![0xdc, 0x00, 0x10];
    doc.extend_from_slice(&[0x01; 16]);
    assert_eq!(packed(&doc), doc);
}

#[test]
fn keys_are_replaced_by_their_ids() {
    let doc = [0x82, 0xa1, b'x', 0x01, 0xa1, b'y', 0x81, 0xa1, b'x', 0xa1, b'x'];
    let (r, out, mut rodeo) = pack(&doc);
    assert!(r.is_ok());
    assert_eq!(out, vec![0x82, 0x00, 0x01, 0x01, 0x81, 0x00, 0xa1, b'x']);
    assert_eq!(rodeo.len(), 2);
    assert_eq!(rodeo.intern("x").ok(), Some(0));
    assert_eq!(rodeo.intern("y").ok(), Some(1));
}

#[test]
fn keys_are_escaped_before_they_are_interned() {
    let doc = [0x81, 0xa3, b'a', b'"', b'b', 0xc0];
    let (r, out, rodeo) = pack(&doc);
    assert!(r.is_ok());
    assert_eq!(out, vec![0x81, 0x00, 0xc0]);
    assert_eq!(rodeo.try_resolve(&rodeo.get("a\\\"b").unwrap()), Some("a\\\"b"));
    assert!(rodeo.get("a\"b").is_none());
}

#[test]
fn every_value_of_a_stream_is_packed() {
    let doc = [0x01, 0x81, 0xa1, b'k', 0xc3, 0xa1, b'k', 0x81, 0xa1, b'k', 0xc2];
    let (r, out, rodeo) = pack(&doc);
    assert!(r.is_ok());
    assert_eq!(out, vec![0x01, 0x81, 0x00, 0xc3, 0xa1, b'k', 0x81, 0x00, 0xc2]);
    assert_eq!(rodeo.len(), 1);
    assert_eq!(packed(&[]), Vec::<u8>::new());
}

#[test]
fn an_interner_that_knows_keys_keeps_their_ids() {
    let mut rodeo = Rodeo::new();
    assert_eq!(rodeo.intern("zero").ok(), Some(0));
    assert_eq!(rodeo.intern("b").ok(), Some(1));
    let mut out = vec![0xee];
    let doc = [0x82, 0xa1, b'a', 0x01, 0xa1, b'b', 0x02];
    assert!(pack_msgpack_stream(&doc, &mut rodeo, &mut out).is_ok());
    assert_eq!(out, vec![0xee, 0x82, 0x02, 0x01, 0x01, 0x02]);
    assert_eq!(rodeo.len(), 3);
}

#[test]
fn an_integer_key_is_unsupported() {
    let doc = [0x81, 0x05, 0xc0];
    let (r, out, rodeo) = pack(&doc);
    assert!(matches!(
        r,
        Err(PackError::Unsupported("mpsquish only supports maps with string keys"))
    ));
    assert_eq!(out, vec![0x81]);
    assert_eq!(rodeo.len(), 0);
}

#[test]
fn an_array_key_is_unsupported() {
    let doc = [0x81, 0x91, 0x01, 0xc0];
    let (r, out, _) = pack(&doc);
    assert!(matches!(r, Err(PackError::Unsupported(_))));
    assert_eq!(out, vec![0x81]);
}

#[test]
fn other_keys_are_unsupported() {
    for key in [vec![0xc0u8], vec![0xc3], vec![0xc4, 0x01, 0x00], vec![0x80], vec![0xff], vec![0xc1]] {
        let mut doc = vec![0x81];
        doc.extend_from_slice(&key);
        doc.push(0xc0);
        let (r, out, _) = pack(&doc);
        assert!(matches!(r, Err(PackError::Unsupported(_))));
        assert_eq!(out, vec![0x81]);
    }
}

#[test]
fn a_bad_key_after_good_pairs_stops_there() {
    let doc = [0x93, 0x01, 0x82, 0xa1, b'a', 0x07, 0x02, 0x08, 0x09];
    let (r, out, rodeo) = pack(&doc);
    assert!(matches!(r, Err(PackError::Unsupported(_))));
    assert_eq!(out, vec![0x93, 0x01, 0x82, 0x00, 0x07]);
    assert_eq!(rodeo.len(), 1);
}

#[test]
fn a_map_that_ends_early_has_no_marker_for_its_key() {
    let (r, out, _) = pack(&[0x81]);
    assert!(matches!(r, Err(PackError::ValueRead(ReadValueError::RmpValueRead))));
    assert_eq!(out, vec![0x81]);
    let (r, out, _) = pack(&[0x81, 0xa1, b'k']);
    assert!(matches!(r, Err(PackError::ValueRead(ReadValueError::RmpValueRead))));
    assert_eq!(out, vec![0x81, 0x00]);
}

#[test]
fn what_cannot_be_read_cannot_be_packed() {
    let (r, out, _) = pack(&[0x92, 0x01, 0xcd, 0x00]);
    assert!(matches!(r, Err(PackError::ValueRead(ReadValueError::IOError))));
    assert_eq!(out, vec![0x92, 0x01]);
    let (r, _, _) = pack(&[0x91, 0xa1, 0xff]);
    assert!(matches!(r, Err(PackError::ValueRead(ReadValueError::InvalidUTF8(_)))));
    let (r, _, _) = pack(&[0xd4, 0x01, 0x02]);
    assert!(matches!(r, Err(PackError::ValueRead(ReadValueError::UnsupportedType("FixExt")))));
    let (r, _, _) = pack(&[0x81, 0xa2, b'k']);
    assert!(matches!(r, Err(PackError::ValueRead(ReadValueError::IOError))));
    let (r, _, _) = pack(&[0x92, 0x01]);
    assert!(matches!(r, Err(PackError::ValueRead(ReadValueError::RmpValueRead))));
}

#[test]
fn a_failing_interner_stops_the_run() {
    let mut full = Full;
    let mut out = Vec::new();
    let doc = [0x92, 0x01, 0x81, 0xa1, b'k', 0xc0];
    let r = pack_msgpack_stream(&doc, &mut full, &mut out);
    match r {
        Err(PackError::Interner(why)) => assert_eq!(why, "no room for k"),
        _ => panic!("the interner was not asked"),
    }
    assert_eq!(out, vec![0x92, 0x01, 0x81]);
}

#[test]
fn without_keys_the_interner_is_not_asked() {
    let mut full = Full;
    let mut out = Vec::new();
    let doc = [0x92, 0x01, 0x90, 0xa1, b'k'];
    assert!(pack_msgpack_stream(&doc, &mut full, &mut out).is_ok());
    assert_eq!(out, doc.to_vec());
}

#[test]
fn an_id_is_written_and_a_failure_handed_on() {
    let mut out = vec![0x01];
    assert!(write_key_id::<Full>(&mut out, Ok(300)).is_ok());
    assert_eq!(out, vec![0x01, 0xcd, 0x01, 0x2c]);
    let r = write_key_id::<Full>(&mut out, Err("no".to_string()));
    assert!(matches!(r, Err(PackError::Interner(_))));
    assert_eq!(out, vec![0x01, 0xcd, 0x01, 0x2c]);
}

#[test]
fn a_packer_packs_one_value_at_a_time() {
    let doc = [0x01, 0x81, 0xa1, b'k', 0x02, 0xc3];
    let mut rodeo = Rodeo::new();
    let mut out = Vec::new();
    let mut packer = Packer::new(&mut rodeo, &doc, &mut out);
    assert!(packer.pack_one().is_ok());
    assert_eq!(packer.reader.len(), 5);
    assert_eq!(*packer.out, vec![0x01]);
    assert!(packer.pack_one().is_ok());
    assert_eq!(packer.reader.len(), 1);
    assert!(packer.pack_one().is_ok());
    assert!(packer.reader.is_empty());
    assert!(matches!(
        packer.pack_one(),
        Err(PackError::ValueRead(ReadValueError::RmpValueRead))
    ));
    assert_eq!(out, vec![0x01, 0x81, 0x00, 0x02, 0xc3]);
}

#[test]
fn a_key_and_a_pair_are_packed_from_the_cursor() {
    let doc = [0xa1, b'k', 0x05, 0xa1, b'j', 0x06];
    let mut cursor: &[u8] = &doc;
    let mut rodeo = Rodeo::new();
    let mut out = Vec::new();
    assert!(pack_key(&mut cursor, &mut rodeo, &mut out).is_ok());
    assert_eq!(cursor.len(), 4);
    assert_eq!(out, vec![0x00]);
    assert!(matches!(
        pack_key(&mut cursor, &mut rodeo, &mut out),
        Err(PackError::Unsupported(_))
    ));
    assert_eq!(cursor.len(), 4);
    let mut cursor: &[u8] = &doc[3..];
    assert!(pack_pair(&mut cursor, &mut rodeo, &mut out).is_ok());
    assert_eq!(out, vec![0x00, 0x01, 0x06]);
    assert!(cursor.is_empty());
}
