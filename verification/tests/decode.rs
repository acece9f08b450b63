use mpsquish::error::ReadValueError;
use mpsquish::msgpack::{len_from_marker, read_value, Marker, ValueEvent};

fn read_one(data: &[u8]) -> (Result<ValueEvent<'_>, ReadValueError>, usize) {
    let mut cursor: &[u8] = data;
    let r = read_value(&mut cursor);
    (r, data.len() - cursor.len())
}

#[test]
fn truncated_str16_is_an_error() {
    let data: Vec<u8> = vec![0xda, 0x00, 0x0a, b'a', b'b', b'c'];
    let mut cursor: &[u8] = &data[..];
    let r = read_value(&mut cursor);
    assert!(matches!(r, Err(ReadValueError::IOError)));
    assert_eq!(cursor.len(), 6);
}

#[test]
fn reads_small_values() {
    let data: Vec<u8> = vec![0x07, 0xff, 0xc3, 0xa2, b'h', b'i'];
    let mut cursor: &[u8] = &data[..];
    assert!(matches!(read_value(&mut cursor), Ok(ValueEvent::UInt(7))));
    assert!(matches!(read_value(&mut cursor), Ok(ValueEvent::SInt(-1))));
    assert!(matches!(read_value(&mut cursor), Ok(ValueEvent::Bool(true))));
    assert!(matches!(read_value(&mut cursor), Ok(ValueEvent::Str("hi"))));
    assert!(matches!(read_value(&mut cursor), Err(ReadValueError::RmpValueRead)));
}

#[test]
fn reads_fixed_words() {
    assert!(matches!(read_one(&[0xc0]), (Ok(ValueEvent::Nil), 1)));
    assert!(matches!(read_one(&[0xc2]), (Ok(ValueEvent::Bool(false)), 1)));
    assert!(matches!(read_one(&[0xc3]), (Ok(ValueEvent::Bool(true)), 1)));
    assert!(matches!(read_one(&[0x00]), (Ok(ValueEvent::UInt(0)), 1)));
    assert!(matches!(read_one(&[0x7f]), (Ok(ValueEvent::UInt(127)), 1)));
    assert!(matches!(read_one(&[0xe0]), (Ok(ValueEvent::SInt(-32)), 1)));
}

#[test]
fn reads_unsigned_numbers_of_every_width() {
    assert!(matches!(read_one(&[0xcc, 0xfe]), (Ok(ValueEvent::UInt(254)), 2)));
    assert!(matches!(read_one(&[0xcd, 0x12, 0x34]), (Ok(ValueEvent::UInt(0x1234)), 3)));
    assert!(matches!(
        read_one(&[0xce, 0x12, 0x34, 0x56, 0x78]),
        (Ok(ValueEvent::UInt(0x1234_5678)), 5)
    ));
    assert!(matches!(
        read_one(&[0xcf, 0x01, 0x02, 0x03, 0x04, 0x05, 0x06, 0x07, 0x08]),
        (Ok(ValueEvent::UInt(0x0102_0304_0506_0708)), 9)
    ));
    assert!(matches!(
        read_one(&[0xcf, 0xff, 0xff, 0xff, 0xff, 0xff, 0xff, 0xff, 0xff]),
        (Ok(ValueEvent::UInt(u64::MAX)), 9)
    ));
}

#[test]
fn reads_signed_numbers_of_every_width() {
    assert!(matches!(read_one(&[0xd0, 0x80]), (Ok(ValueEvent::SInt(-128)), 2)));
    assert!(matches!(read_one(&[0xd0, 0x7f]), (Ok(ValueEvent::SInt(127)), 2)));
    assert!(matches!(read_one(&[0xd1, 0xff, 0x7f]), (Ok(ValueEvent::SInt(-129)), 3)));
    assert!(matches!(read_one(&[0xd1, 0x80, 0x00]), (Ok(ValueEvent::SInt(-32768)), 3)));
    assert!(matches!(
        read_one(&[0xd2, 0xff, 0xff, 0x7f, 0xff]),
        (Ok(ValueEvent::SInt(-32769)), 5)
    ));
    assert!(matches!(
        read_one(&[0xd2, 0x80, 0x00, 0x00, 0x00]),
        (Ok(ValueEvent::SInt(-2147483648)), 5)
    ));
    assert!(matches!(
        read_one(&[0xd3, 0x80, 0x00, 0x00, 0x00, 0x00, 0x00, 0x00, 0x00]),
        (Ok(ValueEvent::SInt(i64::MIN)), 9)
    ));
    assert!(matches!(
        read_one(&[0xd3, 0x00, 0x00, 0x00, 0x00, 0x00, 0x00, 0x00, 0x2a]),
        (Ok(ValueEvent::SInt(42)), 9)
    ));
}

#[test]
fn reads_floats_as_their_bits() {
    let mut data = vec![0xca];
    data.extend_from_slice(&1.5f32.to_be_bytes());
    match read_one(&data) {
        (Ok(ValueEvent::F32(bits)), 5) => assert_eq!(f32::from_bits(bits), 1.5),
        _ => panic!("no f32"),
    }
    let mut data = vec![0xcb];
    data.extend_from_slice(&(-2.25f64).to_be_bytes());
    match read_one(&data) {
        (Ok(ValueEvent::F64(bits)), 9) => assert_eq!(f64::from_bits(bits), -2.25),
        _ => panic!("no f64"),
    }
}

#[test]
fn reads_strings_of_every_header() {
    assert!(matches!(read_one(&[0xa0]), (Ok(ValueEvent::Str("")), 1)));
    assert!(matches!(read_one(&[0xd9, 0x02, b'o', b'k', 0xc0]), (Ok(ValueEvent::Str("ok")), 4)));
    assert!(matches!(read_one(&[0xda, 0x00, 0x01, b'x']), (Ok(ValueEvent::Str("x")), 4)));
    assert!(matches!(
        read_one(&[0xdb, 0x00, 0x00, 0x00, 0x03, 0xe2, 0x82, 0xac]),
        (Ok(ValueEvent::Str("\u{20ac}")), 8)
    ));
    let long = "a".repeat(300);
    let mut data = vec![0xda, 0x01, 0x2c];
    data.extend_from_slice(long.as_bytes());
    match read_one(&data) {
        (Ok(ValueEvent::Str(s)), 303) => assert_eq!(s, long),
        _ => panic!("no str16"),
    }
}

#[test]
fn reads_byte_strings_of_every_header() {
    assert!(matches!(read_one(&[0xc4, 0x02, 0xff, 0x00]), (Ok(ValueEvent::Bytes(&[0xff, 0x00])), 4)));
    assert!(matches!(read_one(&[0xc5, 0x00, 0x01, 0x09]), (Ok(ValueEvent::Bytes(&[0x09])), 4)));
    assert!(matches!(
        read_one(&[0xc6, 0x00, 0x00, 0x00, 0x01, 0x09]),
        (Ok(ValueEvent::Bytes(&[0x09])), 6)
    ));
    assert!(matches!(read_one(&[0xc4, 0x00]), (Ok(ValueEvent::Bytes(&[])), 2)));
}

#[test]
fn reads_container_headers_and_leaves_the_children() {
    assert!(matches!(read_one(&[0x92, 0x01, 0x02]), (Ok(ValueEvent::StartArray(2)), 1)));
    assert!(matches!(read_one(&[0x81, 0xa1, b'k', 0x01]), (Ok(ValueEvent::StartObject(1)), 1)));
    assert!(matches!(read_one(&[0xdc, 0x01, 0x00]), (Ok(ValueEvent::StartArray(256)), 3)));
    assert!(matches!(
        read_one(&[0xdd, 0x00, 0x01, 0x00, 0x00]),
        (Ok(ValueEvent::StartArray(65536)), 5)
    ));
    assert!(matches!(read_one(&[0xde, 0x00, 0x10]), (Ok(ValueEvent::StartObject(16)), 3)));
    assert!(matches!(
        read_one(&[0xdf, 0xff, 0xff, 0xff, 0xff]),
        (Ok(ValueEvent::StartObject(4294967295)), 5)
    ));
}

#[test]
fn an_empty_buffer_has_no_marker() {
    assert!(matches!(read_one(&[]), (Err(ReadValueError::RmpValueRead), 0)));
}

#[test]
fn a_short_payload_is_an_io_error_and_nothing_is_taken() {
    assert!(matches!(read_one(&[0xcc]), (Err(ReadValueError::IOError), 0)));
    assert!(matches!(read_one(&[0xcd, 0x01]), (Err(ReadValueError::IOError), 0)));
    assert!(matches!(read_one(&[0xce, 0x01, 0x02, 0x03]), (Err(ReadValueError::IOError), 0)));
    assert!(matches!(read_one(&[0xcf, 0, 0, 0, 0, 0, 0, 0]), (Err(ReadValueError::IOError), 0)));
    assert!(matches!(read_one(&[0xd0]), (Err(ReadValueError::IOError), 0)));
    assert!(matches!(read_one(&[0xca, 0, 0, 0]), (Err(ReadValueError::IOError), 0)));
    assert!(matches!(read_one(&[0xcb, 0, 0, 0, 0]), (Err(ReadValueError::IOError), 0)));
    assert!(matches!(read_one(&[0xa3, b'a', b'b']), (Err(ReadValueError::IOError), 0)));
    assert!(matches!(read_one(&[0xd9]), (Err(ReadValueError::IOError), 0)));
    assert!(matches!(read_one(&[0xc4, 0x02, 0x00]), (Err(ReadValueError::IOError), 0)));
    assert!(matches!(read_one(&[0xdc, 0x00]), (Err(ReadValueError::IOError), 0)));
    assert!(matches!(read_one(&[0xdf, 0x00, 0x00, 0x00]), (Err(ReadValueError::IOError), 0)));
}

#[test]
fn bytes_that_are_not_utf8_are_no_string() {
    assert!(matches!(read_one(&[0xa2, 0xc3, 0x28]), (Err(ReadValueError::InvalidUTF8(_)), 0)));
    assert!(matches!(read_one(&[0xa1, 0xff]), (Err(ReadValueError::InvalidUTF8(_)), 0)));
}

#[test]
fn extension_and_reserved_markers_are_unsupported() {
    for marker in [0xd4u8, 0xd5, 0xd6, 0xd7, 0xd8] {
        assert!(matches!(
            read_one(&[marker, 0x01, 0x02]),
            (Err(ReadValueError::UnsupportedType("FixExt")), 0)
        ));
    }
    for marker in [0xc7u8, 0xc8, 0xc9] {
        assert!(matches!(
            read_one(&[marker, 0x01, 0x02]),
            (Err(ReadValueError::UnsupportedType("Ext")), 0)
        ));
    }
    assert!(matches!(read_one(&[0xc1]), (Err(ReadValueError::UnsupportedType("Reserved")), 0)));
}

#[test]
fn markers_are_classified_by_byte() {
    assert!(matches!(Marker::from_u8(0x05), Marker::FixPos(5)));
    assert!(matches!(Marker::from_u8(0x8f), Marker::FixMap(15)));
    assert!(matches!(Marker::from_u8(0x93), Marker::FixArray(3)));
    assert!(matches!(Marker::from_u8(0xbf), Marker::FixStr(31)));
    assert!(matches!(Marker::from_u8(0xc0), Marker::Null));
    assert!(matches!(Marker::from_u8(0xdb), Marker::Str32));
    assert!(matches!(Marker::from_u8(0xe0), Marker::FixNeg(-32)));
    assert!(matches!(Marker::from_u8(0xff), Marker::FixNeg(-1)));
    for byte in 0..=255u8 {
        let ours = Marker::from_u8(byte);
        let theirs = rmp::Marker::from_u8(byte);
        assert_eq!(format!("{:?}", theirs), describe(ours));
    }
}

fn describe(marker: Marker) -> String {
    match marker {
        Marker::FixPos(v) => format!("FixPos({})", v),
        Marker::FixMap(v) => format!("FixMap({})", v),
        Marker::FixArray(v) => format!("FixArray({})", v),
        Marker::FixStr(v) => format!("FixStr({})", v),
        Marker::FixNeg(v) => format!("FixNeg({})", v),
        Marker::Null => format!("Null"),
        Marker::Reserved => format!("Reserved"),
        Marker::False => format!("False"),
        Marker::True => format!("True"),
        Marker::Bin8 => format!("Bin8"),
        Marker::Bin16 => format!("Bin16"),
        Marker::Bin32 => format!("Bin32"),
        Marker::Ext8 => format!("Ext8"),
        Marker::Ext16 => format!("Ext16"),
        Marker::Ext32 => format!("Ext32"),
        Marker::F32 => format!("F32"),
        Marker::F64 => format!("F64"),
        Marker::U8 => format!("U8"),
        Marker::U16 => format!("U16"),
        Marker::U32 => format!("U32"),
        Marker::U64 => format!("U64"),
        Marker::I8 => format!("I8"),
        Marker::I16 => format!("I16"),
        Marker::I32 => format!("I32"),
        Marker::I64 => format!("I64"),
        Marker::FixExt1 => format!("FixExt1"),
        Marker::FixExt2 => format!("FixExt2"),
        Marker::FixExt4 => format!("FixExt4"),
        Marker::FixExt8 => format!("FixExt8"),
        Marker::FixExt16 => format!("FixExt16"),
        Marker::Str8 => format!("Str8"),
        Marker::Str16 => format!("Str16"),
        Marker::Str32 => format!("Str32"),
        Marker::Array16 => format!("Array16"),
        Marker::Array32 => format!("Array32"),
        Marker::Map16 => format!("Map16"),
        Marker::Map32 => format!("Map32"),
    }
}

#[test]
fn a_length_is_read_after_its_marker() {
    let data = [0x01u8, 0x02, 0x03, 0x04, 0x05];
    let mut cursor: &[u8] = &data;
    assert!(matches!(len_from_marker(&Marker::FixStr(9), &mut cursor), Ok(9)));
    assert_eq!(cursor.len(), 5);
    assert!(matches!(len_from_marker(&Marker::Str8, &mut cursor), Ok(1)));
    assert_eq!(cursor.len(), 4);
    assert!(matches!(len_from_marker(&Marker::Array16, &mut cursor), Ok(0x0203)));
    assert_eq!(cursor.len(), 2);
    assert!(matches!(len_from_marker(&Marker::Map32, &mut cursor), Err(ReadValueError::IOError)));
    assert_eq!(cursor.len(), 2);
    let wide = [0x00u8, 0x01, 0x00, 0x02];
    let mut cursor: &[u8] = &wide;
    assert!(matches!(len_from_marker(&Marker::Bin32, &mut cursor), Ok(0x0001_0002)));
    assert_eq!(cursor.len(), 0);
}

#[test]
fn a_marker_without_a_length_is_an_invalid_call() {
    let data = [0x01u8, 0x02];
    let mut cursor: &[u8] = &data;
    assert!(matches!(
        len_from_marker(&Marker::Null, &mut cursor),
        Err(ReadValueError::InvalidCall(
            "called len_from_marker on a marker without length information!"
        ))
    ));
    assert!(matches!(
        len_from_marker(&Marker::U16, &mut cursor),
        Err(ReadValueError::InvalidCall(_))
    ));
    assert_eq!(cursor.len(), 2);
}
