use lasso::Rodeo;
use mpsquish::rodeo::into_resolver;
use mpsquish::{compacted_stream_to_json, pack_msgpack_stream, Float, Interner, Resolver};
use nyoom_json::WriteToJson;

fn render(x: Float) -> String {
    let mut text = String::new();
    match x {
        Float::Single(bits) => f32::from_bits(bits).write_to_json(&mut text),
        Float::Double(bits) => f64::from_bits(bits).write_to_json(&mut text),
    }
    text
}

fn sample() -> Vec<u8> {
    let mut doc = Vec::new();
    rmp::encode::write_map_len(&mut doc, 2).unwrap();
    rmp::encode::write_str(&mut doc, "a").unwrap();
    rmp::encode::write_uint(&mut doc, 1).unwrap();
    rmp::encode::write_str(&mut doc, "b").unwrap();
    rmp::encode::write_array_len(&mut doc, 3).unwrap();
    rmp::encode::write_bool(&mut doc, true).unwrap();
    rmp::encode::write_nil(&mut doc).unwrap();
    rmp::encode::write_f64(&mut doc, 2.5).unwrap();
    doc
}

#[test]
fn packs_and_renders_the_sample_document() {
    let doc = sample();
    let mut rodeo = Rodeo::new();
    let mut packed = Vec::new();
    assert!(pack_msgpack_stream(&doc, &mut rodeo, &mut packed).is_ok());
    assert_eq!(rodeo.intern("a").ok(), Some(0));
    assert_eq!(rodeo.intern("b").ok(), Some(1));
    assert_eq!(rodeo.len(), 2);
    let mut expected = vec![0x82, 0x00, 0x01, 0x01, 0x93, 0xc3, 0xc0, 0xcb];
    expected.extend_from_slice(&2.5f64.to_be_bytes());
    assert_eq!(packed, expected);
    let resolver = into_resolver(rodeo);
    assert!(matches!(Resolver::resolve(&resolver, 0), Ok(Some("a"))));
    assert!(matches!(Resolver::resolve(&resolver, 1), Ok(Some("b"))));
    assert!(matches!(Resolver::resolve(&resolver, 2), Ok(None)));
    let mut json = String::new();
    assert!(compacted_stream_to_json(&packed, &resolver, &mut json, &render).is_ok());
    assert_eq!(json, "{\"a\":1,\"b\":[true,null,2.5]}");
}
