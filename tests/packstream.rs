use boltr::decode::decode_value;
use boltr::packstream::{
    encode_bool, encode_bytes, encode_dict, encode_float, encode_int, encode_list, encode_null,
    encode_string, encode_value, value_encodable, BYTES_8, FLOAT_64, INT_16, INT_32, INT_64, INT_8, STRING_8,
};
use boltr::value::{
    BoltDate, BoltDict, BoltDuration, BoltNode, BoltPoint2D, BoltValue,
};

fn round_trip(value: &BoltValue) -> BoltValue {
    let mut buf: Vec<u8> = Vec::new();
    encode_value(&mut buf, value);
    let (v, end) = decode_value(&buf, 0).expect("decode failed");
    assert_eq!(end, buf.len());
    v
}

fn dict(entries: Vec<(&str, BoltValue)>) -> BoltDict {
    let mut d = BoltDict::new();
    for (k, v) in entries {
        d.insert(k.to_string(), v);
    }
    d
}

fn encoded(value: &BoltValue) -> Vec<u8> {
    let mut buf: Vec<u8> = Vec::new();
    encode_value(&mut buf, value);
    buf
}

#[test]
fn encode_null_marker() {
    let mut buf: Vec<u8> = Vec::new();
    encode_null(&mut buf);
    assert_eq!(&buf[..], &[0xC0]);
}

#[test]
fn encode_booleans() {
    let mut buf: Vec<u8> = Vec::new();
    encode_bool(&mut buf, true);
    encode_bool(&mut buf, false);
    assert_eq!(&buf[..], &[0xC3, 0xC2]);
}

#[test]
fn encode_tiny_int() {
    let mut buf: Vec<u8> = Vec::new();
    encode_int(&mut buf, 0);
    assert_eq!(&buf[..], &[0x00]);
    buf.clear();
    encode_int(&mut buf, 1);
    assert_eq!(&buf[..], &[0x01]);
    buf.clear();
    encode_int(&mut buf, 127);
    assert_eq!(&buf[..], &[0x7F]);
    buf.clear();
    encode_int(&mut buf, -1);
    assert_eq!(&buf[..], &[0xFF]);
    buf.clear();
    encode_int(&mut buf, -16);
    assert_eq!(&buf[..], &[0xF0]);
}

#[test]
fn encode_int8() {
    let mut buf: Vec<u8> = Vec::new();
    encode_int(&mut buf, -17);
    assert_eq!(&buf[..], &[INT_8, (-17i8) as u8]);
    buf.clear();
    encode_int(&mut buf, -128);
    assert_eq!(&buf[..], &[INT_8, (-128i8) as u8]);
}

#[test]
fn encode_int16() {
    let mut buf: Vec<u8> = Vec::new();
    encode_int(&mut buf, 128);
    assert_eq!(&buf[..], &[INT_16, 0x00, 0x80]);
    buf.clear();
    encode_int(&mut buf, -129);
    let expected = (-129i16).to_be_bytes();
    assert_eq!(&buf[..], &[INT_16, expected[0], expected[1]]);
}

#[test]
fn encode_int32() {
    let mut buf: Vec<u8> = Vec::new();
    encode_int(&mut buf, 32768);
    let expected = 32768i32.to_be_bytes();
    assert_eq!(&buf[..], &[INT_32, expected[0], expected[1], expected[2], expected[3]]);
}

#[test]
fn encode_int64() {
    let mut buf: Vec<u8> = Vec::new();
    let val = i64::from(i32::MAX) + 1;
    encode_int(&mut buf, val);
    let expected = val.to_be_bytes();
    assert_eq!(buf[0], INT_64);
    assert_eq!(&buf[1..], &expected);
}

#[test]
fn encode_float64() {
    let mut buf: Vec<u8> = Vec::new();
    encode_float(&mut buf, 1.23f64.to_bits());
    assert_eq!(buf[0], FLOAT_64);
    let expected = 1.23f64.to_be_bytes();
    assert_eq!(&buf[1..], &expected);
}

#[test]
fn encode_empty_string() {
    let mut buf: Vec<u8> = Vec::new();
    encode_string(&mut buf, "");
    assert_eq!(&buf[..], &[0x80]);
}

#[test]
fn encode_tiny_string() {
    let mut buf: Vec<u8> = Vec::new();
    encode_string(&mut buf, "A");
    assert_eq!(&buf[..], &[0x81, 0x41]);
}

#[test]
fn encode_string_16_bytes() {
    let s = "0123456789abcdef";
    let mut buf: Vec<u8> = Vec::new();
    encode_string(&mut buf, s);
    assert_eq!(buf[0], STRING_8);
    assert_eq!(buf[1], 16);
    assert_eq!(&buf[2..], s.as_bytes());
}

#[test]
fn encode_empty_list() {
    let mut buf: Vec<u8> = Vec::new();
    encode_list(&mut buf, &Vec::new());
    assert_eq!(&buf[..], &[0x90]);
}

#[test]
fn encode_tiny_list() {
    let mut buf: Vec<u8> = Vec::new();
    let items = vec![BoltValue::Integer(1), BoltValue::Integer(2), BoltValue::Integer(3)];
    encode_list(&mut buf, &items);
    assert_eq!(&buf[..], &[0x93, 0x01, 0x02, 0x03]);
}

#[test]
fn encode_empty_dict() {
    let mut buf: Vec<u8> = Vec::new();
    encode_dict(&mut buf, &BoltDict::new());
    assert_eq!(&buf[..], &[0xA0]);
}

#[test]
fn encode_bytes_data() {
    let mut buf: Vec<u8> = Vec::new();
    encode_bytes(&mut buf, &[0xDE, 0xAD]);
    assert_eq!(&buf[..], &[BYTES_8, 0x02, 0xDE, 0xAD]);
}

#[test]
fn tiny_int_scenario_bytes() {
    assert_eq!(encoded(&BoltValue::Integer(127)), vec![0x7F]);
    assert_eq!(encoded(&BoltValue::Integer(-16)), vec![0xF0]);
    assert_eq!(encoded(&BoltValue::Integer(-17)), vec![0xC8, 0xEF]);
    assert_eq!(encoded(&BoltValue::Integer(32768)), vec![0xCA, 0x00, 0x00, 0x80, 0x00]);
}

#[test]
fn size_headers_pick_smallest_form() {
    assert_eq!(encoded(&BoltValue::String("a".repeat(15)))[0], 0x8F);
    assert_eq!(&encoded(&BoltValue::String("a".repeat(16)))[..2], &[0xD0, 16]);
    assert_eq!(&encoded(&BoltValue::String("a".repeat(256)))[..3], &[0xD1, 0x01, 0x00]);
    assert_eq!(&encoded(&BoltValue::String("a".repeat(65536)))[..5], &[0xD2, 0x00, 0x01, 0x00, 0x00]);
    assert_eq!(&encoded(&BoltValue::Bytes(vec![0; 256]))[..3], &[0xCD, 0x01, 0x00]);
    let list16: Vec<BoltValue> = (0..16).map(BoltValue::Integer).collect();
    assert_eq!(&encoded(&BoltValue::List(list16))[..2], &[0xD4, 16]);
    let mut d = BoltDict::new();
    for i in 0..16 {
        d.insert(format!("k{i}"), BoltValue::Null);
    }
    assert_eq!(&encoded(&BoltValue::Dict(d))[..2], &[0xD8, 16]);
}

#[test]
fn round_trip_null() {
    assert_eq!(round_trip(&BoltValue::Null), BoltValue::Null);
}

#[test]
fn round_trip_bool() {
    assert_eq!(round_trip(&BoltValue::Boolean(true)), BoltValue::Boolean(true));
    assert_eq!(round_trip(&BoltValue::Boolean(false)), BoltValue::Boolean(false));
}

#[test]
fn round_trip_integers() {
    for i in [-16, -1, 0, 1, 42, 127] {
        assert_eq!(round_trip(&BoltValue::Integer(i)), BoltValue::Integer(i), "failed for {i}");
    }
    for i in [-128, -17] {
        assert_eq!(round_trip(&BoltValue::Integer(i)), BoltValue::Integer(i), "failed for {i}");
    }
    for i in [-129, 128, -32768, 32767] {
        assert_eq!(round_trip(&BoltValue::Integer(i)), BoltValue::Integer(i), "failed for {i}");
    }
    for i in [-32769, 32768, i64::from(i32::MIN), i64::from(i32::MAX)] {
        assert_eq!(round_trip(&BoltValue::Integer(i)), BoltValue::Integer(i), "failed for {i}");
    }
    for i in [i64::from(i32::MAX) + 1, i64::from(i32::MIN) - 1, i64::MAX, i64::MIN] {
        assert_eq!(round_trip(&BoltValue::Integer(i)), BoltValue::Integer(i), "failed for {i}");
    }
}

#[test]
fn round_trip_float() {
    let val = BoltValue::Float(3.14159f64.to_bits());
    assert_eq!(round_trip(&val), val);
}

#[test]
fn round_trip_strings() {
    assert_eq!(round_trip(&BoltValue::String(String::new())), BoltValue::String(String::new()));
    assert_eq!(
        round_trip(&BoltValue::String("hello".into())),
        BoltValue::String("hello".into()),
    );
    let s: String = "a".repeat(200);
    assert_eq!(round_trip(&BoltValue::String(s.clone())), BoltValue::String(s));
}

#[test]
fn round_trip_bytes() {
    let val = BoltValue::Bytes(vec![0xDE, 0xAD, 0xBE, 0xEF]);
    assert_eq!(round_trip(&val), val);
}

#[test]
fn round_trip_list() {
    let val = BoltValue::List(vec![
        BoltValue::Integer(1),
        BoltValue::String("two".into()),
        BoltValue::Boolean(true),
    ]);
    assert_eq!(round_trip(&val), val);
}

#[test]
fn round_trip_dict() {
    let val = BoltValue::Dict(dict(vec![
        ("name", BoltValue::String("Alice".into())),
        ("age", BoltValue::Integer(30)),
    ]));
    assert_eq!(round_trip(&val), val);
}

fn alice() -> BoltNode {
    BoltNode {
        id: 42,
        labels: vec!["Person".into()],
        properties: dict(vec![("name", BoltValue::String("Alice".into()))]),
        element_id: "42".into(),
    }
}

#[test]
fn round_trip_node() {
    assert_eq!(round_trip(&BoltValue::Node(alice())), BoltValue::Node(alice()));
}

#[test]
fn round_trip_date() {
    let val = BoltValue::Date(BoltDate { days: 19000 });
    assert_eq!(round_trip(&val), val);
}

#[test]
fn round_trip_duration() {
    let val = BoltValue::Duration(BoltDuration { months: 12, days: 30, seconds: 3600, nanoseconds: 500 });
    assert_eq!(round_trip(&val), val);
}

#[test]
fn round_trip_point2d() {
    let val = BoltValue::Point2D(BoltPoint2D { srid: 4326, x: 12.5f64.to_bits(), y: 55.7f64.to_bits() });
    assert_eq!(round_trip(&val), val);
}

#[test]
fn decode_legacy_node_synthesizes_element_id() {
    // A three-field node (older protocol): id 7, no labels, no properties.
    let bytes = vec![0xB3, 0x4E, 0x07, 0x90, 0xA0];
    let (v, end) = decode_value(&bytes, 0).unwrap();
    assert_eq!(end, 5);
    match v {
        BoltValue::Node(n) => {
            assert_eq!(n.id, 7);
            assert_eq!(n.element_id, "7");
        }
        other => panic!("expected a node, got {other:?}"),
    }
}

#[test]
fn decode_errors() {
    let eod = decode_value(&[], 0).unwrap_err();
    assert!(matches!(eod, boltr::error::BoltError::Protocol(ref m) if m == "unexpected end of data"));
    let utf8 = decode_value(&[0x81, 0xFF], 0).unwrap_err();
    assert!(matches!(utf8, boltr::error::BoltError::Protocol(ref m) if m == "invalid UTF-8"));
    let key = decode_value(&[0xA1, 0x01, 0x02], 0).unwrap_err();
    assert!(matches!(key, boltr::error::BoltError::Protocol(ref m) if m == "dict key must be string"));
    assert!(decode_value(&[0xC4], 0).is_err());
    assert!(decode_value(&[0xC9, 0x01], 0).is_err());
}

#[test]
fn decode_unknown_struct_drains_fields() {
    // An unknown tag 0x33 with two integer fields: the fields are read, then it fails.
    assert!(decode_value(&[0xB2, 0x33, 0x01, 0x02], 0).is_err());
    // A field that itself cannot be read makes it fail too.
    assert!(decode_value(&[0xB2, 0x33, 0x01], 0).is_err());
}

#[test]
fn decode_accepts_wider_forms() {
    // 5 written as INT_16 still reads as 5.
    assert_eq!(decode_value(&[0xC9, 0x00, 0x05], 0).unwrap().0, BoltValue::Integer(5));
    // "A" written as STRING_8.
    assert_eq!(
        decode_value(&[0xD0, 0x01, 0x41], 0).unwrap().0,
        BoltValue::String("A".into())
    );
}

#[test]
fn encodability_checks() {
    assert!(value_encodable(&BoltValue::String("a".repeat(100))));
    assert!(value_encodable(&BoltValue::Node(alice())));
    let nested = BoltValue::List(vec![BoltValue::Dict(dict(vec![("k", BoltValue::Bytes(vec![1, 2]))]))]);
    assert!(value_encodable(&nested));
}

#[test]
fn conversions_and_accessors() {
    assert_eq!(BoltValue::from(true), BoltValue::Boolean(true));
    assert_eq!(BoltValue::from(7i64), BoltValue::Integer(7));
    assert_eq!(BoltValue::from(-3i32), BoltValue::Integer(-3));
    assert_eq!(BoltValue::from("x".to_string()), BoltValue::String("x".into()));
    assert_eq!(BoltValue::from(vec![1u8, 2]), BoltValue::Bytes(vec![1, 2]));
    assert_eq!(BoltValue::from(BoltDict::new()), BoltValue::Dict(BoltDict::new()));
    assert_eq!(BoltValue::from(alice()), BoltValue::Node(alice()));
    assert_eq!(BoltValue::String("abc".into()).as_str(), Some("abc"));
    assert_eq!(BoltValue::Integer(5).as_str(), None);
    assert_eq!(BoltValue::Integer(5).as_int(), Some(5));
    assert_eq!(BoltValue::Null.as_int(), None);
}

#[test]
fn dict_insert_replaces_and_get_finds() {
    let mut d = BoltDict::new();
    d.insert("a".into(), BoltValue::Integer(1));
    d.insert("b".into(), BoltValue::Integer(2));
    d.insert("a".into(), BoltValue::Integer(3));
    assert_eq!(d.len(), 2);
    assert_eq!(d.get("a"), Some(&BoltValue::Integer(3)));
    assert_eq!(d.get("z"), None);
    // A dictionary read with a repeated key keeps the later value.
    let bytes = vec![0xA2, 0x81, 0x6B, 0x01, 0x81, 0x6B, 0x02];
    let (v, _) = decode_value(&bytes, 0).unwrap();
    assert_eq!(v, BoltValue::Dict(dict(vec![("k", BoltValue::Integer(2))])));
}

#[test]
fn decode_any_legal_integer_form() {
    for bytes in [
        vec![0xC8, 0x01],
        vec![0xC9, 0x00, 0x01],
        vec![0xCA, 0x00, 0x00, 0x00, 0x01],
        vec![0xCB, 0, 0, 0, 0, 0, 0, 0, 0x01],
    ] {
        assert_eq!(decode_value(&bytes, 0).unwrap(), (BoltValue::Integer(1), bytes.len()));
    }
    assert_eq!(decode_value(&[0xD1, 0x00, 0x01, 0x41], 0).unwrap().0, BoltValue::String("A".into()));
    assert_eq!(decode_value(&[0xD4, 0x01, 0x05], 0).unwrap().0, BoltValue::List(vec![BoltValue::Integer(5)]));
}

#[test]
fn decode_rejects_reserved_and_truncated() {
    for m in [0xC4u8, 0xC7, 0xCF, 0xD3, 0xD7, 0xDB, 0xEF] {
        assert!(decode_value(&[m, 0, 0, 0], 0).is_err(), "marker {m:#x}");
    }
    for bytes in [vec![0xCB, 0, 0], vec![0xD0], vec![0x83, 0x41], vec![0x92, 0x01], vec![0xA1, 0x81, 0x61], vec![0xB1]] {
        assert!(decode_value(&bytes, 0).is_err(), "{bytes:?}");
    }
}

#[test]
fn decode_legacy_forms() {
    let node = vec![0xB3, 0x4E, 0x2A, 0x91, 0x81, 0x41, 0xA0];
    assert_eq!(
        decode_value(&node, 0).unwrap().0,
        BoltValue::Node(BoltNode {
            id: 42,
            labels: vec!["A".into()],
            properties: BoltDict::new(),
            element_id: "42".into(),
        })
    );
    // Relationship 5 fields: id -3, start 1, end 2, type "T", no properties.
    let rel = vec![0xB5, 0x52, 0xFD, 0x01, 0x02, 0x81, 0x54, 0xA0];
    match decode_value(&rel, 0).unwrap().0 {
        BoltValue::Relationship(r) => {
            assert_eq!(r.element_id, "-3");
            assert_eq!(r.start_element_id, "1");
            assert_eq!(r.end_element_id, "2");
        }
        other => panic!("expected a relationship, got {other:?}"),
    }
    let unbound = vec![0xB3, 0x72, 0x07, 0x81, 0x54, 0xA0];
    match decode_value(&unbound, 0).unwrap().0 {
        BoltValue::UnboundRelationship(r) => assert_eq!(r.element_id, "7"),
        other => panic!("expected an unbound relationship, got {other:?}"),
    }
}

#[test]
fn decimal_forms() {
    use_decimal(i64::MIN, "-9223372036854775808");
    use_decimal(i64::MAX, "9223372036854775807");
    use_decimal(0, "0");
    use_decimal(-10, "-10");
}

fn use_decimal(i: i64, expected: &str) {
    assert_eq!(boltr::value::decimal_string(i), expected);
}
