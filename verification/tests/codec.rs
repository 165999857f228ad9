//! End-to-end tests of the byte codec: exact wire bytes, round trips, and
//! each error the decoder and encoder can report.

use binary_vdf::de::{from_bytes, Deserializer};
use binary_vdf::error::Error;
use binary_vdf::ser::to_bytes;
use binary_vdf::token_serializer::TokenSerializer;
use binary_vdf::value::Value;

fn obj(entries: Vec<(&str, Value)>) -> Value {
    Value::Object(entries.into_iter().map(|(k, v)| (k.to_string(), v)).collect())
}

fn s(text: &str) -> Value {
    Value::String(text.to_string())
}

#[test]
fn encodes_one_string_field_byte_exactly() {
    let v = obj(vec![("a", s("b"))]);
    let bytes = to_bytes(&v).unwrap();
    assert_eq!(bytes, vec![0x01, 0x61, 0x00, 0x62, 0x00, 0x08]);
}

#[test]
fn encodes_one_int_field_byte_exactly() {
    let v = obj(vec![("n", Value::UInt32(123))]);
    let bytes = to_bytes(&v).unwrap();
    assert_eq!(bytes, vec![0x02, 0x6e, 0x00, 0x7b, 0x00, 0x00, 0x00, 0x08]);
}

#[test]
fn encodes_list_as_object_with_decimal_keys() {
    let list = Value::from_list(vec![s("x"), s("y")]);
    let v = obj(vec![("l", list)]);
    let bytes = to_bytes(&v).unwrap();
    assert_eq!(
        bytes,
        vec![
            0x00, 0x6c, 0x00, // object tag, key "l", NUL
            0x01, 0x30, 0x00, 0x78, 0x00, // string tag, key "0", value "x"
            0x01, 0x31, 0x00, 0x79, 0x00, // string tag, key "1", value "y"
            0x08, // inner terminator
            0x08, // outer terminator
        ]
    );
}

#[test]
fn list_keys_reach_two_decimal_digits() {
    let items: Vec<Value> = (0u32..11).map(Value::UInt32).collect();
    let list = Value::from_list(items);
    match &list {
        Value::Object(entries) => {
            assert_eq!(entries.len(), 11);
            assert_eq!(entries[0].0, "0");
            assert_eq!(entries[9].0, "9");
            assert_eq!(entries[10].0, "10");
        }
        _ => panic!("a list encodes as an object"),
    }
}

#[test]
fn rejects_string_with_embedded_nul() {
    let mut ts = TokenSerializer::new();
    let r = ts.emit_string("a\0b");
    assert_eq!(r, Err(Error::ContentViolation));
    assert_eq!(ts.into_bytes(), Vec::<u8>::new());
}

#[test]
fn rejects_document_with_embedded_nul_anywhere() {
    let v = obj(vec![("k", s("a\0b"))]);
    assert_eq!(to_bytes(&v), Err(Error::ContentViolation));
    let v = obj(vec![("a\0b", s("x"))]);
    assert_eq!(to_bytes(&v), Err(Error::ContentViolation));
}

#[test]
fn round_trips_nested_document() {
    let v = obj(vec![
        ("name", s("proton")),
        (
            "settings",
            obj(vec![
                ("volume", Value::UInt32(7)),
                ("empty", obj(vec![])),
                ("path", s("/opt/games")),
            ]),
        ),
        ("id", Value::UInt32(0xdeadbeef)),
        ("unicode", s("héllo wörld")),
    ]);
    let bytes = to_bytes(&v).unwrap();
    let back = from_bytes(&bytes).unwrap();
    assert_eq!(back, v);
    let bytes_again = to_bytes(&back).unwrap();
    assert_eq!(bytes_again, bytes);
}

#[test]
fn round_trips_duplicate_keys_without_deduplicating() {
    let v = obj(vec![("k", Value::UInt32(1)), ("k", Value::UInt32(2))]);
    let bytes = to_bytes(&v).unwrap();
    let back = from_bytes(&bytes).unwrap();
    assert_eq!(back, v);
}

#[test]
fn decodes_empty_document() {
    assert_eq!(from_bytes(&[0x08]).unwrap(), obj(vec![]));
}

#[test]
fn ignores_bytes_after_the_root_object() {
    assert_eq!(from_bytes(&[0x08, 0xff, 0x05]).unwrap(), obj(vec![]));
}

#[test]
fn reports_malformed_tag_with_the_byte() {
    assert_eq!(from_bytes(&[0x05, 0x61, 0x00]), Err(Error::MalformedTag(0x05)));
}

#[test]
fn reports_unexpected_end_mid_integer() {
    let bytes = [0x02, 0x6e, 0x00, 0x7b, 0x00];
    assert_eq!(from_bytes(&bytes), Err(Error::UnexpectedEnd));
}

#[test]
fn reports_unexpected_end_on_empty_input() {
    assert_eq!(from_bytes(&[]), Err(Error::UnexpectedEnd));
}

#[test]
fn reports_unexpected_end_on_missing_terminator() {
    let bytes = [0x01, 0x61, 0x00, 0x62, 0x00];
    assert_eq!(from_bytes(&bytes), Err(Error::UnexpectedEnd));
}

#[test]
fn reports_invalid_utf8_in_key() {
    let bytes = [0x01, 0xff, 0x00, 0x62, 0x00, 0x08];
    assert_eq!(from_bytes(&bytes), Err(Error::InvalidUtf8));
}

#[test]
fn round_trips_non_ascii_strings() {
    let v = obj(vec![("é", s("日本語"))]);
    let bytes = to_bytes(&v).unwrap();
    assert_eq!(from_bytes(&bytes).unwrap(), v);
}

#[test]
fn decodes_bool_values() {
    // { "a": 1, "b": 0 }
    let bytes = [
        0x02, 0x61, 0x00, 0x01, 0x00, 0x00, 0x00, //
        0x02, 0x62, 0x00, 0x00, 0x00, 0x00, 0x00, //
        0x08,
    ];
    let mut de = Deserializer::new(&bytes);
    de.expect_object_start().unwrap();
    assert_eq!(de.expect_key_or_object_end().unwrap(), Some("a".to_string()));
    assert_eq!(de.expect_bool().unwrap(), true);
    assert_eq!(de.expect_key_or_object_end().unwrap(), Some("b".to_string()));
    assert_eq!(de.expect_bool().unwrap(), false);
    assert_eq!(de.expect_key_or_object_end().unwrap(), None);
}

#[test]
fn rejects_out_of_range_bool() {
    // { "a": 5 }
    let bytes = [0x02, 0x61, 0x00, 0x05, 0x00, 0x00, 0x00, 0x08];
    let mut de = Deserializer::new(&bytes);
    de.expect_object_start().unwrap();
    de.expect_key_or_object_end().unwrap();
    assert_eq!(de.expect_bool(), Err(Error::InvalidBool(5)));
}

#[test]
fn reports_unexpected_token_shape() {
    // root object start where an integer is demanded
    let bytes = [0x08];
    let mut de = Deserializer::new(&bytes);
    match de.expect_int() {
        Err(Error::UnexpectedToken(binary_vdf::token_deserializer::Token::ObjectStart)) => {}
        other => panic!("expected an unexpected-token error, got {:?}", other),
    }
}

#[test]
fn parses_list_values_in_encounter_order() {
    // { "0": "x", "anything": 7 } read as a sequence: keys are ignored
    let bytes = [
        0x01, 0x30, 0x00, 0x78, 0x00, //
        0x02, 0x61, 0x00, 0x07, 0x00, 0x00, 0x00, //
        0x08,
    ];
    let mut de = Deserializer::new(&bytes);
    let items = de.parse_list().unwrap();
    assert_eq!(items, vec![s("x"), Value::UInt32(7)]);
}

#[test]
fn reencoding_a_decoded_document_reproduces_its_bytes() {
    // a raw, hand-written document: { "a": { "n": 1 }, "s": "v" }
    let bytes = vec![
        0x00, 0x61, 0x00, // object tag, key "a"
        0x02, 0x6e, 0x00, 0x01, 0x00, 0x00, 0x00, // int tag, key "n", 1
        0x08, // inner terminator
        0x01, 0x73, 0x00, 0x76, 0x00, // string tag, key "s", value "v"
        0x08, // outer terminator
    ];
    let v = from_bytes(&bytes).unwrap();
    assert_eq!(to_bytes(&v).unwrap(), bytes);
}

#[test]
fn round_trips_empty_key_and_empty_string() {
    let v = obj(vec![("", s(""))]);
    let bytes = to_bytes(&v).unwrap();
    assert_eq!(bytes, vec![0x01, 0x00, 0x00, 0x08]);
    assert_eq!(from_bytes(&bytes).unwrap(), v);
}

#[test]
fn encodes_empty_list_as_empty_object() {
    let v = obj(vec![("l", Value::from_list(vec![]))]);
    let bytes = to_bytes(&v).unwrap();
    assert_eq!(bytes, vec![0x00, 0x6c, 0x00, 0x08, 0x08]);
}
