//! Tests of the token writer's protocol state machine.

use binary_vdf::error::Error;
use binary_vdf::token_serializer::{Expected, TokenSerializer};

#[test]
fn writes_a_document_token_by_token() {
    let mut ts = TokenSerializer::new();
    ts.emit_object_start().unwrap();
    ts.emit_key("a".to_string()).unwrap();
    ts.emit_string("b").unwrap();
    ts.emit_key("n".to_string()).unwrap();
    ts.emit_int(123).unwrap();
    ts.emit_object_end().unwrap();
    assert_eq!(
        ts.into_bytes(),
        vec![0x01, 0x61, 0x00, 0x62, 0x00, 0x02, 0x6e, 0x00, 0x7b, 0x00, 0x00, 0x00, 0x08]
    );
}

#[test]
fn rejects_key_where_a_value_is_due() {
    let mut ts = TokenSerializer::new();
    assert_eq!(
        ts.emit_key("a".to_string()),
        Err(Error::StateViolation { expected: Expected::Value, got: Expected::KeyOrEndObject })
    );
}

#[test]
fn rejects_end_where_a_value_is_due() {
    let mut ts = TokenSerializer::new();
    assert_eq!(
        ts.emit_object_end(),
        Err(Error::StateViolation { expected: Expected::Value, got: Expected::KeyOrEndObject })
    );
}

#[test]
fn rejects_calls_after_the_root_closed() {
    let mut ts = TokenSerializer::new();
    ts.emit_object_start().unwrap();
    ts.emit_object_end().unwrap();
    assert_eq!(
        ts.emit_int(1),
        Err(Error::StateViolation { expected: Expected::End, got: Expected::Value })
    );
    assert_eq!(ts.into_bytes(), vec![0x08]);
}

#[test]
fn rejects_key_containing_the_terminator_before_writing() {
    let mut ts = TokenSerializer::new();
    ts.emit_object_start().unwrap();
    assert_eq!(ts.emit_key("a\0b".to_string()), Err(Error::ContentViolation));
    // nothing of the bad entry reached the output
    ts.emit_object_end().unwrap();
    assert_eq!(ts.into_bytes(), vec![0x08]);
}

#[test]
fn defers_key_bytes_until_the_value_fixes_the_tag() {
    let mut ts = TokenSerializer::new();
    ts.emit_object_start().unwrap();
    ts.emit_key("k".to_string()).unwrap();
    // the key is buffered: nothing has been written yet but nothing is lost
    ts.emit_object_start().unwrap();
    ts.emit_object_end().unwrap();
    ts.emit_object_end().unwrap();
    assert_eq!(ts.into_bytes(), vec![0x00, 0x6b, 0x00, 0x08, 0x08]);
}
