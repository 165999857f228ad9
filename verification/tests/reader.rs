//! Tests of the token reader over raw bytes.

use binary_vdf::error::Error;
use binary_vdf::token_deserializer::{Token, TokenDeserializer};

#[test]
fn lexes_a_document_token_by_token() {
    let bytes = [0x01, 0x61, 0x00, 0x62, 0x00, 0x08];
    let mut reader = TokenDeserializer::new(&bytes);
    assert_eq!(reader.next(), Some(Ok(Token::ObjectStart)));
    assert_eq!(reader.next(), Some(Ok(Token::Key("a".to_string()))));
    assert_eq!(reader.next(), Some(Ok(Token::String("b".to_string()))));
    assert_eq!(reader.next(), Some(Ok(Token::ObjectEnd)));
    assert_eq!(reader.next(), None);
    assert_eq!(reader.next(), None);
}

#[test]
fn lexes_nested_objects_with_depth() {
    let bytes = [0x00, 0x6b, 0x00, 0x08, 0x08];
    let mut reader = TokenDeserializer::new(&bytes);
    assert_eq!(reader.next(), Some(Ok(Token::ObjectStart)));
    assert_eq!(reader.next(), Some(Ok(Token::Key("k".to_string()))));
    assert_eq!(reader.next(), Some(Ok(Token::ObjectStart)));
    assert_eq!(reader.next(), Some(Ok(Token::ObjectEnd)));
    assert_eq!(reader.next(), Some(Ok(Token::ObjectEnd)));
    assert_eq!(reader.next(), None);
}

#[test]
fn stops_permanently_after_an_error() {
    let bytes = [0x05];
    let mut reader = TokenDeserializer::new(&bytes);
    assert_eq!(reader.next(), Some(Ok(Token::ObjectStart)));
    assert_eq!(reader.next(), Some(Err(Error::MalformedTag(0x05))));
    assert_eq!(reader.next(), None);
}

#[test]
fn reads_integers_little_endian() {
    let bytes = [0x02, 0x6e, 0x00, 0x01, 0x02, 0x03, 0x04, 0x08];
    let mut reader = TokenDeserializer::new(&bytes);
    assert_eq!(reader.next(), Some(Ok(Token::ObjectStart)));
    assert_eq!(reader.next(), Some(Ok(Token::Key("n".to_string()))));
    assert_eq!(reader.next(), Some(Ok(Token::Int(0x04030201))));
}
