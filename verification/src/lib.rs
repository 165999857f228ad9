//! A verified codec for a binary key/value tree format ("binary VDF"),
//! together with the small identifier types that documents in this format
//! carry.
//!
//! The codec is split in two symmetric halves: a token-level reader and
//! writer over the byte grammar, and a value-level decoder and encoder that
//! map between bytes and a generic in-memory tree.

use vstd::prelude::*;

pub mod de;
pub mod error;
pub mod id;
pub mod laws;
pub mod token_deserializer;
pub mod token_serializer;
pub mod ser;
pub mod value;

pub use de::from_bytes;
pub use ser::to_bytes;
pub use token_deserializer::TokenDeserializer;
pub use token_serializer::TokenSerializer;

verus! {

/// Tag byte announcing that an object follows.
pub const TAG_OBJECT: u8 = 0x00;

/// Tag byte announcing that a NUL-terminated string follows.
pub const TAG_STRING: u8 = 0x01;

/// Tag byte announcing that a 4-byte little-endian integer follows.
pub const TAG_INT: u8 = 0x02;

/// Terminator byte closing the current object; it appears where a tag byte
/// would otherwise stand.
pub const OBJECT_END: u8 = 0x08;

/// Terminator byte ending a string; strings cannot contain it.
pub const STRING_END: u8 = 0x00;

/// The three kinds of value the wire format can carry.
#[derive(Copy, Clone, Debug, PartialEq, Eq, Structural)]
pub enum ValueType {
    Object,
    String,
    Int,
}

impl ValueType {
    /// The tag byte that announces a value of this kind.
    pub open spec fn spec_tag_byte(self) -> u8 {
        match self {
            ValueType::Object => TAG_OBJECT,
            ValueType::String => TAG_STRING,
            ValueType::Int => TAG_INT,
        }
    }

    /// Writes this kind as its tag byte.
    pub fn tag_byte(self) -> (b: u8)
        ensures
            b == self.spec_tag_byte(),
    {
        match self {
            ValueType::Object => TAG_OBJECT,
            ValueType::String => TAG_STRING,
            ValueType::Int => TAG_INT,
        }
    }

    /// Reads a kind back from a tag byte; bytes that are no tag give `None`.
    pub fn from_tag_byte(b: u8) -> (r: Option<ValueType>)
        ensures
            match r {
                Some(t) => t.spec_tag_byte() == b,
                None => b != TAG_OBJECT && b != TAG_STRING && b != TAG_INT,
            },
    {
        if b == TAG_OBJECT {
            Some(ValueType::Object)
        } else if b == TAG_STRING {
            Some(ValueType::String)
        } else if b == TAG_INT {
            Some(ValueType::Int)
        } else {
            None
        }
    }
}

} // verus!
