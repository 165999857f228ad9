//! The token-level writer: turns emit calls into bytes.
//!
//! The writer enforces a three-state protocol: a value is expected, a key
//! or the end of the current object is expected, or the document is done.
//! A key is not written when it is emitted: on the wire the tag byte that
//! precedes a key announces the type of the *value* that follows it, so the
//! writer buffers one pending key and writes tag, key and value together
//! when the value arrives.  Keys are validated when stored, so a later
//! value emission never leaves a half-written entry behind.

use vstd::prelude::*;
use vstd::utf8::encode_utf8;

use crate::error::Error;
use crate::{ValueType, OBJECT_END, STRING_END};

verus! {

/// The writer's protocol state: what the next emit call must be.
#[derive(Copy, Clone, Debug, PartialEq, Eq, Structural)]
pub enum Expected {
    /// The root value is closed; no further call is legal.
    End,
    /// Inside an object: a key or the object's end may come.
    KeyOrEndObject,
    /// A value must come: at the start (the root value), or after a key.
    Value,
}

/// Accepts emit calls and encodes them, enforcing the protocol.
pub struct TokenSerializer {
    out: Vec<u8>,
    expected: Expected,
    current_key: Option<String>,
    depth: usize,
}

/// The model of a writer: the bytes written so far, the protocol state,
/// the pending key, and the nesting depth.
#[verifier::ext_equal]
pub struct TokenSerializerView {
    pub out: Seq<u8>,
    pub expected: Expected,
    pub current_key: Option<Seq<char>>,
    pub depth: nat,
}

impl View for TokenSerializer {
    type V = TokenSerializerView;

    closed spec fn view(&self) -> TokenSerializerView {
        TokenSerializerView {
            out: self.out@,
            expected: self.expected,
            current_key: match self.current_key {
                Option::Some(k) => Option::Some(k@),
                Option::None => Option::None,
            },
            depth: self.depth as nat,
        }
    }
}

/// The bytes a pending key contributes when the value of kind `t`
/// arrives: nothing at the root, else the value's tag byte, then the key,
/// NUL-terminated.
pub open spec fn key_prefix(pending: Option<Seq<char>>, t: ValueType) -> Seq<u8> {
    match pending {
        Option::None => Seq::empty(),
        Option::Some(k) => seq![t.spec_tag_byte()] + encode_utf8(k) + seq![STRING_END],
    }
}

impl TokenSerializer {
    /// A writer in a lawful state.  Constructors establish this and every
    /// emit call preserves it, so it holds of any writer obtained through
    /// the public interface.
    pub open spec fn wf(&self) -> bool {
        &&& (self@.expected == Expected::KeyOrEndObject ==> self@.depth >= 1
            && self@.current_key is None)
        &&& (self@.expected == Expected::End ==> self@.depth == 0 && self@.current_key is None)
        &&& (match self@.current_key {
            Option::Some(k) => self@.depth >= 1 && !encode_utf8(k).contains(STRING_END),
            Option::None => true,
        })
        &&& (self@.expected == Expected::Value && self@.current_key is None ==> self@.depth == 0)
        &&& 2 * self@.depth <= self@.out.len() + 2
    }

    /// A fresh writer: nothing written, the root value expected.
    pub fn new() -> (s: Self)
        ensures
            s.wf(),
            s@ == (TokenSerializerView {
                out: Seq::empty(),
                expected: Expected::Value,
                current_key: Option::None,
                depth: 0,
            }),
    {
        TokenSerializer {
            out: Vec::new(),
            expected: Expected::Value,
            current_key: None,
            depth: 0,
        }
    }

    /// The protocol state the writer is in: what the next emit call must
    /// be.
    pub fn state(&self) -> (r: Expected)
        ensures
            r == self@.expected,
    {
        self.expected
    }

    /// Hands out the bytes written so far.
    pub fn into_bytes(self) -> (bytes: Vec<u8>)
        ensures
            bytes@ == self@.out,
    {
        self.out
    }

    /// Rejects a call made outside its legal state, naming both states.
    fn check_state(&self, got: Expected) -> (r: Result<(), Error>)
        ensures
            match r {
                Ok(()) => self@.expected == got,
                Err(e) => self@.expected != got && e == (Error::StateViolation {
                    expected: self@.expected,
                    got,
                }),
            },
    {
        if self.expected != got {
            return Err(Error::StateViolation { expected: self.expected, got });
        }
        Ok(())
    }

    /// Opens an object: writes the pending key under the object tag and
    /// descends one level.
    pub fn emit_object_start(&mut self) -> (r: Result<(), Error>)
        requires
            old(self).wf(),
        ensures
            final(self).wf(),
            match r {
                Ok(()) => old(self)@.expected == Expected::Value && final(self)@ == (TokenSerializerView {
                    out: old(self)@.out + key_prefix(old(self)@.current_key, ValueType::Object),
                    expected: Expected::KeyOrEndObject,
                    current_key: Option::None,
                    depth: old(self)@.depth + 1,
                }),
                Err(e) => old(self)@.expected != Expected::Value && final(self)@ == old(self)@ && e == (
                Error::StateViolation { expected: old(self)@.expected, got: Expected::Value }),
            },
    {
        match self.check_state(Expected::Value) {
            Err(e) => {
                return Err(e);
            },
            Ok(()) => {},
        }
        self.write_current_key(ValueType::Object);
        let written: usize = self.out.len();
        proof {
            assert(2 * (self.depth as int) <= written + 2);
        }
        self.depth = self.depth + 1;
        self.expected = Expected::KeyOrEndObject;
        assert(self@ =~= (TokenSerializerView {
            out: old(self)@.out + key_prefix(old(self)@.current_key, ValueType::Object),
            expected: Expected::KeyOrEndObject,
            current_key: Option::None,
            depth: old(self)@.depth + 1,
        }));
        Ok(())
    }

    /// Stores a key for the value that follows.  A key containing the
    /// terminator byte is rejected here, before anything reaches the
    /// output.
    pub fn emit_key(&mut self, key: String) -> (r: Result<(), Error>)
        requires
            old(self).wf(),
        ensures
            final(self).wf(),
            match r {
                Ok(()) => old(self)@.expected == Expected::KeyOrEndObject && !encode_utf8(
                    key@,
                ).contains(STRING_END) && final(self)@ == (TokenSerializerView {
                    expected: Expected::Value,
                    current_key: Option::Some(key@),
                    ..old(self)@
                }),
                Err(e) => final(self)@ == old(self)@ && match e {
                    Error::StateViolation { expected, got } => expected == old(self)@.expected
                        && got == Expected::KeyOrEndObject && old(self)@.expected
                        != Expected::KeyOrEndObject,
                    Error::ContentViolation => old(self)@.expected == Expected::KeyOrEndObject
                        && encode_utf8(key@).contains(STRING_END),
                    _ => false,
                },
            },
    {
        match self.check_state(Expected::KeyOrEndObject) {
            Err(e) => {
                return Err(e);
            },
            Ok(()) => {},
        }
        if contains_terminator(key.as_str().as_bytes()) {
            return Err(Error::ContentViolation);
        }
        self.current_key = Some(key);
        self.expected = Expected::Value;
        Ok(())
    }

    /// Closes the current object: writes the terminator byte and climbs
    /// one level; at the root the document is done.
    pub fn emit_object_end(&mut self) -> (r: Result<(), Error>)
        requires
            old(self).wf(),
        ensures
            final(self).wf(),
            match r {
                Ok(()) => old(self)@.expected == Expected::KeyOrEndObject && final(self)@ == (
                TokenSerializerView {
                    out: old(self)@.out + seq![OBJECT_END],
                    expected: if old(self)@.depth > 1 {
                        Expected::KeyOrEndObject
                    } else {
                        Expected::End
                    },
                    current_key: Option::None,
                    depth: (old(self)@.depth - 1) as nat,
                }),
                Err(e) => old(self)@.expected != Expected::KeyOrEndObject && final(self)@ == old(self)@
                    && e == (Error::StateViolation {
                    expected: old(self)@.expected,
                    got: Expected::KeyOrEndObject,
                }),
            },
    {
        match self.check_state(Expected::KeyOrEndObject) {
            Err(e) => {
                return Err(e);
            },
            Ok(()) => {},
        }
        self.write_end_object();
        self.depth = self.depth - 1;
        self.end_of_value();
        assert(self@ =~= (TokenSerializerView {
            out: old(self)@.out + seq![OBJECT_END],
            expected: if old(self)@.depth > 1 {
                Expected::KeyOrEndObject
            } else {
                Expected::End
            },
            current_key: Option::None,
            depth: (old(self)@.depth - 1) as nat,
        }));
        Ok(())
    }

    /// Writes a string value, preceded by the pending key under the
    /// string tag.  A string containing the terminator byte is rejected
    /// before anything is written, the pending key included.
    pub fn emit_string(&mut self, string: &str) -> (r: Result<(), Error>)
        requires
            old(self).wf(),
        ensures
            final(self).wf(),
            match r {
                Ok(()) => old(self)@.expected == Expected::Value && !encode_utf8(
                    string@,
                ).contains(STRING_END) && final(self)@ == (TokenSerializerView {
                    out: old(self)@.out + key_prefix(old(self)@.current_key, ValueType::String)
                        + encode_utf8(string@) + seq![STRING_END],
                    expected: if old(self)@.depth > 0 {
                        Expected::KeyOrEndObject
                    } else {
                        Expected::End
                    },
                    current_key: Option::None,
                    depth: old(self)@.depth,
                }),
                Err(e) => final(self)@ == old(self)@ && match e {
                    Error::StateViolation { expected, got } => expected == old(self)@.expected
                        && got == Expected::Value && old(self)@.expected != Expected::Value,
                    Error::ContentViolation => old(self)@.expected == Expected::Value
                        && encode_utf8(string@).contains(STRING_END),
                    _ => false,
                },
            },
    {
        match self.check_state(Expected::Value) {
            Err(e) => {
                return Err(e);
            },
            Ok(()) => {},
        }
        if contains_terminator(string.as_bytes()) {
            return Err(Error::ContentViolation);
        }
        self.write_current_key(ValueType::String);
        match self.write_string(string) {
            Err(e) => {
                return Err(e);
            },
            Ok(()) => {},
        }
        self.end_of_value();
        assert(self@ =~= (TokenSerializerView {
            out: old(self)@.out + key_prefix(old(self)@.current_key, ValueType::String)
                + encode_utf8(string@) + seq![STRING_END],
            expected: if old(self)@.depth > 0 {
                Expected::KeyOrEndObject
            } else {
                Expected::End
            },
            current_key: Option::None,
            depth: old(self)@.depth,
        }));
        Ok(())
    }

    /// Writes an integer value, preceded by the pending key under the
    /// integer tag.
    pub fn emit_int(&mut self, value: u32) -> (r: Result<(), Error>)
        requires
            old(self).wf(),
        ensures
            final(self).wf(),
            match r {
                Ok(()) => old(self)@.expected == Expected::Value && final(self)@ == (TokenSerializerView {
                    out: old(self)@.out + key_prefix(old(self)@.current_key, ValueType::Int)
                        + vstd::bytes::spec_u32_to_le_bytes(value),
                    expected: if old(self)@.depth > 0 {
                        Expected::KeyOrEndObject
                    } else {
                        Expected::End
                    },
                    current_key: Option::None,
                    depth: old(self)@.depth,
                }),
                Err(e) => old(self)@.expected != Expected::Value && final(self)@ == old(self)@ && e == (
                Error::StateViolation { expected: old(self)@.expected, got: Expected::Value }),
            },
    {
        match self.check_state(Expected::Value) {
            Err(e) => {
                return Err(e);
            },
            Ok(()) => {},
        }
        self.write_current_key(ValueType::Int);
        self.write_int(value);
        self.end_of_value();
        assert(self@ =~= (TokenSerializerView {
            out: old(self)@.out + key_prefix(old(self)@.current_key, ValueType::Int)
                + vstd::bytes::spec_u32_to_le_bytes(value),
            expected: if old(self)@.depth > 0 {
                Expected::KeyOrEndObject
            } else {
                Expected::End
            },
            current_key: Option::None,
            depth: old(self)@.depth,
        }));
        Ok(())
    }

    /// After a closed value: inside an object the next key is expected,
    /// at the root the document is done.
    fn end_of_value(&mut self)
        requires
            old(self)@.current_key is None,
            2 * old(self)@.depth <= old(self)@.out.len() + 2,
        ensures
            final(self).wf(),
            final(self)@ == (TokenSerializerView {
                expected: if old(self)@.depth > 0 {
                    Expected::KeyOrEndObject
                } else {
                    Expected::End
                },
                ..old(self)@
            }),
    {
        if self.depth == 0 {
            self.expected = Expected::End;
        } else {
            self.expected = Expected::KeyOrEndObject;
        }
    }

    /// Writes the pending key, if any: the value's tag byte, then the key
    /// bytes, NUL-terminated.  The key was validated when it was stored.
    fn write_current_key(&mut self, value_type: ValueType)
        ensures
            final(self)@ == (TokenSerializerView {
                out: old(self)@.out + key_prefix(old(self)@.current_key, value_type),
                current_key: Option::None,
                ..old(self)@
            }),
    {
        match &self.current_key {
            None => {},
            Some(key) => {
                self.out.push(value_type.tag_byte());
                append_slice(&mut self.out, key.as_str().as_bytes());
                self.out.push(STRING_END);
            },
        }
        self.current_key = None;
        assert(self@ =~= (TokenSerializerView {
            out: old(self)@.out + key_prefix(old(self)@.current_key, value_type),
            current_key: Option::None,
            ..old(self)@
        }));
    }

    /// Writes string bytes and their terminator; a string that contains
    /// the terminator byte is rejected with nothing written.
    fn write_string(&mut self, value: &str) -> (r: Result<(), Error>)
        ensures
            match r {
                Ok(()) => !encode_utf8(value@).contains(STRING_END) && final(self)@ == (
                TokenSerializerView {
                    out: old(self)@.out + encode_utf8(value@) + seq![STRING_END],
                    ..old(self)@
                }),
                Err(e) => encode_utf8(value@).contains(STRING_END) && e == Error::ContentViolation
                    && final(self)@ == old(self)@,
            },
    {
        if contains_terminator(value.as_bytes()) {
            return Err(Error::ContentViolation);
        }
        append_slice(&mut self.out, value.as_bytes());
        self.out.push(STRING_END);
        assert(self@ =~= (TokenSerializerView {
            out: old(self)@.out + encode_utf8(value@) + seq![STRING_END],
            ..old(self)@
        }));
        Ok(())
    }

    /// Writes an integer as four little-endian bytes.
    fn write_int(&mut self, value: u32)
        ensures
            final(self)@ == (TokenSerializerView {
                out: old(self)@.out + vstd::bytes::spec_u32_to_le_bytes(value),
                ..old(self)@
            }),
    {
        let bytes = vstd::bytes::u32_to_le_bytes(value);
        append_slice(&mut self.out, bytes.as_slice());
        assert(self@ =~= (TokenSerializerView {
            out: old(self)@.out + vstd::bytes::spec_u32_to_le_bytes(value),
            ..old(self)@
        }));
    }

    /// Writes the object terminator byte.
    fn write_end_object(&mut self)
        ensures
            final(self)@ == (TokenSerializerView { out: old(self)@.out + seq![OBJECT_END], ..old(self)@ }),
    {
        self.out.push(OBJECT_END);
        assert(self@ =~= (TokenSerializerView {
            out: old(self)@.out + seq![OBJECT_END],
            ..old(self)@
        }));
    }
}

/// Whether the byte slice holds the string terminator anywhere.
fn contains_terminator(bytes: &[u8]) -> (r: bool)
    ensures
        r == bytes@.contains(STRING_END),
{
    let n = bytes.len();
    let mut i: usize = 0;
    while i < n
        invariant
            n == bytes@.len(),
            i <= n,
            forall|j: int| 0 <= j < i ==> bytes@[j] != STRING_END,
        decreases n - i,
    {
        if bytes[i] == STRING_END {
            assert(bytes@.contains(STRING_END)) by {
                assert(bytes@[i as int] == STRING_END);
            }
            return true;
        }
        i = i + 1;
    }
    false
}

/// Appends every byte of the slice to the vector, in order.
fn append_slice(out: &mut Vec<u8>, bytes: &[u8])
    ensures
        final(out)@ == old(out)@ + bytes@,
{
    let n = bytes.len();
    let mut i: usize = 0;
    while i < n
        invariant
            n == bytes@.len(),
            i <= n,
            out@ == old(out)@ + bytes@.subrange(0, i as int),
        decreases n - i,
    {
        out.push(bytes[i]);
        assert(out@ =~= old(out)@ + bytes@.subrange(0, i as int + 1));
        i = i + 1;
    }
    assert(out@ =~= old(out)@ + bytes@);
}

} // verus!
