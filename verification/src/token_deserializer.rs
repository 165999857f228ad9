//! The token-level reader: a forward-only lexer over the byte grammar.
//!
//! The reader walks a byte slice and yields one [`Token`] per call to
//! [`TokenDeserializer::next`].  Its state is a pending operation — parse a
//! value of a known kind, or parse a key-or-end — and the nesting depth.
//! The root of a document is an implicit object: a fresh reader yields
//! `ObjectStart` without consuming a byte.  Any error ends the sequence
//! permanently.

use vstd::prelude::*;
use vstd::utf8::{decode_utf8, encode_utf8, valid_utf8};

use crate::error::Error;
use crate::{ValueType, OBJECT_END, STRING_END, TAG_INT, TAG_OBJECT, TAG_STRING};

verus! {

/// One unit of decoded wire structure.
#[derive(Debug, PartialEq, Eq)]
pub enum Token {
    /// An object opens; its entries follow.
    ObjectStart,
    /// The current object closes.
    ObjectEnd,
    /// The key of the entry whose value follows.
    Key(String),
    /// An unsigned 32-bit integer value.
    Int(u32),
    /// A text value.
    String(String),
}

/// The spec-level mirror of [`Token`], strings taken by content.
pub enum TokenView {
    ObjectStart,
    ObjectEnd,
    Key(Seq<char>),
    Int(u32),
    String(Seq<char>),
}

impl View for Token {
    type V = TokenView;

    open spec fn view(&self) -> TokenView {
        match self {
            Token::ObjectStart => TokenView::ObjectStart,
            Token::ObjectEnd => TokenView::ObjectEnd,
            Token::Key(k) => TokenView::Key(k@),
            Token::Int(n) => TokenView::Int(*n),
            Token::String(s) => TokenView::String(s@),
        }
    }
}

/// What the reader does on its next step.
#[derive(Copy, Clone, Debug, PartialEq, Eq, Structural)]
pub enum NextOp {
    /// The sequence has ended, by the root closing or by an error.
    DoNothing,
    /// A value of this kind is due; the kind came from the preceding key
    /// (or is Object, at the root).
    ParseValue(ValueType),
    /// A key or the end of the current object is due.
    ParseKey,
}

/// Turns a byte slice into a flat sequence of structural tokens: single
/// pass, forward only, not restartable.
pub struct TokenDeserializer<'a> {
    bytes: &'a [u8],
    pos: usize,
    next_op: NextOp,
    depth: usize,
}

/// The model of a reader: the whole input, the cursor into it, the
/// pending operation and the nesting depth.
#[verifier::ext_equal]
pub struct TokenDeserializerView {
    pub input: Seq<u8>,
    pub pos: nat,
    pub op: NextOp,
    pub depth: nat,
}

impl<'a> View for TokenDeserializer<'a> {
    type V = TokenDeserializerView;

    closed spec fn view(&self) -> TokenDeserializerView {
        TokenDeserializerView {
            input: self.bytes@,
            pos: self.pos as nat,
            op: self.next_op,
            depth: self.depth as nat,
        }
    }
}

/// The first position at or after `pos` holding the string terminator, or
/// the input's length when there is none.
pub open spec fn nul_pos(input: Seq<u8>, pos: int) -> int
    decreases input.len() - pos,
{
    if pos < 0 || pos >= input.len() {
        input.len() as int
    } else if input[pos] == STRING_END {
        pos
    } else {
        nul_pos(input, pos + 1)
    }
}

/// Whether a string read starting at `pos` succeeds: a terminator exists
/// and the bytes before it are valid UTF-8.
pub open spec fn string_read_ok(input: Seq<u8>, pos: int) -> bool {
    nul_pos(input, pos) < input.len() && valid_utf8(string_read_bytes(input, pos))
}

/// The bytes of the string read starting at `pos`: everything up to and
/// excluding the first terminator.
pub open spec fn string_read_bytes(input: Seq<u8>, pos: int) -> Seq<u8> {
    input.subrange(pos, nul_pos(input, pos))
}

/// The position just past the terminator of the string read at `pos`.
pub open spec fn string_read_end(input: Seq<u8>, pos: int) -> int {
    nul_pos(input, pos) + 1
}

/// Why a string read starting at `pos` fails: no terminator before the
/// input ends, or the bytes before it are not UTF-8.
pub open spec fn string_read_err(input: Seq<u8>, pos: int) -> Error {
    if nul_pos(input, pos) == input.len() {
        Error::UnexpectedEnd
    } else {
        Error::InvalidUtf8
    }
}

/// Bounds and meaning of [`nul_pos`]: nothing before it is a terminator,
/// and it points at one unless there is none at all.
pub proof fn lemma_nul_pos(input: Seq<u8>, pos: int)
    requires
        0 <= pos <= input.len(),
    ensures
        pos <= nul_pos(input, pos) <= input.len(),
        forall|j: int| pos <= j < nul_pos(input, pos) ==> input[j] != STRING_END,
        nul_pos(input, pos) < input.len() ==> input[nul_pos(input, pos)] == STRING_END,
    decreases input.len() - pos,
{
    if pos < input.len() && input[pos] != STRING_END {
        lemma_nul_pos(input, pos + 1);
    }
}

/// [`nul_pos`] is the only position with its properties: any position
/// preceded by no terminator, and itself a terminator or the input's end,
/// is it.
pub proof fn lemma_nul_pos_unique(input: Seq<u8>, pos: int, i: int)
    requires
        0 <= pos <= i <= input.len(),
        forall|j: int| pos <= j < i ==> input[j] != STRING_END,
        i < input.len() ==> input[i] == STRING_END,
    ensures
        nul_pos(input, pos) == i,
    decreases i - pos,
{
    if pos < i {
        assert(input[pos] != STRING_END);
        lemma_nul_pos_unique(input, pos + 1, i);
    }
}

impl<'a> TokenDeserializer<'a> {
    /// A reader in a lawful state.  Constructors establish this and every
    /// step preserves it, so it holds of any reader obtained through the
    /// public interface.
    pub open spec fn wf(&self) -> bool {
        reader_wf_at(self@)
    }

    /// A fresh reader over the input, about to yield the implicit root
    /// object.
    pub fn new(bytes: &'a [u8]) -> (s: Self)
        ensures
            s.wf(),
            s@ == (TokenDeserializerView {
                input: bytes@,
                pos: 0,
                op: NextOp::ParseValue(ValueType::Object),
                depth: 0,
            }),
    {
        TokenDeserializer { bytes, pos: 0, next_op: NextOp::ParseValue(ValueType::Object), depth: 0 }
    }

    /// Yields the next token, or `None` after the root object has closed.
    /// Each token's effect on the cursor, the depth and the pending
    /// operation is fixed by the byte grammar; any error is terminal.
    pub fn next(&mut self) -> (r: Option<Result<Token, Error>>)
        requires
            old(self).wf(),
        ensures
            final(self).wf(),
            final(self)@.input == old(self)@.input,
            match old(self)@.op {
                NextOp::DoNothing => r is None && final(self)@ == old(self)@,
                NextOp::ParseValue(t) => r matches Some(step) && parse_value_post(
                    old(self)@,
                    final(self)@,
                    t,
                    step,
                ),
                NextOp::ParseKey => r matches Some(step) && parse_key_post(
                    old(self)@,
                    final(self)@,
                    step,
                ),
            },
    {
        let result = match self.next_op {
            NextOp::ParseValue(value_type) => self.handle_parse_value(value_type),
            NextOp::ParseKey => self.handle_parse_key(),
            NextOp::DoNothing => {
                return None;
            },
        };
        match result {
            Ok((token, next_op)) => {
                self.next_op = next_op;
                Some(Ok(token))
            },
            Err(err) => {
                self.next_op = NextOp::DoNothing;
                Some(Err(err))
            },
        }
    }

    /// Parses a value whose kind is already known: an object opens
    /// without consuming a byte; a string or integer consumes its bytes.
    fn handle_parse_value(&mut self, value_type: ValueType) -> (r: Result<(Token, NextOp), Error>)
        requires
            old(self).wf(),
            old(self)@.op == NextOp::ParseValue(value_type),
        ensures
            final(self)@.input == old(self)@.input,
            final(self)@.op == old(self)@.op,
            match r {
                Ok((token, op)) => parse_value_post(
                    old(self)@,
                    (TokenDeserializerView { op, ..final(self)@ }),
                    value_type,
                    Ok(token),
                ) && reader_wf_at(
                    (TokenDeserializerView { op, ..final(self)@ }),
                ),
                Err(e) => parse_value_post(
                    old(self)@,
                    (TokenDeserializerView { op: NextOp::DoNothing, ..final(self)@ }),
                    value_type,
                    Err(e),
                ) && final(self)@.depth == old(self)@.depth,
            },
    {
        match value_type {
            ValueType::Object => {
                proof {
                    if self.depth > 0 {
                        assert(2 * self@.depth <= self@.pos);
                    }
                }
                self.depth = self.depth + 1;
                Ok((Token::ObjectStart, NextOp::ParseKey))
            },
            ValueType::String => {
                match self.read_string() {
                    Ok(value) => Ok((Token::String(value), NextOp::ParseKey)),
                    Err(e) => Err(e),
                }
            },
            ValueType::Int => {
                match self.read_int() {
                    Ok(value) => Ok((Token::Int(value), NextOp::ParseKey)),
                    Err(e) => Err(e),
                }
            },
        }
    }

    /// Parses a key or the end of the current object: the terminator byte
    /// closes the level; a tag byte announces the next value's kind and
    /// is followed by the key string.
    fn handle_parse_key(&mut self) -> (r: Result<(Token, NextOp), Error>)
        requires
            old(self).wf(),
            old(self)@.op == NextOp::ParseKey,
        ensures
            final(self)@.input == old(self)@.input,
            final(self)@.op == old(self)@.op,
            match r {
                Ok((token, op)) => parse_key_post(
                    old(self)@,
                    (TokenDeserializerView { op, ..final(self)@ }),
                    Ok(token),
                ) && reader_wf_at(
                    (TokenDeserializerView { op, ..final(self)@ }),
                ),
                Err(e) => parse_key_post(
                    old(self)@,
                    (TokenDeserializerView { op: NextOp::DoNothing, ..final(self)@ }),
                    Err(e),
                ) && final(self)@.depth == old(self)@.depth,
            },
    {
        let value_type = match self.read_value_type() {
            Ok(vt) => vt,
            Err(e) => {
                return Err(e);
            },
        };
        let value_type = match value_type {
            Some(value_type) => value_type,
            None => {
                self.depth = self.depth - 1;
                let next_op = if self.depth == 0 {
                    NextOp::DoNothing
                } else {
                    NextOp::ParseKey
                };
                return Ok((Token::ObjectEnd, next_op));
            },
        };
        proof {
            lemma_nul_pos(old(self)@.input, old(self)@.pos as int + 1);
            let b = old(self)@.input[old(self)@.pos as int];
            assert(b == value_type.spec_tag_byte());
            assert(b != OBJECT_END && (b == TAG_OBJECT || b == TAG_STRING || b == TAG_INT));
            assert(value_type == (if b == TAG_OBJECT {
                ValueType::Object
            } else if b == TAG_STRING {
                ValueType::String
            } else {
                ValueType::Int
            }));
        }
        let key = match self.read_string() {
            Ok(key) => key,
            Err(e) => {
                return Err(e);
            },
        };
        assert((TokenDeserializerView { op: NextOp::ParseValue(value_type), ..final(self)@ }) =~= (
        TokenDeserializerView {
            pos: string_read_end(old(self)@.input, old(self)@.pos as int + 1) as nat,
            op: NextOp::ParseValue(value_type),
            ..old(self)@
        }));
        Ok((Token::Key(key), NextOp::ParseValue(value_type)))
    }

    /// Reads one tag byte: `None` stands for the object terminator, a
    /// kind for its tag; any other byte is a malformed tag.
    fn read_value_type(&mut self) -> (r: Result<Option<ValueType>, Error>)
        requires
            old(self).wf(),
        ensures
            final(self).wf(),
            final(self)@.input == old(self)@.input,
            final(self)@.op == old(self)@.op,
            final(self)@.depth == old(self)@.depth,
            match r {
                Ok(vt) => old(self)@.pos < old(self)@.input.len() && final(self)@.pos == old(self)@.pos + 1 && match vt {
                    Option::None => old(self)@.input[old(self)@.pos as int] == OBJECT_END,
                    Option::Some(t) => old(self)@.input[old(self)@.pos as int]
                        == t.spec_tag_byte(),
                },
                Err(e) => match e {
                    Error::UnexpectedEnd => old(self)@.pos == old(self)@.input.len() && final(self)@ == old(self)@,
                    Error::MalformedTag(b) => old(self)@.pos < old(self)@.input.len() && b == old(self)@.input[old(self)@.pos as int] && b != OBJECT_END && b != TAG_OBJECT && b
                        != TAG_STRING && b != TAG_INT && final(self)@.pos == old(self)@.pos + 1,
                    _ => false,
                },
            },
    {
        let byte = match self.read_byte() {
            Ok(b) => b,
            Err(e) => {
                return Err(e);
            },
        };
        if byte == OBJECT_END {
            return Ok(None);
        }
        match ValueType::from_tag_byte(byte) {
            Some(t) => Ok(Some(t)),
            None => Err(Error::MalformedTag(byte)),
        }
    }

    /// Reads a NUL-terminated UTF-8 string and steps past its terminator.
    fn read_string(&mut self) -> (r: Result<String, Error>)
        requires
            old(self).wf(),
        ensures
            final(self).wf(),
            final(self)@.input == old(self)@.input,
            final(self)@.op == old(self)@.op,
            final(self)@.depth == old(self)@.depth,
            match r {
                Ok(s) => string_read_ok(old(self)@.input, old(self)@.pos as int) && encode_utf8(
                    s@,
                ) == string_read_bytes(old(self)@.input, old(self)@.pos as int) && s@
                    == decode_utf8(string_read_bytes(old(self)@.input, old(self)@.pos as int))
                    && final(self)@.pos == string_read_end(old(self)@.input, old(self)@.pos as int),
                Err(e) => !string_read_ok(old(self)@.input, old(self)@.pos as int) && e
                    == string_read_err(old(self)@.input, old(self)@.pos as int) && final(self)@
                    == old(self)@,
            },
    {
        broadcast use vstd::utf8::group_utf8_lib;

        let ghost input = self.bytes@;
        let ghost start = self.pos as int;
        let n = self.bytes.len();
        let mut end: usize = self.pos;
        while end < n && self.bytes[end] != STRING_END
            invariant
                n == self.bytes@.len(),
                self.pos <= end <= n,
                forall|j: int| self.pos <= j < end ==> self.bytes@[j] != STRING_END,
            decreases n - end,
        {
            end = end + 1;
        }
        if end == n {
            proof {
                lemma_nul_pos_unique(input, start, n as int);
            }
            return Err(Error::UnexpectedEnd);
        }
        proof {
            lemma_nul_pos_unique(input, start, end as int);
        }
        let piece = vstd::slice::slice_subrange(self.bytes, self.pos, end);
        match string_from_utf8(piece) {
            Some(s) => {
                self.pos = end + 1;
                Ok(s)
            },
            None => Err(Error::InvalidUtf8),
        }
    }

    /// Reads a 4-byte little-endian unsigned integer.
    fn read_int(&mut self) -> (r: Result<u32, Error>)
        requires
            old(self).wf(),
        ensures
            final(self).wf(),
            final(self)@.input == old(self)@.input,
            final(self)@.op == old(self)@.op,
            final(self)@.depth == old(self)@.depth,
            match r {
                Ok(x) => old(self)@.pos + 4 <= old(self)@.input.len() && x
                    == vstd::bytes::spec_u32_from_le_bytes(
                    old(self)@.input.subrange(old(self)@.pos as int, old(self)@.pos as int + 4),
                ) && vstd::bytes::spec_u32_to_le_bytes(x) == old(self)@.input.subrange(
                    old(self)@.pos as int,
                    old(self)@.pos as int + 4,
                ) && final(self)@.pos == old(self)@.pos + 4,
                Err(e) => old(self)@.pos + 4 > old(self)@.input.len() && e == Error::UnexpectedEnd
                    && final(self)@ == old(self)@,
            },
    {
        if self.bytes.len() - self.pos < 4 {
            return Err(Error::UnexpectedEnd);
        }
        let piece = vstd::slice::slice_subrange(self.bytes, self.pos, self.pos + 4);
        let x = vstd::bytes::u32_from_le_bytes(piece);
        proof {
            vstd::bytes::lemma_auto_spec_u32_to_from_le_bytes();
        }
        self.pos = self.pos + 4;
        Ok(x)
    }

    /// Reads one byte and steps past it.
    fn read_byte(&mut self) -> (r: Result<u8, Error>)
        requires
            old(self).wf(),
        ensures
            final(self)@.input == old(self)@.input,
            final(self)@.op == old(self)@.op,
            final(self)@.depth == old(self)@.depth,
            match r {
                Ok(b) => old(self)@.pos < old(self)@.input.len() && b == old(self)@.input[old(self)@.pos as int] && final(self)@.pos == old(self)@.pos + 1,
                Err(e) => e == Error::UnexpectedEnd && old(self)@.pos == old(self)@.input.len()
                    && final(self)@ == old(self)@,
            },
    {
        if self.pos == self.bytes.len() {
            return Err(Error::UnexpectedEnd);
        }
        let b = self.bytes[self.pos];
        self.pos = self.pos + 1;
        Ok(b)
    }
}

/// A reader model in a lawful state; [`TokenDeserializer::wf`] is this of
/// the reader's view.
pub open spec fn reader_wf_at(v: TokenDeserializerView) -> bool {
    &&& v.pos <= v.input.len()
    &&& (v.op == NextOp::ParseKey ==> 1 <= v.depth && 2 * v.depth <= v.pos + 2)
    &&& (match v.op {
        NextOp::ParseValue(t) => (t != ValueType::Object ==> v.depth >= 1) && (v.depth > 0 ==> 2
            * v.depth <= v.pos),
        _ => true,
    })
}

/// What one step in value position does, given the pending kind: an
/// object opens on the spot; a string or integer is read from the cursor;
/// errors are exactly the reads that cannot complete.
pub open spec fn parse_value_post(
    pre: TokenDeserializerView,
    post: TokenDeserializerView,
    t: ValueType,
    step: Result<Token, Error>,
) -> bool {
    match t {
        ValueType::Object => step matches Ok(token) && token == Token::ObjectStart && post == (
        TokenDeserializerView { depth: pre.depth + 1, op: NextOp::ParseKey, ..pre }),
        ValueType::String => {
            if string_read_ok(pre.input, pre.pos as int) {
                step matches Ok(token) && token matches Token::String(s) && encode_utf8(s@)
                    == string_read_bytes(pre.input, pre.pos as int) && post == (
                TokenDeserializerView {
                    pos: string_read_end(pre.input, pre.pos as int) as nat,
                    op: NextOp::ParseKey,
                    ..pre
                })
            } else {
                step matches Err(e) && e == string_read_err(pre.input, pre.pos as int) && post == (
                TokenDeserializerView { op: NextOp::DoNothing, ..pre })
            }
        },
        ValueType::Int => {
            if pre.pos + 4 <= pre.input.len() {
                step matches Ok(token) && token matches Token::Int(x) && vstd::bytes::spec_u32_to_le_bytes(
                    x,
                ) == pre.input.subrange(pre.pos as int, pre.pos as int + 4) && post == (
                TokenDeserializerView {
                    pos: (pre.pos + 4) as nat,
                    op: NextOp::ParseKey,
                    ..pre
                })
            } else {
                step matches Err(e) && e == Error::UnexpectedEnd && post == (
                TokenDeserializerView { op: NextOp::DoNothing, ..pre })
            }
        },
    }
}

/// What one step in key position does: the terminator closes the level
/// (ending the sequence at the root); a tag byte is followed by the key
/// string and fixes the kind of the value due next; anything else is a
/// malformed tag.
pub open spec fn parse_key_post(
    pre: TokenDeserializerView,
    post: TokenDeserializerView,
    step: Result<Token, Error>,
) -> bool {
    if pre.pos == pre.input.len() {
        step matches Err(e) && e == Error::UnexpectedEnd && post == (TokenDeserializerView {
            op: NextOp::DoNothing,
            ..pre
        })
    } else {
        let b = pre.input[pre.pos as int];
        if b == OBJECT_END {
            step matches Ok(token) && token == Token::ObjectEnd && post == (TokenDeserializerView {
                pos: pre.pos + 1,
                depth: (pre.depth - 1) as nat,
                op: if pre.depth == 1 {
                    NextOp::DoNothing
                } else {
                    NextOp::ParseKey
                },
                ..pre
            })
        } else if b == TAG_OBJECT || b == TAG_STRING || b == TAG_INT {
            let t = if b == TAG_OBJECT {
                ValueType::Object
            } else if b == TAG_STRING {
                ValueType::String
            } else {
                ValueType::Int
            };
            if string_read_ok(pre.input, pre.pos as int + 1) {
                step matches Ok(token) && token matches Token::Key(k) && encode_utf8(k@)
                    == string_read_bytes(pre.input, pre.pos as int + 1) && post == (
                TokenDeserializerView {
                    pos: string_read_end(pre.input, pre.pos as int + 1) as nat,
                    op: NextOp::ParseValue(t),
                    ..pre
                })
            } else {
                step matches Err(e) && e == string_read_err(pre.input, pre.pos as int + 1) && post
                    == (TokenDeserializerView { pos: pre.pos + 1, op: NextOp::DoNothing, ..pre })
            }
        } else {
            step matches Err(e) && e == Error::MalformedTag(b) && post == (TokenDeserializerView {
                pos: pre.pos + 1,
                op: NextOp::DoNothing,
                ..pre
            })
        }
    }
}

/// Relies on str::from_utf8 (and to_owned): yields the string holding
/// exactly these bytes when they are valid UTF-8, and nothing exactly
/// otherwise.
#[verifier::external_body]
pub(crate) fn string_from_utf8(bytes: &[u8]) -> (r: Option<String>)
    ensures
        r is Some <==> valid_utf8(bytes@),
        r matches Some(s) ==> encode_utf8(s@) == bytes@,
{
    match std::str::from_utf8(bytes) {
        Ok(s) => Some(s.to_owned()),
        Err(_) => None,
    }
}

} // verus!
