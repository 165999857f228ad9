//! The value-level decoder: consumes the token reader to build a generic
//! document tree.

use vstd::prelude::*;
use vstd::utf8::{decode_utf8, encode_utf8};

use crate::error::Error;
use crate::token_deserializer::{
    lemma_nul_pos, lemma_nul_pos_unique, nul_pos, parse_key_post, parse_value_post, reader_wf_at,
    string_read_bytes, string_read_end, string_read_ok, NextOp, Token, TokenDeserializer,
    TokenDeserializerView,
};
use crate::value::{
    entries_bytes, is_prefix, kind_of, lemma_entries_bytes_push, lemma_value_bytes_unambiguous,
    lemma_view_entries_index, lemma_wf_entries_at, lemma_wf_entries_from_index,
    lemma_wf_entries_index, lemma_wf_entries_push, string_bytes, value_bytes, view_entries,
    view_value, wf_entries, wf_string, wf_value, Value, ValueView,
};
use crate::{ValueType, OBJECT_END, STRING_END, TAG_INT, TAG_OBJECT, TAG_STRING};

verus! {

/// What one token step does, whatever state the reader was in: at the end
/// of the sequence only the unexpected-end error comes; otherwise the
/// reader's own step contracts apply.
pub open spec fn token_step_post(
    pre: TokenDeserializerView,
    post: TokenDeserializerView,
    step: Result<Token, Error>,
) -> bool {
    match pre.op {
        NextOp::DoNothing => step matches Err(e) && e == Error::UnexpectedEnd && post == pre,
        NextOp::ParseValue(t) => parse_value_post(pre, post, t, step),
        NextOp::ParseKey => parse_key_post(pre, post, step),
    }
}

/// No representable value of the given kind has its encoding at the start
/// of these bytes.
pub open spec fn no_value_prefix(t: ValueType, rest: Seq<u8>) -> bool {
    forall|w: ValueView|
        #![trigger value_bytes(w)]
        kind_of(w) == t && wf_value(w) ==> !is_prefix(value_bytes(w), rest)
}

/// No representable entry list, closed by the object terminator, has its
/// encoding at the start of these bytes.
pub open spec fn no_entries_prefix(rest: Seq<u8>) -> bool {
    forall|es: Seq<(Seq<char>, ValueView)>|
        #![trigger entries_bytes(es)]
        wf_entries(es) ==> !is_prefix(entries_bytes(es) + seq![OBJECT_END], rest)
}

/// Any representable entry list whose closed encoding begins at `p0` has
/// at least `k` entries, and its remainder's closed encoding begins at
/// `p`.
pub open spec fn entries_continuation(input: Seq<u8>, p0: int, k: int, p: int) -> bool {
    forall|es: Seq<(Seq<char>, ValueView)>|
        #![trigger entries_bytes(es)]
        wf_entries(es) && is_prefix(entries_bytes(es) + seq![OBJECT_END], input.skip(p0))
            ==> es.len() >= k && is_prefix(
            entries_bytes(es.skip(k)) + seq![OBJECT_END],
            input.skip(p),
        )
}

/// Consumes tokens to build values.
pub struct Deserializer<'a> {
    token_deserializer: TokenDeserializer<'a>,
}

impl<'a> View for Deserializer<'a> {
    type V = TokenDeserializerView;

    closed spec fn view(&self) -> TokenDeserializerView {
        self.token_deserializer@
    }
}

impl<'a> Deserializer<'a> {
    /// A decoder in a lawful state; it holds of any decoder obtained
    /// through the public interface.
    pub open spec fn wf(&self) -> bool {
        reader_wf_at(self@)
    }

    /// A fresh decoder over the input.
    pub fn new(bytes: &'a [u8]) -> (s: Self)
        ensures
            s.wf(),
            s@ == (TokenDeserializerView {
                input: bytes@,
                pos: 0,
                op: NextOp::ParseValue(ValueType::Object),
                depth: 0,
            }),
    {
        Deserializer { token_deserializer: TokenDeserializer::new(bytes) }
    }

    /// The next token, where the sequence having ended is itself the
    /// unexpected-end error.
    pub fn expect_token(&mut self) -> (r: Result<Token, Error>)
        requires
            old(self).wf(),
        ensures
            final(self).wf(),
            final(self)@.input == old(self)@.input,
            token_step_post(old(self)@, final(self)@, r),
    {
        match self.token_deserializer.next() {
            None => Err(Error::UnexpectedEnd),
            Some(Ok(token)) => Ok(token),
            Some(Err(e)) => Err(e),
        }
    }

    /// The next token, which must be an integer.
    pub fn expect_int(&mut self) -> (r: Result<u32, Error>)
        requires
            old(self).wf(),
        ensures
            final(self).wf(),
            final(self)@.input == old(self)@.input,
            match r {
                Ok(n) => token_step_post(old(self)@, final(self)@, Ok(Token::Int(n))),
                Err(e) => (exists|tok: Token|
                    token_step_post(old(self)@, final(self)@, Ok(tok)) && !(tok matches Token::Int(
                        _,
                    )) && e == Error::UnexpectedToken(tok)) || token_step_post(
                    old(self)@,
                    final(self)@,
                    Err(e),
                ),
            },
    {
        match self.expect_token() {
            Ok(Token::Int(value)) => Ok(value),
            Ok(token) => {
                let e = Error::UnexpectedToken(token);
                proof {
                    let tok = e->UnexpectedToken_0;
                    assert(token_step_post(old(self)@, final(self)@, Ok(tok)) && !(tok
                        matches Token::Int(_)) && e == Error::UnexpectedToken(tok));
                }
                Err(e)
            },
            Err(e) => Err(e),
        }
    }

    /// The next token, which must be an integer holding exactly 0 or 1.
    pub fn expect_bool(&mut self) -> (r: Result<bool, Error>)
        requires
            old(self).wf(),
        ensures
            final(self).wf(),
            final(self)@.input == old(self)@.input,
            match r {
                Ok(b) => token_step_post(
                    old(self)@,
                    final(self)@,
                    Ok(Token::Int(if b { 1u32 } else { 0u32 })),
                ),
                Err(e) => (exists|tok: Token|
                    token_step_post(old(self)@, final(self)@, Ok(tok)) && !(tok matches Token::Int(
                        _,
                    )) && e == Error::UnexpectedToken(tok)) || (exists|v: u32|
                    token_step_post(old(self)@, final(self)@, Ok(Token::Int(v))) && v != 0 && v != 1
                        && e == Error::InvalidBool(v)) || token_step_post(
                    old(self)@,
                    final(self)@,
                    Err(e),
                ),
            },
    {
        match self.expect_int() {
            Ok(0) => Ok(false),
            Ok(1) => Ok(true),
            Ok(value) => {
                let e = Error::InvalidBool(value);
                proof {
                    assert(token_step_post(old(self)@, final(self)@, Ok(Token::Int(value)))
                        && value != 0 && value != 1 && e == Error::InvalidBool(value));
                }
                Err(e)
            },
            Err(e) => Err(e),
        }
    }

    /// The next token, which must open an object.
    pub fn expect_object_start(&mut self) -> (r: Result<(), Error>)
        requires
            old(self).wf(),
        ensures
            final(self).wf(),
            final(self)@.input == old(self)@.input,
            match r {
                Ok(()) => token_step_post(old(self)@, final(self)@, Ok(Token::ObjectStart)),
                Err(e) => (exists|tok: Token|
                    token_step_post(old(self)@, final(self)@, Ok(tok)) && !(tok
                        matches Token::ObjectStart) && e == Error::UnexpectedToken(tok))
                    || token_step_post(old(self)@, final(self)@, Err(e)),
            },
    {
        match self.expect_token() {
            Ok(Token::ObjectStart) => Ok(()),
            Ok(token) => {
                let e = Error::UnexpectedToken(token);
                proof {
                    let tok = e->UnexpectedToken_0;
                    assert(token_step_post(old(self)@, final(self)@, Ok(tok)) && !(tok
                        matches Token::ObjectStart) && e == Error::UnexpectedToken(tok));
                }
                Err(e)
            },
            Err(e) => Err(e),
        }
    }

    /// The next token, which must be a key (giving its text) or the end
    /// of the current object (giving `None`).
    pub fn expect_key_or_object_end(&mut self) -> (r: Result<Option<String>, Error>)
        requires
            old(self).wf(),
        ensures
            final(self).wf(),
            final(self)@.input == old(self)@.input,
            match r {
                Ok(k) => match k {
                    Option::Some(key) => token_step_post(
                        old(self)@,
                        final(self)@,
                        Ok(Token::Key(key)),
                    ),
                    Option::None => token_step_post(old(self)@, final(self)@, Ok(Token::ObjectEnd)),
                },
                Err(e) => (exists|tok: Token|
                    token_step_post(old(self)@, final(self)@, Ok(tok)) && !(tok matches Token::Key(
                        _,
                    )) && !(tok matches Token::ObjectEnd) && e == Error::UnexpectedToken(tok))
                    || token_step_post(old(self)@, final(self)@, Err(e)),
            },
    {
        match self.expect_token() {
            Ok(Token::Key(key)) => Ok(Some(key)),
            Ok(Token::ObjectEnd) => Ok(None),
            Ok(token) => {
                let e = Error::UnexpectedToken(token);
                proof {
                    let tok = e->UnexpectedToken_0;
                    assert(token_step_post(old(self)@, final(self)@, Ok(tok)) && !(tok
                        matches Token::Key(_)) && !(tok matches Token::ObjectEnd) && e
                        == Error::UnexpectedToken(tok));
                }
                Err(e)
            },
            Err(e) => Err(e),
        }
    }
}

/// Being a prefix after skipping is holding the same bytes in place.
pub proof fn lemma_prefix_skip(x: Seq<u8>, input: Seq<u8>, p: int)
    requires
        0 <= p <= input.len(),
    ensures
        is_prefix(x, input.skip(p)) <==> (p + x.len() <= input.len() && input.subrange(
            p,
            p + x.len(),
        ) == x),
{
    let sk = input.skip(p);
    assert(sk.len() == input.len() - p);
    if x.len() <= input.len() - p {
        assert(sk.subrange(0, x.len() as int) =~= input.subrange(p, p + x.len()));
    }
}

/// A tail of a representable entry list is representable.
pub proof fn lemma_wf_entries_skip(es: Seq<(Seq<char>, ValueView)>, k: int)
    requires
        wf_entries(es),
        0 <= k <= es.len(),
    ensures
        wf_entries(es.skip(k)),
{
    lemma_wf_entries_index(es);
    let tail = es.skip(k);
    assert forall|i: int|
        0 <= i < tail.len() implies wf_string((#[trigger] tail[i]).0) && wf_value(tail[i].1) by {
        assert(tail[i] == es[k + i]);
        assert(wf_string(es[k + i].0) && wf_value(es[k + i].1));
    }
    lemma_wf_entries_from_index(tail);
}

/// Bytes that hold a terminated representable string are read back as
/// exactly that string.
pub proof fn lemma_string_prefix_read(s: Seq<char>, input: Seq<u8>, p: int)
    requires
        wf_string(s),
        0 <= p,
        p + string_bytes(s).len() <= input.len(),
        input.subrange(p, p + string_bytes(s).len()) == string_bytes(s),
    ensures
        string_read_ok(input, p),
        string_read_bytes(input, p) == encode_utf8(s),
        string_read_end(input, p) == p + string_bytes(s).len(),
        decode_utf8(encode_utf8(s)) == s,
    decreases 0int,
{
    broadcast use vstd::utf8::group_utf8_lib;

    let e = encode_utf8(s);
    let l = e.len() as int;
    let sb = string_bytes(s);
    assert(sb.len() == l + 1);
    assert forall|j: int| p <= j < p + l implies input[j] != STRING_END by {
        assert(input[j] == input.subrange(p, p + sb.len() as int)[j - p]);
        assert(sb[j - p] == e[j - p]);
        if e[j - p] == STRING_END {
            assert(e.contains(STRING_END));
        }
    }
    assert(input[p + l] == input.subrange(p, p + sb.len() as int)[l]);
    assert(sb[l] == STRING_END);
    lemma_nul_pos_unique(input, p, p + l);
    assert(string_read_bytes(input, p) =~= e) by {
        assert forall|j: int| 0 <= j < l implies input.subrange(p, p + l)[j] == e[j] by {
            assert(input[p + j] == input.subrange(p, p + sb.len() as int)[j]);
            assert(sb[j] == e[j]);
        }
    }
}

/// Bytes holding a representable entry's encoding determine what every
/// read step sees: the tag byte, the key string, the value's bytes, and
/// the remaining entries' bytes after it.
pub proof fn lemma_entry_prefix_shape(es: Seq<(Seq<char>, ValueView)>, input: Seq<u8>, p: int)
    requires
        wf_entries(es),
        es.len() > 0,
        0 <= p <= input.len(),
        is_prefix(entries_bytes(es) + seq![OBJECT_END], input.skip(p)),
    ensures
        p < input.len(),
        input[p] == kind_of(es[0].1).spec_tag_byte(),
        string_read_ok(input, p + 1),
        string_read_bytes(input, p + 1) == encode_utf8(es[0].0),
        decode_utf8(encode_utf8(es[0].0)) == es[0].0,
        string_read_end(input, p + 1) == p + 1 + string_bytes(es[0].0).len(),
        wf_string(es[0].0),
        wf_value(es[0].1),
        wf_entries(es.skip(1)),
        string_read_end(input, p + 1) + value_bytes(es[0].1).len() <= input.len(),
        is_prefix(value_bytes(es[0].1), input.skip(string_read_end(input, p + 1))),
        is_prefix(
            entries_bytes(es.skip(1)) + seq![OBJECT_END],
            input.skip(string_read_end(input, p + 1) + value_bytes(es[0].1).len()),
        ),
{
    broadcast use vstd::utf8::group_utf8_lib;

    lemma_wf_entries_at(es, 0);
    lemma_wf_entries_skip(es, 1);
    let a = seq![kind_of(es[0].1).spec_tag_byte()];
    let b = string_bytes(es[0].0);
    let c = value_bytes(es[0].1);
    let d = entries_bytes(es.skip(1)) + seq![OBJECT_END];
    let total = entries_bytes(es) + seq![OBJECT_END];
    assert(es.drop_first() =~= es.skip(1));
    assert(total =~= a + b + c + d);
    lemma_prefix_skip(total, input, p);
    assert(p + total.len() <= input.len());
    assert(input.subrange(p, p + total.len() as int) == total);
    assert forall|j: int| 0 <= j < total.len() implies input[p + j] == total[j] by {
        assert(input.subrange(p, p + total.len() as int)[j] == input[p + j]);
    }
    assert(input[p] == total[0]);
    assert(total[0] == a[0]);
    let lb = b.len() as int;
    let lc = c.len() as int;
    let ld = d.len() as int;
    assert(input.subrange(p + 1, p + 1 + lb) =~= b) by {
        assert forall|j: int| 0 <= j < lb implies input.subrange(p + 1, p + 1 + lb)[j] == b[j] by {
            assert(input[p + 1 + j] == total[1 + j]);
            assert(total[1 + j] == b[j]);
        }
    }
    lemma_string_prefix_read(es[0].0, input, p + 1);
    let q = p + 1 + lb;
    assert(input.subrange(q, q + lc) =~= c) by {
        assert forall|j: int| 0 <= j < lc implies input.subrange(q, q + lc)[j] == c[j] by {
            assert(input[q + j] == total[1 + lb + j]);
            assert(total[1 + lb + j] == c[j]);
        }
    }
    lemma_prefix_skip(c, input, q);
    assert(input.subrange(q + lc, q + lc + ld) =~= d) by {
        assert forall|j: int| 0 <= j < ld implies input.subrange(q + lc, q + lc + ld)[j] == d[j] by {
            assert(input[q + lc + j] == total[1 + lb + lc + j]);
            assert(total[1 + lb + lc + j] == d[j]);
        }
    }
    lemma_prefix_skip(d, input, q + lc);
}

impl<'a> Deserializer<'a> {
    /// Decodes one complete value where the reader expects a value: the
    /// result is representable, its kind is the pending one, and its
    /// encoding is exactly the bytes consumed.  Decoding fails exactly
    /// when no representable value of the pending kind has its encoding
    /// at the cursor.
    pub fn parse_any(&mut self) -> (r: Result<Value, Error>)
        requires
            old(self).wf(),
        ensures
            final(self).wf(),
            final(self)@.input == old(self)@.input,
            match r {
                Ok(v) => {
                    &&& old(self)@.op matches NextOp::ParseValue(t) && kind_of(v@) == t && final(self)@.op == (if t == ValueType::Object && old(self)@.depth == 0 {
                        NextOp::DoNothing
                    } else {
                        NextOp::ParseKey
                    })
                    &&& wf_value(v@)
                    &&& final(self)@.pos == old(self)@.pos + value_bytes(v@).len()
                    &&& old(self)@.input.subrange(old(self)@.pos as int, final(self)@.pos as int)
                        == value_bytes(v@)
                    &&& final(self)@.depth == old(self)@.depth
                },
                Err(e) => match old(self)@.op {
                    NextOp::ParseValue(t) => no_value_prefix(
                        t,
                        old(self)@.input.skip(old(self)@.pos as int),
                    ),
                    NextOp::DoNothing => e == Error::UnexpectedEnd && final(self)@ == old(self)@,
                    NextOp::ParseKey => true,
                },
            },
        decreases old(self)@.input.len() - old(self)@.pos, 1int,
    {
        broadcast use vstd::utf8::group_utf8_lib;

        let ghost input = old(self)@.input;
        let ghost p = old(self)@.pos as int;
        let token = match self.expect_token() {
            Ok(token) => token,
            Err(e) => {
                proof {
                    match old(self)@.op {
                        NextOp::ParseValue(t) => if t == ValueType::String {
                            assert forall|w: ValueView|
                                kind_of(w) == t && wf_value(w) implies !is_prefix(
                                #[trigger] value_bytes(w),
                                input.skip(p),
                            ) by {
                                if is_prefix(value_bytes(w), input.skip(p)) {
                                    lemma_prefix_skip(value_bytes(w), input, p);
                                    lemma_string_prefix_read(w->String_0, input, p);
                                }
                            }
                        } else if t == ValueType::Int {
                            vstd::bytes::lemma_auto_spec_u32_to_from_le_bytes();
                            assert forall|w: ValueView|
                                kind_of(w) == t && wf_value(w) implies !is_prefix(
                                #[trigger] value_bytes(w),
                                input.skip(p),
                            ) by {
                                if is_prefix(value_bytes(w), input.skip(p)) {
                                    lemma_prefix_skip(value_bytes(w), input, p);
                                }
                            }
                        },
                        _ => {},
                    }
                }
                return Err(e);
            },
        };
        match token {
            Token::ObjectStart => {
                match self.parse_entries() {
                    Ok(entries) => {
                        let v = Value::Object(entries);
                        proof {
                            assert(v@ == ValueView::Object(view_entries(entries@)));
                        }
                        Ok(v)
                    },
                    Err(e) => {
                        proof {
                            assert forall|w: ValueView|
                                kind_of(w) == ValueType::Object && wf_value(w) implies !is_prefix(
                                #[trigger] value_bytes(w),
                                input.skip(p),
                            ) by {
                                if is_prefix(value_bytes(w), input.skip(p)) {
                                    let es = w->Object_0;
                                    assert(entries_bytes(es) + seq![OBJECT_END] == value_bytes(w));
                                    assert(is_prefix(
                                        entries_bytes(es) + seq![OBJECT_END],
                                        input.skip(p),
                                    ));
                                }
                            }
                        }
                        Err(e)
                    },
                }
            },
            Token::Int(n) => {
                let v = Value::UInt32(n);
                Ok(v)
            },
            Token::String(s) => {
                proof {
                    lemma_read_string_bytes(input, p, s@);
                }
                let v = Value::String(s);
                Ok(v)
            },
            Token::Key(k) => Err(Error::UnexpectedToken(Token::Key(k))),
            Token::ObjectEnd => Err(Error::UnexpectedToken(Token::ObjectEnd)),
        }
    }

    /// Decodes the entries of an object whose start has been consumed, up
    /// to and including its terminator, in wire order and without
    /// deduplication.  Decoding fails exactly when no representable entry
    /// list closed by the terminator has its encoding at the cursor.
    fn parse_entries(&mut self) -> (r: Result<Vec<(String, Value)>, Error>)
        requires
            old(self).wf(),
            old(self)@.op == NextOp::ParseKey,
        ensures
            final(self).wf(),
            final(self)@.input == old(self)@.input,
            match r {
                Ok(entries) => {
                    &&& wf_entries(view_entries(entries@))
                    &&& final(self)@.pos == old(self)@.pos + entries_bytes(
                        view_entries(entries@),
                    ).len() + 1
                    &&& old(self)@.input.subrange(old(self)@.pos as int, final(self)@.pos as int)
                        == entries_bytes(view_entries(entries@)) + seq![OBJECT_END]
                    &&& final(self)@.depth == (old(self)@.depth - 1) as nat
                    &&& final(self)@.op == (if old(self)@.depth == 1 {
                        NextOp::DoNothing
                    } else {
                        NextOp::ParseKey
                    })
                },
                Err(e) => no_entries_prefix(old(self)@.input.skip(old(self)@.pos as int)),
            },
        decreases old(self)@.input.len() - old(self)@.pos, 0int,
    {
        broadcast use vstd::utf8::group_utf8_lib;

        let ghost input = old(self)@.input;
        let ghost p0 = old(self)@.pos as int;
        let mut entries: Vec<(String, Value)> = Vec::new();
        proof {
            assert(view_entries(entries@) =~= Seq::<(Seq<char>, ValueView)>::empty());
            assert(input.subrange(p0, p0) =~= entries_bytes(view_entries(entries@)));
            assert(entries_continuation(input, p0, 0, p0)) by {
                assert forall|es: Seq<(Seq<char>, ValueView)>|
                    wf_entries(es) && is_prefix(
                        #[trigger] entries_bytes(es) + seq![OBJECT_END],
                        input.skip(p0),
                    ) implies es.len() >= 0 && is_prefix(
                    entries_bytes(es.skip(0)) + seq![OBJECT_END],
                    input.skip(p0),
                ) by {
                    assert(es.skip(0) =~= es);
                }
            }
        }
        loop
            invariant
                input == old(self)@.input,
                p0 == old(self)@.pos,
                self.wf(),
                self@.input == input,
                self@.op == NextOp::ParseKey,
                self@.depth == old(self)@.depth,
                old(self)@.depth >= 1,
                p0 <= self@.pos <= input.len(),
                0 <= p0 <= input.len(),
                view_entries(entries@).len() == entries@.len(),
                wf_entries(view_entries(entries@)),
                input.subrange(p0, self@.pos as int) == entries_bytes(view_entries(entries@)),
                self@.pos == p0 + entries_bytes(view_entries(entries@)).len(),
                entries_continuation(input, p0, entries@.len() as int, self@.pos as int),
            decreases input.len() - self@.pos,
        {
            broadcast use vstd::utf8::group_utf8_lib;

            let ghost k = entries@.len() as int;
            let ghost p = self@.pos as int;
            let ghost ve = view_entries(entries@);
            let ghost pre_it = self@;
            let key = match self.expect_key_or_object_end() {
                Err(e) => {
                    proof {
                        if exists|tok: Token|
                            token_step_post(pre_it, self@, Ok(tok)) && !(tok matches Token::Key(_))
                                && !(tok matches Token::ObjectEnd) && e == Error::UnexpectedToken(
                                tok,
                            ) {
                            let tok = choose|tok: Token|
                                token_step_post(pre_it, self@, Ok(tok)) && !(tok
                                    matches Token::Key(_)) && !(tok matches Token::ObjectEnd) && e
                                    == Error::UnexpectedToken(tok);
                            assert(false);
                        }
                        assert(parse_key_post(pre_it, self@, Err(e)));
                        lemma_no_entries_prefix_at_failure(input, p0, k, p);
                    }
                    return Err(e);
                },
                Ok(None) => {
                    proof {
                        assert(input.subrange(p0, p + 1) =~= input.subrange(p0, p) + seq![
                            input[p],
                        ]);
                    }
                    return Ok(entries);
                },
                Ok(Some(key)) => key,
            };
            let ghost key_view = key@;
            let ghost t = self@.op->ParseValue_0;
            let ghost p1 = self@.pos as int;
            proof {
                lemma_nul_pos(input, p + 1);
            }
            let value = match self.parse_any() {
                Err(e) => {
                    proof {
                        lemma_no_entries_prefix_value_failure(input, p0, k, p, p1, t);
                    }
                    return Err(e);
                },
                Ok(value) => value,
            };
            let ghost p2 = self@.pos as int;
            let ghost vv = value@;
            proof {
                lemma_read_string_bytes(input, p + 1, key_view);
                let e = (key_view, vv);
                let ve1 = view_entries(entries@.push((key, value)));
                assert(entries@.push((key, value)).drop_last() =~= entries@);
                assert(ve1 == ve.push(e));
                lemma_entries_bytes_push(ve, e);
                lemma_wf_entries_push(ve, e);
                assert(input[p] == kind_of(vv).spec_tag_byte());
                lemma_consumed_entry_bytes(input, p0, p, p1, p2, ve, key_view, vv);
                lemma_carrier_step(input, p0, k, p, p1, p2, t, key_view, vv);
            }
            entries.push((key, value));
            proof {
                lemma_view_entries_index(entries@);
            }
        }
    }
}

/// A successful string read at `q` covers exactly the read string's
/// terminated bytes, and that string is representable.
proof fn lemma_read_string_bytes(input: Seq<u8>, q: int, key_view: Seq<char>)
    requires
        0 <= q <= input.len(),
        string_read_ok(input, q),
        encode_utf8(key_view) == string_read_bytes(input, q),
    ensures
        q + 1 <= string_read_end(input, q) <= input.len(),
        string_read_end(input, q) == q + string_bytes(key_view).len(),
        input.subrange(q, string_read_end(input, q)) == string_bytes(key_view),
        wf_string(key_view),
{
    lemma_nul_pos(input, q);
    let np = nul_pos(input, q);
    let p1 = np + 1;
    assert(input[np] == STRING_END);
    assert(!encode_utf8(key_view).contains(STRING_END)) by {
        if encode_utf8(key_view).contains(STRING_END) {
            let i = choose|i: int|
                0 <= i < encode_utf8(key_view).len() && encode_utf8(key_view)[i] == STRING_END;
            assert(input.subrange(q, np)[i] == input[q + i]);
            assert(input[q + i] == STRING_END);
        }
    }
    assert(input.subrange(q, p1) =~= string_bytes(key_view)) by {
        assert forall|j: int|
            0 <= j < p1 - q implies input.subrange(q, p1)[j] == string_bytes(key_view)[j] by {
            if j < np - q {
                assert(input.subrange(q, np)[j] == input[q + j]);
            }
        }
    }
}

/// When the value step after a read key fails, no representable entry
/// list closed by the terminator begins at `p0` where the entries began.
proof fn lemma_no_entries_prefix_value_failure(
    input: Seq<u8>,
    p0: int,
    k: int,
    p: int,
    p1: int,
    t: ValueType,
)
    requires
        0 <= p0 <= p < input.len(),
        0 <= k,
        entries_continuation(input, p0, k, p),
        input[p] == t.spec_tag_byte(),
        string_read_ok(input, p + 1),
        p1 == string_read_end(input, p + 1),
        no_value_prefix(t, input.skip(p1)),
    ensures
        no_entries_prefix(input.skip(p0)),
{
    assert forall|es: Seq<(Seq<char>, ValueView)>| wf_entries(es) implies !is_prefix(
        #[trigger] entries_bytes(es) + seq![OBJECT_END],
        input.skip(p0),
    ) by {
        if is_prefix(entries_bytes(es) + seq![OBJECT_END], input.skip(p0)) {
            assert(es.len() >= k && is_prefix(
                entries_bytes(es.skip(k)) + seq![OBJECT_END],
                input.skip(p),
            ));
            let tail = es.skip(k);
            lemma_wf_entries_skip(es, k);
            if tail.len() == 0 {
                assert(entries_bytes(tail) + seq![OBJECT_END] =~= seq![OBJECT_END]);
                lemma_prefix_skip(seq![OBJECT_END], input, p);
                assert(input[p] == input.subrange(p, p + 1)[0]);
            } else {
                lemma_entry_prefix_shape(tail, input, p);
                assert(kind_of(tail[0].1) == t) by {
                    assert(input[p] == kind_of(tail[0].1).spec_tag_byte());
                }
                assert(!is_prefix(value_bytes(tail[0].1), input.skip(p1)));
            }
            assert(false);
        }
    }
}

/// A parsed entry moves the continuation point past its bytes: whatever
/// representable entry list lies at `p0`, its next entry is exactly the
/// key and value just read, by prefix-unambiguity.
proof fn lemma_carrier_step(
    input: Seq<u8>,
    p0: int,
    k: int,
    p: int,
    p1: int,
    p2: int,
    t: ValueType,
    key_view: Seq<char>,
    vv: ValueView,
)
    requires
        0 <= p0 <= p < input.len(),
        0 <= k,
        entries_continuation(input, p0, k, p),
        input[p] == t.spec_tag_byte(),
        string_read_ok(input, p + 1),
        encode_utf8(key_view) == string_read_bytes(input, p + 1),
        p1 == string_read_end(input, p + 1),
        wf_value(vv),
        kind_of(vv) == t,
        p2 == p1 + value_bytes(vv).len(),
        p2 <= input.len(),
        input.subrange(p1, p2) == value_bytes(vv),
    ensures
        entries_continuation(input, p0, k + 1, p2),
{
    broadcast use vstd::utf8::group_utf8_lib;

    assert forall|es: Seq<(Seq<char>, ValueView)>|
        wf_entries(es) && is_prefix(
            #[trigger] entries_bytes(es) + seq![OBJECT_END],
            input.skip(p0),
        ) implies es.len() >= k + 1 && is_prefix(
        entries_bytes(es.skip(k + 1)) + seq![OBJECT_END],
        input.skip(p2),
    ) by {
        assert(es.len() >= k && is_prefix(
            entries_bytes(es.skip(k)) + seq![OBJECT_END],
            input.skip(p),
        ));
        let tail = es.skip(k);
        lemma_wf_entries_skip(es, k);
        if tail.len() == 0 {
            assert(entries_bytes(tail) + seq![OBJECT_END] =~= seq![OBJECT_END]);
            lemma_prefix_skip(seq![OBJECT_END], input, p);
            assert(input[p] == input.subrange(p, p + 1)[0]);
            assert(false);
        }
        lemma_entry_prefix_shape(tail, input, p);
        assert(kind_of(tail[0].1) == t) by {
            assert(input[p] == kind_of(tail[0].1).spec_tag_byte());
        }
        assert(encode_utf8(tail[0].0) == encode_utf8(key_view));
        assert(tail[0].0 == key_view);
        let w = tail[0].1;
        lemma_prefix_skip(value_bytes(w), input, p1);
        let x = input.skip(p1);
        assert(x =~= value_bytes(w) + x.skip(value_bytes(w).len() as int)) by {
            assert forall|j: int|
                0 <= j < x.len() implies x[j] == (value_bytes(w) + x.skip(
                value_bytes(w).len() as int,
            ))[j] by {
                if j < value_bytes(w).len() {
                    assert(input.subrange(p1, p1 + value_bytes(w).len() as int)[j] == input[p1
                        + j]);
                }
            }
        }
        assert(x =~= value_bytes(vv) + x.skip(value_bytes(vv).len() as int)) by {
            assert forall|j: int|
                0 <= j < x.len() implies x[j] == (value_bytes(vv) + x.skip(
                value_bytes(vv).len() as int,
            ))[j] by {
                if j < value_bytes(vv).len() {
                    assert(input.subrange(p1, p2)[j] == input[p1 + j]);
                }
            }
        }
        lemma_value_bytes_unambiguous(
            w,
            vv,
            x.skip(value_bytes(w).len() as int),
            x.skip(value_bytes(vv).len() as int),
        );
        assert(tail.skip(1) =~= es.skip(k + 1));
        assert(string_read_end(input, p + 1) + value_bytes(w).len() == p2);
    }
}

/// The bytes from `p0` to past a parsed entry are the bytes of the entry
/// list extended by it.
proof fn lemma_consumed_entry_bytes(
    input: Seq<u8>,
    p0: int,
    p: int,
    p1: int,
    p2: int,
    ve: Seq<(Seq<char>, ValueView)>,
    key_view: Seq<char>,
    vv: ValueView,
)
    requires
        0 <= p0 <= p < input.len(),
        p + 1 <= p1 <= p2 <= input.len(),
        input.subrange(p0, p) == entries_bytes(ve),
        input[p] == kind_of(vv).spec_tag_byte(),
        input.subrange(p + 1, p1) == string_bytes(key_view),
        input.subrange(p1, p2) == value_bytes(vv),
    ensures
        input.subrange(p0, p2) == entries_bytes(ve.push((key_view, vv))),
{
    lemma_entries_bytes_push(ve, (key_view, vv));
    assert(input.subrange(p0, p2) =~= input.subrange(p0, p) + seq![input[p]] + input.subrange(
        p + 1,
        p1,
    ) + input.subrange(p1, p2));
}

/// When the key-or-end step at `p` fails, no representable entry list
/// closed by the terminator begins at `p0` where the entries began.
proof fn lemma_no_entries_prefix_at_failure(input: Seq<u8>, p0: int, k: int, p: int)
    requires
        0 <= p0 <= p <= input.len(),
        0 <= k,
        entries_continuation(input, p0, k, p),
        ({
            ||| p == input.len()
            ||| (p < input.len() && input[p] != OBJECT_END && input[p] != TAG_OBJECT && input[p]
                != TAG_STRING && input[p] != TAG_INT)
            ||| (p < input.len() && (input[p] == TAG_OBJECT || input[p] == TAG_STRING || input[p]
                == TAG_INT) && !string_read_ok(input, p + 1))
        }),
    ensures
        no_entries_prefix(input.skip(p0)),
{
    assert forall|es: Seq<(Seq<char>, ValueView)>| wf_entries(es) implies !is_prefix(
        #[trigger] entries_bytes(es) + seq![OBJECT_END],
        input.skip(p0),
    ) by {
        if is_prefix(entries_bytes(es) + seq![OBJECT_END], input.skip(p0)) {
            assert(es.len() >= k && is_prefix(
                entries_bytes(es.skip(k)) + seq![OBJECT_END],
                input.skip(p),
            ));
            let tail = es.skip(k);
            lemma_wf_entries_skip(es, k);
            if tail.len() == 0 {
                assert(entries_bytes(tail) + seq![OBJECT_END] =~= seq![OBJECT_END]);
                lemma_prefix_skip(seq![OBJECT_END], input, p);
                assert(input.subrange(p, p + 1)[0] == input[p]);
                assert(input[p] == OBJECT_END);
            } else {
                lemma_entry_prefix_shape(tail, input, p);
            }
            assert(false);
        }
    }
}

/// Decodes a complete document from bytes.
///
/// Decoding succeeds exactly when the bytes begin with the encoding of a
/// representable document (the implicit root object); the result is that
/// document, and its encoding is exactly the prefix read.  Bytes after
/// the root object's terminator are never looked at.  On failure no
/// representable document's encoding begins the input.
pub fn from_bytes(bytes: &[u8]) -> (r: Result<Value, Error>)
    ensures
        match r {
            Ok(v) => wf_value(v@) && (v@ matches ValueView::Object(_)) && is_prefix(
                value_bytes(v@),
                bytes@,
            ),
            Err(e) => no_value_prefix(ValueType::Object, bytes@),
        },
{
    let mut de = Deserializer::new(bytes);
    let r = de.parse_any();
    proof {
        assert(bytes@.skip(0) =~= bytes@);
        if r is Ok {
            let v = r->Ok_0;
            assert(bytes@.subrange(0, value_bytes(v@).len() as int) == value_bytes(v@));
        }
    }
    r
}

impl<'a> Deserializer<'a> {
    /// Decodes a sequence from its wire form where the reader expects a
    /// value: an object whose entry values are the elements, taken in
    /// encounter order; the keys are read and discarded.  The bytes
    /// consumed are the encoding of that object.
    pub fn parse_list(&mut self) -> (r: Result<Vec<Value>, Error>)
        requires
            old(self).wf(),
        ensures
            final(self).wf(),
            final(self)@.input == old(self)@.input,
            match r {
                Ok(items) => exists|es: Seq<(Seq<char>, ValueView)>|
                    {
                        &&& #[trigger] wf_entries(es)
                        &&& old(self)@.op == NextOp::ParseValue(ValueType::Object)
                        &&& items@.len() == es.len()
                        &&& (forall|i: int| 0 <= i < es.len() ==> es[i].1 == (#[trigger] items@[i])@)
                        &&& final(self)@.pos == old(self)@.pos + value_bytes(
                            ValueView::Object(es),
                        ).len()
                        &&& old(self)@.input.subrange(
                            old(self)@.pos as int,
                            final(self)@.pos as int,
                        ) == value_bytes(ValueView::Object(es))
                        &&& final(self)@.depth == old(self)@.depth
                        &&& final(self)@.op == (if old(self)@.depth == 0 {
                            NextOp::DoNothing
                        } else {
                            NextOp::ParseKey
                        })
                    },
                Err(e) => (old(self)@.op matches NextOp::ParseValue(t) && t == ValueType::Object)
                    ==> no_value_prefix(ValueType::Object, old(self)@.input.skip(old(self)@.pos as int)),
            },
    {
        let entries = match self.parse_any() {
            Err(e) => {
                return Err(e);
            },
            Ok(Value::Object(entries)) => entries,
            Ok(Value::String(text)) => {
                return Err(Error::UnexpectedToken(Token::String(text)));
            },
            Ok(Value::UInt32(n)) => {
                return Err(Error::UnexpectedToken(Token::Int(n)));
            },
        };
        let ghost es = view_entries(entries@);
        let ghost all = entries@;
        proof {
            lemma_view_entries_index(entries@);
        }
        let mut entries = entries;
        let mut items: Vec<Value> = Vec::new();
        let n = entries.len();
        let mut i: usize = 0;
        while i < n
            invariant
                n == all.len(),
                i <= n,
                es == view_entries(all),
                es.len() == all.len(),
                forall|j: int| 0 <= j < all.len() ==> #[trigger] es[j] == (all[j].0@, view_value(all[j].1)),
                entries@ =~= all.skip(i as int),
                items@.len() == i,
                forall|j: int| 0 <= j < i ==> es[j].1 == (#[trigger] items@[j])@,
            decreases n - i,
        {
            let entry = entries.remove(0);
            proof {
                assert(entry == all[i as int]);
                assert(entries@ =~= all.skip(i as int + 1));
            }
            items.push(entry.1);
            i = i + 1;
        }
        proof {
            assert(wf_entries(es));
        }
        Ok(items)
    }
}

} // verus!
