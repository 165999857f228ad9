//! The value-level encoder: walks a generic value and drives the token
//! writer with the emit sequence the format requires.

use vstd::prelude::*;
use vstd::utf8::encode_utf8;

use crate::error::Error;
use crate::token_serializer::{key_prefix, Expected, TokenSerializer, TokenSerializerView};
use crate::value::{
    entries_bytes, kind_of, lemma_entries_bytes_push, lemma_view_entries_index,
    lemma_wf_entries_push, string_bytes, value_bytes, view_entries, view_value, wf_entries,
    wf_string, wf_value, Value, ValueView,
};
use crate::{ValueType, OBJECT_END, STRING_END};

verus! {

/// Encodes a value as a complete document.
///
/// Encoding succeeds exactly when the value is representable: no string or
/// key contains the terminator byte in its UTF-8 form.  On success the
/// bytes are the value's canonical encoding; on failure nothing is
/// returned.
pub fn to_bytes(value: &Value) -> (r: Result<Vec<u8>, Error>)
    ensures
        match r {
            Ok(bytes) => wf_value(value@) && bytes@ == value_bytes(value@),
            Err(e) => !wf_value(value@) && e == Error::ContentViolation,
        },
{
    let mut ts = TokenSerializer::new();
    match serialize_value(&mut ts, value) {
        Err(e) => Err(e),
        Ok(()) => Ok(ts.into_bytes()),
    }
}

/// Emits one value where the writer expects a value: the pending key goes
/// out under the value's tag, then the value itself, depth first.
///
/// Emission succeeds exactly when the value is representable; on failure
/// the error is the content violation that stopped it.
pub fn serialize_value(ts: &mut TokenSerializer, value: &Value) -> (r: Result<(), Error>)
    requires
        old(ts).wf(),
        old(ts)@.expected == Expected::Value,
    ensures
        final(ts).wf(),
        match r {
            Ok(()) => wf_value(value@) && final(ts)@ == (TokenSerializerView {
                out: old(ts)@.out + key_prefix(old(ts)@.current_key, kind_of(value@))
                    + value_bytes(value@),
                expected: if old(ts)@.depth > 0 {
                    Expected::KeyOrEndObject
                } else {
                    Expected::End
                },
                current_key: Option::None,
                depth: old(ts)@.depth,
            }),
            Err(e) => !wf_value(value@) && e == Error::ContentViolation,
        },
    decreases value,
{
    match value {
        Value::UInt32(n) => {
            match ts.emit_int(*n) {
                Err(e) => Err(e),
                Ok(()) => {
                    assert(final(ts)@ =~= (TokenSerializerView {
                        out: old(ts)@.out + key_prefix(old(ts)@.current_key, kind_of(value@))
                            + value_bytes(value@),
                        expected: if old(ts)@.depth > 0 {
                            Expected::KeyOrEndObject
                        } else {
                            Expected::End
                        },
                        current_key: Option::None,
                        depth: old(ts)@.depth,
                    }));
                    Ok(())
                },
            }
        },
        Value::String(s) => {
            match ts.emit_string(s.as_str()) {
                Err(e) => Err(e),
                Ok(()) => {
                    assert(old(ts)@.out + key_prefix(old(ts)@.current_key, ValueType::String)
                        + encode_utf8(s@) + seq![STRING_END] =~= old(ts)@.out + key_prefix(
                        old(ts)@.current_key,
                        kind_of(value@),
                    ) + value_bytes(value@));
                    Ok(())
                },
            }
        },
        Value::Object(entries) => serialize_object(ts, entries, Ghost(value@)),
    }
}

/// Emits an object: open, each entry in order, close.
fn serialize_object(
    ts: &mut TokenSerializer,
    entries: &Vec<(String, Value)>,
    whole: Ghost<ValueView>,
) -> (r: Result<(), Error>)
    requires
        old(ts).wf(),
        old(ts)@.expected == Expected::Value,
        whole@ == ValueView::Object(view_entries(entries@)),
    ensures
        final(ts).wf(),
        match r {
            Ok(()) => wf_value(whole@) && final(ts)@ == (TokenSerializerView {
                out: old(ts)@.out + key_prefix(old(ts)@.current_key, ValueType::Object)
                    + value_bytes(whole@),
                expected: if old(ts)@.depth > 0 {
                    Expected::KeyOrEndObject
                } else {
                    Expected::End
                },
                current_key: Option::None,
                depth: old(ts)@.depth,
            }),
            Err(e) => !wf_value(whole@) && e == Error::ContentViolation,
        },
    decreases entries@,
{
    proof {
        lemma_view_entries_index(entries@);
    }
    match ts.emit_object_start() {
        Err(e) => Err(e),
        Ok(()) => {
            let ghost base = old(ts)@.out + key_prefix(old(ts)@.current_key, ValueType::Object);
            let n = entries.len();
            let mut i: usize = 0;
            while i < n
                invariant
                    n == entries@.len(),
                    i <= n,
                    ts.wf(),
                    ts@.expected == Expected::KeyOrEndObject,
                    ts@.current_key is None,
                    ts@.depth == old(ts)@.depth + 1,
                    ts@.out == base + entries_bytes(view_entries(entries@.subrange(0, i as int))),
                    wf_entries(view_entries(entries@.subrange(0, i as int))),
                    whole@ == ValueView::Object(view_entries(entries@)),
                    forall|j: int|
                        0 <= j < entries@.len() ==> #[trigger] view_entries(entries@)[j] == (
                        entries@[j].0@,
                        view_value(entries@[j].1),
                        ),
                    view_entries(entries@).len() == entries@.len(),
                decreases n - i,
            {
                let ghost prefix = entries@.subrange(0, i as int);
                let ghost prefix1 = entries@.subrange(0, i as int + 1);
                let key = entries[i].0.clone();
                let ghost key_view = key@;
                match ts.emit_key(key) {
                    Err(e) => {
                        proof {
                            lemma_not_wf_from_entry(entries@, i as int, whole@);
                        }
                        return Err(e);
                    },
                    Ok(()) => {},
                }
                match serialize_value(ts, &entries[i].1) {
                    Err(e) => {
                        proof {
                            lemma_not_wf_from_entry(entries@, i as int, whole@);
                        }
                        return Err(e);
                    },
                    Ok(()) => {},
                }
                proof {
                    let e = (key_view, view_value(entries@[i as int].1));
                    assert(prefix1.drop_last() =~= prefix);
                    assert(prefix1.last() == entries@[i as int]);
                    assert(view_entries(prefix1) == view_entries(prefix).push(
                        (entries@[i as int].0@, view_value(entries@[i as int].1)),
                    ));
                    assert(key_view == entries@[i as int].0@);
                    lemma_entries_bytes_push(view_entries(prefix), e);
                    lemma_wf_entries_push(view_entries(prefix), e);
                    assert(key_prefix(Option::Some(key_view), kind_of(e.1)) =~= seq![
                        kind_of(e.1).spec_tag_byte(),
                    ] + string_bytes(key_view));
                    assert(ts@.out =~= base + entries_bytes(view_entries(prefix1)));
                }
                i = i + 1;
            }
            proof {
                assert(entries@.subrange(0, n as int) =~= entries@);
            }
            match ts.emit_object_end() {
                Err(e) => Err(e),
                Ok(()) => {
                    proof {
                        assert(value_bytes(whole@) == entries_bytes(view_entries(entries@))
                            + seq![OBJECT_END]);
                        assert(final(ts)@.out =~= old(ts)@.out + key_prefix(
                            old(ts)@.current_key,
                            ValueType::Object,
                        ) + value_bytes(whole@));
                    }
                    Ok(())
                },
            }
        },
    }
}

/// If one entry of an object is not representable, the object is not.
proof fn lemma_not_wf_from_entry(entries: Seq<(String, Value)>, i: int, whole: ValueView)
    requires
        0 <= i < entries.len(),
        whole == ValueView::Object(view_entries(entries)),
        !(wf_string(entries[i].0@) && wf_value(view_value(entries[i].1))),
    ensures
        !wf_value(whole),
{
    lemma_view_entries_index(entries);
    if wf_value(whole) {
        crate::value::lemma_wf_entries_at(view_entries(entries), i);
        assert(view_entries(entries)[i] == (entries[i].0@, view_value(entries[i].1)));
    }
}

} // verus!
