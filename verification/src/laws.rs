//! The codec's laws, stated and proved over its mathematical model: the
//! spec functions that the contracts of [`crate::ser::to_bytes`] and
//! [`crate::de::from_bytes`] speak of.

use vstd::prelude::*;

use crate::token_deserializer::TokenView;
use crate::value::{is_prefix, lemma_value_bytes_unambiguous, value_bytes, wf_value, ValueView};
use crate::de::no_value_prefix;
use crate::ValueType;

verus! {

/// Round trip: any document that a decode of an encoded representable
/// document may lawfully return is that document itself.
///
/// `bytes` is what encoding `v` returns; `w` is constrained exactly as
/// the decoder's success contract constrains its result on `bytes`.
/// Together with [`lemma_encoded_document_decodes`], which rules the
/// decoder's failure case out, decoding the encoding of a representable
/// document gives the document back.
pub proof fn lemma_decode_encode_round_trip(v: ValueView, w: ValueView, bytes: Seq<u8>)
    requires
        wf_value(v),
        v matches ValueView::Object(_),
        bytes == value_bytes(v),
        wf_value(w),
        w matches ValueView::Object(_),
        is_prefix(value_bytes(w), bytes),
    ensures
        w == v,
{
    let r2 = bytes.skip(value_bytes(w).len() as int);
    assert(value_bytes(w) + r2 =~= bytes) by {
        assert forall|j: int| 0 <= j < bytes.len() implies (value_bytes(w) + r2)[j] == bytes[j] by {
            if j < value_bytes(w).len() {
                assert(bytes.subrange(0, value_bytes(w).len() as int)[j] == bytes[j]);
            }
        }
    }
    assert(value_bytes(v) + Seq::<u8>::empty() =~= bytes);
    lemma_value_bytes_unambiguous(w, v, r2, Seq::empty());
}

/// Round trip, failure ruled out: the encoding of a representable
/// document never satisfies the decoder's failure contract, so decoding
/// it succeeds.
pub proof fn lemma_encoded_document_decodes(v: ValueView, bytes: Seq<u8>)
    requires
        wf_value(v),
        v matches ValueView::Object(_),
        bytes == value_bytes(v),
    ensures
        !no_value_prefix(ValueType::Object, bytes),
{
    assert(bytes.subrange(0, value_bytes(v).len() as int) =~= value_bytes(v));
    assert(is_prefix(value_bytes(v), bytes));
    assert(crate::value::kind_of(v) == ValueType::Object);
}

/// The token sequence of a document value: what the reader yields for its
/// bytes, and what drives the writer to produce them.
pub open spec fn tokens_of(v: ValueView) -> Seq<TokenView>
    decreases v,
{
    match v {
        ValueView::Object(entries) => seq![TokenView::ObjectStart] + tokens_of_entries(entries)
            + seq![TokenView::ObjectEnd],
        ValueView::String(s) => seq![TokenView::String(s)],
        ValueView::UInt32(n) => seq![TokenView::Int(n)],
    }
}

/// The token sequence of an entry list: each key, then its value's
/// tokens, in order.
pub open spec fn tokens_of_entries(entries: Seq<(Seq<char>, ValueView)>) -> Seq<TokenView>
    decreases entries,
{
    if entries.len() == 0 {
        Seq::empty()
    } else {
        seq![TokenView::Key(entries[0].0)] + tokens_of(entries[0].1) + tokens_of_entries(
            entries.drop_first(),
        )
    }
}

/// How many tokens of a sequence satisfy a test.
pub open spec fn count_matching(tokens: Seq<TokenView>, f: spec_fn(TokenView) -> bool) -> nat
    decreases tokens,
{
    if tokens.len() == 0 {
        0
    } else {
        (if f(tokens[0]) {
            1nat
        } else {
            0nat
        }) + count_matching(tokens.drop_first(), f)
    }
}

/// Counting distributes over concatenation.
pub proof fn lemma_count_matching_add(a: Seq<TokenView>, b: Seq<TokenView>, f: spec_fn(TokenView) -> bool)
    ensures
        count_matching(a + b, f) == count_matching(a, f) + count_matching(b, f),
    decreases a,
{
    if a.len() == 0 {
        assert(a + b =~= b);
    } else {
        assert((a + b).drop_first() =~= a.drop_first() + b);
        assert((a + b)[0] == a[0]);
        lemma_count_matching_add(a.drop_first(), b, f);
    }
}

/// How many tokens open an object.
pub open spec fn object_start_count(tokens: Seq<TokenView>) -> nat {
    count_matching(tokens, |t: TokenView| t is ObjectStart)
}

/// How many tokens close an object.
pub open spec fn object_end_count(tokens: Seq<TokenView>) -> nat {
    count_matching(tokens, |t: TokenView| t is ObjectEnd)
}

/// Depth balance: in the token sequence of any document value, objects
/// open exactly as often as they close.
pub proof fn lemma_depth_balance(v: ValueView)
    ensures
        object_start_count(tokens_of(v)) == object_end_count(tokens_of(v)),
    decreases v,
{
    let fs = |t: TokenView| t is ObjectStart;
    let fe = |t: TokenView| t is ObjectEnd;
    match v {
        ValueView::Object(entries) => {
            lemma_depth_balance_entries(entries);
            lemma_count_matching_add(
                seq![TokenView::ObjectStart] + tokens_of_entries(entries),
                seq![TokenView::ObjectEnd],
                fs,
            );
            lemma_count_matching_add(seq![TokenView::ObjectStart], tokens_of_entries(entries), fs);
            lemma_count_matching_add(
                seq![TokenView::ObjectStart] + tokens_of_entries(entries),
                seq![TokenView::ObjectEnd],
                fe,
            );
            lemma_count_matching_add(seq![TokenView::ObjectStart], tokens_of_entries(entries), fe);
            lemma_count_singleton(TokenView::ObjectStart, fs);
            lemma_count_singleton(TokenView::ObjectEnd, fs);
            lemma_count_singleton(TokenView::ObjectStart, fe);
            lemma_count_singleton(TokenView::ObjectEnd, fe);
        },
        ValueView::String(s) => {
            lemma_count_singleton(TokenView::String(s), fs);
            lemma_count_singleton(TokenView::String(s), fe);
        },
        ValueView::UInt32(n) => {
            lemma_count_singleton(TokenView::Int(n), fs);
            lemma_count_singleton(TokenView::Int(n), fe);
        },
    }
}

/// Depth balance over an entry list's tokens.
pub proof fn lemma_depth_balance_entries(entries: Seq<(Seq<char>, ValueView)>)
    ensures
        object_start_count(tokens_of_entries(entries)) == object_end_count(
            tokens_of_entries(entries),
        ),
    decreases entries,
{
    let fs = |t: TokenView| t is ObjectStart;
    let fe = |t: TokenView| t is ObjectEnd;
    if entries.len() > 0 {
        lemma_depth_balance(entries[0].1);
        lemma_depth_balance_entries(entries.drop_first());
        lemma_count_matching_add(
            seq![TokenView::Key(entries[0].0)] + tokens_of(entries[0].1),
            tokens_of_entries(entries.drop_first()),
            fs,
        );
        lemma_count_matching_add(seq![TokenView::Key(entries[0].0)], tokens_of(entries[0].1), fs);
        lemma_count_matching_add(
            seq![TokenView::Key(entries[0].0)] + tokens_of(entries[0].1),
            tokens_of_entries(entries.drop_first()),
            fe,
        );
        lemma_count_matching_add(seq![TokenView::Key(entries[0].0)], tokens_of(entries[0].1), fe);
        lemma_count_singleton(TokenView::Key(entries[0].0), fs);
        lemma_count_singleton(TokenView::Key(entries[0].0), fe);
    }
}

/// The count over a single token is whether it satisfies the test.
proof fn lemma_count_singleton(t: TokenView, f: spec_fn(TokenView) -> bool)
    ensures
        count_matching(seq![t], f) == (if f(t) {
            1nat
        } else {
            0nat
        }),
{
    assert(seq![t].drop_first() =~= Seq::<TokenView>::empty());
    assert(count_matching(seq![t].drop_first(), f) == 0);
}

} // verus!
