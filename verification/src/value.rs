//! The generic in-memory document tree and its mathematical model.
//!
//! A document is an ordered tree: objects hold key/value entries in wire
//! order, leaves are strings or unsigned 32-bit integers.  The spec-level
//! mirror [`ValueView`] replaces strings by character sequences and vectors
//! by sequences, so that contracts can speak of values up to content.  The
//! byte encoding of a value is given by [`value_bytes`]; well-formedness
//! ([`wf_value`]) asks exactly that no string or key contain the reserved
//! terminator byte in its UTF-8 form, which is what the wire format can
//! represent.

use vstd::prelude::*;
use vstd::utf8::encode_utf8;

use crate::{ValueType, OBJECT_END, STRING_END};

verus! {

/// A generic decoded document value.
///
/// An object's entries stand in wire order; the codec neither sorts nor
/// deduplicates keys, so a decoded document re-encodes to the same bytes.
#[derive(Debug, PartialEq, Eq)]
pub enum Value {
    /// An ordered list of key/value entries.
    Object(Vec<(String, Value)>),
    /// A text value.
    String(String),
    /// An unsigned 32-bit integer value.
    UInt32(u32),
}

/// The spec-level mirror of [`Value`]: strings as character sequences,
/// entry lists as sequences.
pub enum ValueView {
    Object(Seq<(Seq<char>, ValueView)>),
    String(Seq<char>),
    UInt32(u32),
}

/// The model of a value: its shape with all strings taken by content.
pub open spec fn view_value(v: Value) -> ValueView
    decreases v,
{
    match v {
        Value::Object(entries) => ValueView::Object(view_entries(entries@)),
        Value::String(s) => ValueView::String(s@),
        Value::UInt32(n) => ValueView::UInt32(n),
    }
}

/// The model of an entry list, entry by entry.
pub open spec fn view_entries(entries: Seq<(String, Value)>) -> Seq<(Seq<char>, ValueView)>
    decreases entries,
{
    if entries.len() == 0 {
        Seq::empty()
    } else {
        view_entries(entries.drop_last()).push(
            (entries.last().0@, view_value(entries.last().1)),
        )
    }
}

impl View for Value {
    type V = ValueView;

    open spec fn view(&self) -> ValueView {
        view_value(*self)
    }
}

/// The wire kind of a value.
pub open spec fn kind_of(v: ValueView) -> ValueType {
    match v {
        ValueView::Object(_) => ValueType::Object,
        ValueView::String(_) => ValueType::String,
        ValueView::UInt32(_) => ValueType::Int,
    }
}

/// The bytes of a string on the wire: its UTF-8 form followed by the
/// terminator byte.
pub open spec fn string_bytes(s: Seq<char>) -> Seq<u8> {
    encode_utf8(s) + seq![STRING_END]
}

/// The bytes of a value in value position.  An object's tag byte is not
/// part of this: on the wire it stands with the preceding key (and the
/// root object has none at all).
pub open spec fn value_bytes(v: ValueView) -> Seq<u8>
    decreases v,
{
    match v {
        ValueView::Object(entries) => entries_bytes(entries) + seq![OBJECT_END],
        ValueView::String(s) => string_bytes(s),
        ValueView::UInt32(n) => vstd::bytes::spec_u32_to_le_bytes(n),
    }
}

/// The bytes of an entry list: for each entry in order, the tag byte of
/// the entry's value, the key string, then the value itself.
pub open spec fn entries_bytes(entries: Seq<(Seq<char>, ValueView)>) -> Seq<u8>
    decreases entries,
{
    if entries.len() == 0 {
        Seq::empty()
    } else {
        seq![kind_of(entries[0].1).spec_tag_byte()] + string_bytes(entries[0].0)
            + value_bytes(entries[0].1) + entries_bytes(entries.drop_first())
    }
}

/// A string the wire can carry: its UTF-8 form holds no terminator byte.
pub open spec fn wf_string(s: Seq<char>) -> bool {
    !encode_utf8(s).contains(STRING_END)
}

/// A value the wire can carry: every string and key in it is
/// representable.
pub open spec fn wf_value(v: ValueView) -> bool
    decreases v,
{
    match v {
        ValueView::Object(entries) => wf_entries(entries),
        ValueView::String(s) => wf_string(s),
        ValueView::UInt32(_) => true,
    }
}

/// Every key and value of the entry list is representable.
pub open spec fn wf_entries(entries: Seq<(Seq<char>, ValueView)>) -> bool
    decreases entries,
{
    entries.len() == 0 || (wf_string(entries[0].0) && wf_value(entries[0].1) && wf_entries(
        entries.drop_first(),
    ))
}

/// The model of an entry list has one element per entry, in order, each
/// the model of its entry.
pub proof fn lemma_view_entries_index(entries: Seq<(String, Value)>)
    ensures
        view_entries(entries).len() == entries.len(),
        forall|i: int|
            0 <= i < entries.len() ==> #[trigger] view_entries(entries)[i] == (
            entries[i].0@,
            view_value(entries[i].1),
            ),
    decreases entries.len(),
{
    if entries.len() > 0 {
        lemma_view_entries_index(entries.drop_last());
    }
}

/// In a representable entry list the entry at any one position is
/// representable.
pub proof fn lemma_wf_entries_at(entries: Seq<(Seq<char>, ValueView)>, i: int)
    requires
        wf_entries(entries),
        0 <= i < entries.len(),
    ensures
        wf_string(entries[i].0) && wf_value(entries[i].1),
    decreases i,
{
    if i > 0 {
        lemma_wf_entries_at(entries.drop_first(), i - 1);
        assert(entries.drop_first()[i - 1] == entries[i]);
    }
}

/// In a representable entry list every key and value is representable.
pub proof fn lemma_wf_entries_index(entries: Seq<(Seq<char>, ValueView)>)
    requires
        wf_entries(entries),
    ensures
        forall|i: int|
            0 <= i < entries.len() ==> wf_string((#[trigger] entries[i]).0) && wf_value(
                entries[i].1,
            ),
{
    assert forall|i: int|
        0 <= i < entries.len() implies wf_string((#[trigger] entries[i]).0) && wf_value(
        entries[i].1,
    ) by {
        lemma_wf_entries_at(entries, i);
    }
}

/// An entry list whose keys and values are all representable is
/// representable.
pub proof fn lemma_wf_entries_from_index(entries: Seq<(Seq<char>, ValueView)>)
    requires
        forall|i: int|
            0 <= i < entries.len() ==> wf_string((#[trigger] entries[i]).0) && wf_value(
                entries[i].1,
            ),
    ensures
        wf_entries(entries),
    decreases entries.len(),
{
    if entries.len() > 0 {
        let rest = entries.drop_first();
        assert forall|i: int|
            0 <= i < rest.len() implies wf_string((#[trigger] rest[i]).0) && wf_value(
            rest[i].1,
        ) by {
            assert(rest[i] == entries[i + 1]);
            assert(wf_string(entries[i + 1].0) && wf_value(entries[i + 1].1));
        }
        lemma_wf_entries_from_index(rest);
        assert(wf_string(entries[0].0) && wf_value(entries[0].1));
    }
}

/// Appending an entry appends its bytes.
pub proof fn lemma_entries_bytes_push(entries: Seq<(Seq<char>, ValueView)>, e: (Seq<char>, ValueView))
    ensures
        entries_bytes(entries.push(e)) == entries_bytes(entries) + seq![
            kind_of(e.1).spec_tag_byte(),
        ] + string_bytes(e.0) + value_bytes(e.1),
    decreases entries.len(),
{
    let whole = entries.push(e);
    let piece = seq![kind_of(e.1).spec_tag_byte()] + string_bytes(e.0) + value_bytes(e.1);
    if entries.len() == 0 {
        assert(whole[0] == e);
        assert(whole.drop_first() =~= Seq::<(Seq<char>, ValueView)>::empty());
        assert(entries_bytes(whole) == seq![kind_of(whole[0].1).spec_tag_byte()] + string_bytes(
            whole[0].0,
        ) + value_bytes(whole[0].1) + entries_bytes(whole.drop_first()));
        assert(entries_bytes(whole) =~= entries_bytes(entries) + piece);
    } else {
        assert(whole[0] == entries[0]);
        assert(whole.drop_first() =~= entries.drop_first().push(e));
        lemma_entries_bytes_push(entries.drop_first(), e);
        assert(entries_bytes(whole) == seq![kind_of(entries[0].1).spec_tag_byte()] + string_bytes(
            entries[0].0,
        ) + value_bytes(entries[0].1) + (entries_bytes(entries.drop_first()) + piece));
        assert(entries_bytes(entries) == seq![kind_of(entries[0].1).spec_tag_byte()]
            + string_bytes(entries[0].0) + value_bytes(entries[0].1) + entries_bytes(
            entries.drop_first(),
        ));
        assert(entries_bytes(whole) =~= entries_bytes(entries) + piece);
    }
}

/// Appending a representable entry keeps an entry list representable.
pub proof fn lemma_wf_entries_push(entries: Seq<(Seq<char>, ValueView)>, e: (Seq<char>, ValueView))
    ensures
        wf_entries(entries.push(e)) <==> wf_entries(entries) && wf_string(e.0) && wf_value(e.1),
{
    let whole = entries.push(e);
    if wf_entries(entries) && wf_string(e.0) && wf_value(e.1) {
        lemma_wf_entries_index(entries);
        assert forall|i: int|
            0 <= i < whole.len() implies wf_string((#[trigger] whole[i]).0) && wf_value(
            whole[i].1,
        ) by {
            if i < entries.len() {
                assert(whole[i] == entries[i]);
                assert(wf_string(entries[i].0) && wf_value(entries[i].1));
            } else {
                assert(whole[i] == e);
            }
        }
        lemma_wf_entries_from_index(whole);
    }
    if wf_entries(whole) {
        lemma_wf_entries_index(whole);
        assert forall|i: int|
            0 <= i < entries.len() implies wf_string((#[trigger] entries[i]).0) && wf_value(
            entries[i].1,
        ) by {
            assert(whole[i] == entries[i]);
            assert(wf_string(whole[i].0) && wf_value(whole[i].1));
        }
        lemma_wf_entries_from_index(entries);
        assert(whole[entries.len() as int] == e);
        assert(wf_string(whole[entries.len() as int].0) && wf_value(
            whole[entries.len() as int].1,
        ));
    }
}

} // verus!

use vstd::utf8::{decode_utf8, is_ascii_chars, is_ascii_chars_encode_utf8, valid_utf8};

verus! {

/// One sequence is the other's beginning.
pub open spec fn is_prefix(p: Seq<u8>, s: Seq<u8>) -> bool {
    p.len() <= s.len() && p == s.subrange(0, p.len() as int)
}

/// Splitting equal concatenations at equal lengths gives equal parts.
pub proof fn lemma_concat_split(a: Seq<u8>, b: Seq<u8>, c: Seq<u8>, d: Seq<u8>)
    requires
        a.len() == c.len(),
        a + b == c + d,
    ensures
        a == c,
        b == d,
{
    assert forall|i: int| 0 <= i < a.len() implies a[i] == c[i] by {
        assert((a + b)[i] == a[i]);
        assert((c + d)[i] == c[i]);
    }
    assert(a =~= c);
    assert((a + b).len() == a.len() + b.len());
    assert((c + d).len() == c.len() + d.len());
    assert((a + b).len() == (c + d).len());
    assert(b.len() == d.len());
    assert forall|i: int| 0 <= i < b.len() implies b[i] == d[i] by {
        assert((a + b)[a.len() + i] == b[i]);
        assert((c + d)[c.len() + i] == d[i]);
    }
    assert(b =~= d);
}

/// Two terminator-free runs followed by the terminator and equal in one
/// stream are the same run with the same remainder.
pub proof fn lemma_nul_framing(a1: Seq<u8>, a2: Seq<u8>, r1: Seq<u8>, r2: Seq<u8>)
    requires
        !a1.contains(STRING_END),
        !a2.contains(STRING_END),
        a1 + seq![STRING_END] + r1 == a2 + seq![STRING_END] + r2,
    ensures
        a1 == a2,
        r1 == r2,
{
    let s1 = a1 + seq![STRING_END] + r1;
    let s2 = a2 + seq![STRING_END] + r2;
    if a1.len() < a2.len() {
        assert(s1[a1.len() as int] == STRING_END);
        assert(s2[a1.len() as int] == a2[a1.len() as int]);
        assert(a2.contains(STRING_END));
        assert(false);
    }
    if a2.len() < a1.len() {
        assert(s2[a2.len() as int] == STRING_END);
        assert(s1[a2.len() as int] == a1[a2.len() as int]);
        assert(a1.contains(STRING_END));
        assert(false);
    }
    assert(a1 + (seq![STRING_END] + r1) =~= a1 + seq![STRING_END] + r1);
    assert(a2 + (seq![STRING_END] + r2) =~= a2 + seq![STRING_END] + r2);
    lemma_concat_split(a1, seq![STRING_END] + r1, a2, seq![STRING_END] + r2);
    lemma_concat_split(seq![STRING_END], r1, seq![STRING_END], r2);
}

/// The encoding of a representable value is prefix-unambiguous: two
/// representable values of the same kind whose encodings begin one common
/// byte stream are the same value, read to the same point.
pub proof fn lemma_value_bytes_unambiguous(v1: ValueView, v2: ValueView, r1: Seq<u8>, r2: Seq<u8>)
    requires
        wf_value(v1),
        wf_value(v2),
        kind_of(v1) == kind_of(v2),
        value_bytes(v1) + r1 == value_bytes(v2) + r2,
    ensures
        v1 == v2,
        r1 == r2,
    decreases v1,
{
    broadcast use vstd::utf8::group_utf8_lib;

    match v1 {
        ValueView::UInt32(n1) => {
            let n2 = v2->UInt32_0;
            vstd::bytes::lemma_auto_spec_u32_to_from_le_bytes();
            lemma_concat_split(
                vstd::bytes::spec_u32_to_le_bytes(n1),
                r1,
                vstd::bytes::spec_u32_to_le_bytes(n2),
                r2,
            );
            assert(vstd::bytes::spec_u32_from_le_bytes(vstd::bytes::spec_u32_to_le_bytes(n1))
                == vstd::bytes::spec_u32_from_le_bytes(vstd::bytes::spec_u32_to_le_bytes(n2)));
        },
        ValueView::String(s1) => {
            let s2 = v2->String_0;
            assert(string_bytes(s1) + r1 =~= encode_utf8(s1) + seq![STRING_END] + r1);
            assert(string_bytes(s2) + r2 =~= encode_utf8(s2) + seq![STRING_END] + r2);
            lemma_nul_framing(encode_utf8(s1), encode_utf8(s2), r1, r2);
            assert(decode_utf8(encode_utf8(s1)) == decode_utf8(encode_utf8(s2)));
        },
        ValueView::Object(e1) => {
            let e2 = v2->Object_0;
            assert(value_bytes(v1) + r1 =~= entries_bytes(e1) + (seq![OBJECT_END] + r1));
            assert(value_bytes(v2) + r2 =~= entries_bytes(e2) + (seq![OBJECT_END] + r2));
            lemma_entries_bytes_unambiguous(e1, e2, r1, r2);
        },
    }
}

/// The encoding of a representable entry list, closed by the terminator,
/// is prefix-unambiguous.
#[verifier::rlimit(60)]
pub proof fn lemma_entries_bytes_unambiguous(
    e1: Seq<(Seq<char>, ValueView)>,
    e2: Seq<(Seq<char>, ValueView)>,
    r1: Seq<u8>,
    r2: Seq<u8>,
)
    requires
        wf_entries(e1),
        wf_entries(e2),
        entries_bytes(e1) + (seq![OBJECT_END] + r1) == entries_bytes(e2) + (seq![OBJECT_END] + r2),
    ensures
        e1 == e2,
        r1 == r2,
    decreases e1,
{
    broadcast use vstd::utf8::group_utf8_lib;

    let s = entries_bytes(e1) + (seq![OBJECT_END] + r1);
    if e1.len() == 0 && e2.len() == 0 {
        lemma_concat_split(entries_bytes(e1), seq![OBJECT_END] + r1, entries_bytes(e2), seq![
            OBJECT_END,
        ] + r2);
        lemma_concat_split(seq![OBJECT_END], r1, seq![OBJECT_END], r2);
        assert(e1 =~= e2);
    } else if e1.len() == 0 {
        assert(s[0] == OBJECT_END);
        assert(s[0] == kind_of(e2[0].1).spec_tag_byte());
        assert(false);
    } else if e2.len() == 0 {
        assert(s[0] == kind_of(e1[0].1).spec_tag_byte());
        assert(s[0] == OBJECT_END);
        assert(false);
    } else {
        let (k1, w1) = (e1[0].0, e1[0].1);
        let (k2, w2) = (e2[0].0, e2[0].1);
        let t1 = kind_of(w1).spec_tag_byte();
        let t2 = kind_of(w2).spec_tag_byte();
        let x1 = value_bytes(w1) + (entries_bytes(e1.drop_first()) + (seq![OBJECT_END] + r1));
        let x2 = value_bytes(w2) + (entries_bytes(e2.drop_first()) + (seq![OBJECT_END] + r2));
        assert(s =~= seq![t1] + (encode_utf8(k1) + seq![STRING_END] + x1));
        assert(s =~= seq![t2] + (encode_utf8(k2) + seq![STRING_END] + x2));
        lemma_concat_split(
            seq![t1],
            encode_utf8(k1) + seq![STRING_END] + x1,
            seq![t2],
            encode_utf8(k2) + seq![STRING_END] + x2,
        );
        assert(seq![t1][0] == t1);
        assert(seq![t2][0] == t2);
        assert(t1 == t2);
        assert(kind_of(w1) == kind_of(w2));
        lemma_nul_framing(encode_utf8(k1), encode_utf8(k2), x1, x2);
        assert(decode_utf8(encode_utf8(k1)) == decode_utf8(encode_utf8(k2)));
        assert(k1 == k2);
        lemma_value_bytes_unambiguous(
            w1,
            w2,
            entries_bytes(e1.drop_first()) + (seq![OBJECT_END] + r1),
            entries_bytes(e2.drop_first()) + (seq![OBJECT_END] + r2),
        );
        lemma_entries_bytes_unambiguous(e1.drop_first(), e2.drop_first(), r1, r2);
        assert(e1 =~= e2) by {
            assert(e1[0] == e2[0]);
            assert(e1.drop_first() =~= e2.drop_first());
            assert forall|i: int| 1 <= i < e1.len() implies e1[i] == e2[i] by {
                assert(e1[i] == e1.drop_first()[i - 1]);
                assert(e2[i] == e2.drop_first()[i - 1]);
            }
        }
    }
}

/// The character of one decimal digit.
pub open spec fn digit_char(d: int) -> char {
    if d == 0 {
        '0'
    } else if d == 1 {
        '1'
    } else if d == 2 {
        '2'
    } else if d == 3 {
        '3'
    } else if d == 4 {
        '4'
    } else if d == 5 {
        '5'
    } else if d == 6 {
        '6'
    } else if d == 7 {
        '7'
    } else if d == 8 {
        '8'
    } else {
        '9'
    }
}

/// The decimal form of a number, as characters, most significant digit
/// first and without leading zeroes (zero itself being "0").
pub open spec fn decimal_chars(n: int) -> Seq<char>
    decreases n,
{
    if n < 10 {
        seq![digit_char(n)]
    } else {
        decimal_chars(n / 10).push(digit_char(n % 10))
    }
}

/// The decimal form of a number, as ASCII bytes.
pub open spec fn decimal_bytes(n: int) -> Seq<u8>
    decreases n,
{
    if n < 10 {
        seq![(48 + n) as u8]
    } else {
        decimal_bytes(n / 10).push((48 + n % 10) as u8)
    }
}

/// A decimal form is ASCII, encodes to its bytes, and holds no
/// terminator byte: decimal keys are always representable.
pub proof fn lemma_decimal_chars_bytes(n: int)
    requires
        0 <= n,
    ensures
        is_ascii_chars(decimal_chars(n)),
        encode_utf8(decimal_chars(n)) == decimal_bytes(n),
        wf_string(decimal_chars(n)),
        decimal_chars(n).len() == decimal_bytes(n).len(),
    decreases n,
{
    broadcast use vstd::utf8::group_utf8_lib;

    lemma_decimal_parallel(n);
    assert(encode_utf8(decimal_chars(n)) =~= decimal_bytes(n)) by {
        assert(is_ascii_chars(decimal_chars(n)));
        is_ascii_chars_encode_utf8(decimal_chars(n));
    }
    assert(!decimal_bytes(n).contains(STRING_END)) by {
        if decimal_bytes(n).contains(STRING_END) {
            let i = choose|i: int|
                0 <= i < decimal_bytes(n).len() && decimal_bytes(n)[i] == STRING_END;
            lemma_decimal_parallel(n);
        }
    }
}

/// Digit by digit, the decimal characters and bytes line up, every digit
/// an ASCII digit.
proof fn lemma_decimal_parallel(n: int)
    requires
        0 <= n,
    ensures
        decimal_chars(n).len() == decimal_bytes(n).len(),
        forall|i: int|
            0 <= i < decimal_chars(n).len() ==> '0' <= #[trigger] decimal_chars(n)[i] <= '9'
                && decimal_chars(n)[i] as u8 == decimal_bytes(n)[i] && 48 <= decimal_bytes(n)[i]
                <= 57,
        is_ascii_chars(decimal_chars(n)),
    decreases n,
{
    if n < 10 {
        assert(decimal_chars(n) =~= seq![digit_char(n)]);
        assert('0' <= digit_char(n) <= '9');
        assert(digit_char(n) as u8 == (48 + n) as u8);
    } else {
        lemma_decimal_parallel(n / 10);
        let cs = decimal_chars(n);
        let bs = decimal_bytes(n);
        let d = n % 10;
        assert(0 <= d < 10);
        assert forall|i: int|
            0 <= i < cs.len() implies '0' <= #[trigger] cs[i] <= '9' && cs[i] as u8 == bs[i] && 48
            <= bs[i] <= 57 by {
            if i < cs.len() - 1 {
                assert(cs[i] == decimal_chars(n / 10)[i]);
                assert(bs[i] == decimal_bytes(n / 10)[i]);
            } else {
                assert(cs[i] == digit_char(d));
                assert(bs[i] == (48 + d) as u8);
                assert(digit_char(d) as u8 == (48 + d) as u8);
            }
        }
    }
}

/// Writes a number in decimal, most significant digit first.
pub fn decimal_string(n: usize) -> (s: String)
    ensures
        s@ == decimal_chars(n as int),
        wf_string(s@),
{
    broadcast use vstd::utf8::group_utf8_lib;

    let ghost target = decimal_bytes(n as int);
    let mut digits: Vec<u8> = Vec::new();
    let d0: u8 = 48 + (n % 10) as u8;
    digits.push(d0);
    let mut m: usize = n / 10;
    proof {
        assert(digits@.reverse() =~= seq![d0]);
        if n >= 10 {
            assert(decimal_bytes(n as int) == decimal_bytes(n as int / 10).push(d0));
            assert(decimal_bytes(n as int / 10).push(d0) =~= decimal_bytes(m as int)
                + digits@.reverse());
        } else {
            assert(decimal_bytes(n as int) =~= digits@.reverse());
        }
    }
    while m > 0
        invariant
            target == decimal_bytes(n as int),
            digits@.len() > 0,
            if m == 0 {
                target =~= digits@.reverse()
            } else {
                target =~= decimal_bytes(m as int) + digits@.reverse()
            },
        decreases m,
    {
        let d: u8 = 48 + (m % 10) as u8;
        let ghost before = digits@;
        digits.push(d);
        proof {
            assert(digits@.reverse() =~= seq![d] + before.reverse());
            if m >= 10 {
                assert(decimal_bytes(m as int) == decimal_bytes(m as int / 10).push(d));
                assert(decimal_bytes(m as int / 10).push(d) + before.reverse()
                    =~= decimal_bytes(m as int / 10) + (seq![d] + before.reverse()));
            } else {
                assert(decimal_bytes(m as int) =~= seq![d]);
                assert(decimal_bytes(m as int) + before.reverse() =~= seq![d] + before.reverse());
            }
        }
        m = m / 10;
    }
    let ghost rev = digits@;
    let count = digits.len();
    let mut out: Vec<u8> = Vec::new();
    let mut i: usize = 0;
    while i < count
        invariant
            count == rev.len(),
            digits@ == rev,
            i <= count,
            out@ =~= rev.reverse().subrange(0, i as int),
        decreases count - i,
    {
        out.push(digits[count - 1 - i]);
        proof {
            assert(rev.reverse()[i as int] == rev[count - 1 - i]);
            assert(out@ =~= rev.reverse().subrange(0, i as int + 1));
        }
        i = i + 1;
    }
    proof {
        assert(out@ =~= rev.reverse());
        lemma_decimal_chars_bytes(n as int);
        assert(out@ == encode_utf8(decimal_chars(n as int)));
    }
    match crate::token_deserializer::string_from_utf8(out.as_slice()) {
        Some(s) => {
            proof {
                broadcast use vstd::utf8::group_utf8_lib;

                assert(encode_utf8(s@) == encode_utf8(decimal_chars(n as int)));
                assert(decode_utf8(encode_utf8(s@)) == s@);
            }
            s
        },
        None => {
            proof {
                assert(valid_utf8(encode_utf8(decimal_chars(n as int))));
                assert(false);
            }
            String::new()
        },
    }
}

impl Value {
    /// Builds the wire form of an ordered list: an object whose keys are
    /// the decimal forms of 0, 1, 2, ... in order, one per element.
    pub fn from_list(items: Vec<Value>) -> (r: Value)
        ensures
            r@ == ValueView::Object(
                Seq::new(items@.len(), |i: int| (decimal_chars(i), items@[i]@)),
            ),
    {
        let ghost target = Seq::new(items@.len(), |i: int| (decimal_chars(i), items@[i]@));
        let mut items = items;
        let ghost all = items@;
        let mut entries: Vec<(String, Value)> = Vec::new();
        let mut i: usize = 0;
        let n = items.len();
        proof {
            lemma_view_entries_index(entries@);
        }
        while i < n
            invariant
                target == Seq::new(all.len(), |i: int| (decimal_chars(i), view_value(all[i]))),
                n == all.len(),
                i <= n,
                items@ =~= all.skip(i as int),
                entries@.len() == i,
                view_entries(entries@) =~= target.subrange(0, i as int),
            decreases n - i,
        {
            let key = decimal_string(i);
            let value = items.remove(0);
            proof {
                assert(value == all[i as int]);
                assert(items@ =~= all.skip(i as int + 1));
            }
            let ghost before = entries@;
            entries.push((key, value));
            proof {
                assert(entries@.drop_last() =~= before);
                assert(view_entries(entries@) == view_entries(before).push(
                    (key@, view_value(value)),
                ));
                assert(view_entries(entries@) =~= target.subrange(0, i as int + 1));
            }
            i = i + 1;
        }
        proof {
            assert(view_entries(entries@) =~= target);
        }
        Value::Object(entries)
    }
}

} // verus!
