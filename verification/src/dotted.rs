//! Dotted names as text: what the canonical form of a name is in terms of
//! its characters, not of its bytes.
//!
//! The codec splits a name at the byte `.` and reads every label back from
//! its bytes. In UTF-8 that byte is the character `.` and nothing else, so
//! the labels are the runs of characters between the dots, and each comes
//! back from the wire in lower case.

use vstd::prelude::*;
use vstd::utf8::{encode_scalar, encode_utf8};
use vstd::utf8::{encode_utf8_decode_utf8, encode_utf8_valid_utf8};
use vstd::utf8::{has_width_1_encoding, last_continuation_byte, leading_byte_width_1};
use vstd::utf8::{leading_byte_width_2, leading_byte_width_3, leading_byte_width_4};
use vstd::utf8::{second_last_continuation_byte, third_last_continuation_byte};
use crate::name::{canonical_name, join_dotted, label_text, split_labels, DOT};
use crate::text::lowercase;

verus! {

/// The labels of a dotted name: the runs of characters between its dots.
/// A name without a dot is one label, and so is the empty name.
pub open spec fn split_text(name: Seq<char>) -> Seq<Seq<char>>
    decreases name.len(),
{
    if name.len() == 0 {
        seq![Seq::<char>::empty()]
    } else {
        let before = split_text(name.drop_last());
        if name.last() == '.' {
            before.push(Seq::<char>::empty())
        } else {
            before.drop_last().push(before.last().push(name.last()))
        }
    }
}

/// Every label of a name is in lower case already.
pub open spec fn is_lowercase(name: Seq<char>) -> bool {
    forall|i: int|
        0 <= i < split_text(name).len() ==> lowercase(#[trigger] split_text(name)[i]) == split_text(
            name,
        )[i]
}

proof fn lemma_scalar_bytes(s: u32)
    by (bit_vector)
    ensures
        has_width_1_encoding(s) ==> (leading_byte_width_1(s) == 0x2E <==> s == 0x2E),
        leading_byte_width_2(s) >= 0x80,
        leading_byte_width_3(s) >= 0x80,
        leading_byte_width_4(s) >= 0x80,
        last_continuation_byte(s) >= 0x80,
        second_last_continuation_byte(s) >= 0x80,
        third_last_continuation_byte(s) >= 0x80,
{
}

/// In UTF-8 the byte `.` stands for the character `.` and for nothing else.
proof fn lemma_dot_is_dot(c: char)
    ensures
        c == '.' ==> encode_scalar(c as u32) == seq![DOT],
        c != '.' ==> forall|i: int|
            0 <= i < encode_scalar(c as u32).len() ==> #[trigger] encode_scalar(c as u32)[i] != DOT,
        encode_scalar(c as u32).len() >= 1,
{
    let s = c as u32;
    lemma_scalar_bytes(s);
    vstd::utf8::char_u32_cast(c, s);
    vstd::utf8::char_u32_cast('.', 0x2Eu32);
    if c == '.' {
        assert(encode_scalar(s) =~= seq![DOT]);
    }
}

/// The encoding of a text that ends in `c` is the encoding of the text before, and then of `c`.
proof fn lemma_encode_push(text: Seq<char>, c: char)
    ensures
        encode_utf8(text.push(c)) == encode_utf8(text) + encode_scalar(c as u32),
    decreases text.len(),
{
    if text.len() == 0 {
        let one = text.push(c);
        assert(one.drop_first() =~= Seq::<char>::empty());
        assert(one[0] == c);
        assert(encode_utf8(one.drop_first()) =~= Seq::<u8>::empty());
        assert(encode_utf8(text) =~= Seq::<u8>::empty());
        assert(encode_utf8(one) =~= encode_scalar(c as u32));
        assert(encode_utf8(text) + encode_scalar(c as u32) =~= encode_scalar(c as u32));
    } else {
        lemma_encode_push(text.drop_first(), c);
        assert(text.push(c).drop_first() =~= text.drop_first().push(c));
        assert(text.push(c)[0] == text[0]);
        assert(encode_utf8(text.push(c)) =~= encode_utf8(text) + encode_scalar(c as u32));
    }
}

/// A dotted name has at least one label.
proof fn lemma_split_text_nonempty(name: Seq<char>)
    ensures
        split_text(name).len() >= 1,
    decreases name.len(),
{
    if name.len() > 0 {
        lemma_split_text_nonempty(name.drop_last());
    }
}

/// Bytes without a dot, put behind a name, lengthen its last label.
proof fn lemma_split_append(name: Seq<u8>, more: Seq<u8>)
    requires
        forall|i: int| 0 <= i < more.len() ==> more[i] != DOT,
    ensures
        split_labels(name).len() >= 1,
        split_labels(name + more) == split_labels(name).drop_last().push(
            split_labels(name).last() + more,
        ),
    decreases more.len(),
{
    crate::name::lemma_split_nonempty(name);
    let labels = split_labels(name);
    if more.len() == 0 {
        assert(name + more =~= name);
        assert(labels.last() + more =~= labels.last());
        assert(labels.drop_last().push(labels.last()) =~= labels);
    } else {
        let init = more.drop_last();
        lemma_split_append(name, init);
        let whole = name + more;
        assert(whole.drop_last() =~= name + init);
        assert(whole.last() == more.last());
        let before = split_labels(name + init);
        assert(before.last() == labels.last() + init);
        assert(before.drop_last() =~= labels.drop_last());
        assert((labels.last() + init).push(more.last()) =~= labels.last() + more);
    }
}

/// The labels of the bytes of a name are the bytes of the labels of the name.
pub proof fn lemma_split_encoded(name: Seq<char>)
    ensures
        split_labels(encode_utf8(name)) == split_text(name).map_values(
            |label: Seq<char>| encode_utf8(label),
        ),
    decreases name.len(),
{
    let encode = |label: Seq<char>| encode_utf8(label);
    if name.len() == 0 {
        assert(encode_utf8(name) =~= Seq::<u8>::empty());
        assert(encode_utf8(Seq::<char>::empty()) =~= Seq::<u8>::empty());
        assert(split_text(name).map_values(encode) =~= seq![Seq::<u8>::empty()]);
    } else {
        let init = name.drop_last();
        let c = name.last();
        assert(init.push(c) =~= name);
        lemma_split_encoded(init);
        lemma_encode_push(init, c);
        lemma_dot_is_dot(c);
        lemma_split_text_nonempty(init);
        let before = split_text(init);
        let bytes = encode_utf8(init);
        if c == '.' {
            assert(bytes + seq![DOT] =~= bytes.push(DOT));
            assert(bytes.push(DOT).drop_last() =~= bytes);
            assert(before.push(Seq::<char>::empty()).map_values(encode) =~= before.map_values(
                encode,
            ).push(Seq::<u8>::empty()));
        } else {
            lemma_split_append(bytes, encode_scalar(c as u32));
            lemma_encode_push(before.last(), c);
            assert(before.drop_last().push(before.last().push(c)).map_values(encode)
                =~= before.map_values(encode).drop_last().push(
                encode_utf8(before.last()) + encode_scalar(c as u32),
            ));
        }
    }
}

/// The labels of a name, joined by dots, are the name.
pub proof fn lemma_join_split(name: Seq<char>)
    ensures
        join_dotted(split_text(name)) == name,
        split_text(name).len() >= 1,
    decreases name.len(),
{
    if name.len() == 0 {
    } else {
        let init = name.drop_last();
        let c = name.last();
        lemma_join_split(init);
        let before = split_text(init);
        if c == '.' {
            let now = before.push(Seq::<char>::empty());
            assert(now.drop_last() =~= before);
            assert(join_dotted(now) =~= init.push(c));
        } else {
            let now = before.drop_last().push(before.last().push(c));
            assert(now.drop_last() =~= before.drop_last());
            if before.len() == 1 {
                assert(join_dotted(now) =~= init.push(c));
            } else {
                assert(join_dotted(now) =~= join_dotted(before).push(c));
            }
        }
        assert(init.push(c) =~= name);
    }
}

/// The canonical form of a name is the name with each of its labels in
/// lower case: no byte of it is lost or replaced on the way over the wire.
pub proof fn lemma_canonical_name(name: Seq<char>)
    ensures
        canonical_name(name) == join_dotted(
            split_text(name).map_values(|label: Seq<char>| lowercase(label)),
        ),
{
    lemma_split_encoded(name);
    let labels = split_text(name);
    let encoded = labels.map_values(|label: Seq<char>| encode_utf8(label));
    let texts = encoded.map_values(|label: Seq<u8>| label_text(label));
    let lowered = labels.map_values(|label: Seq<char>| lowercase(label));
    assert forall|i: int| 0 <= i < labels.len() implies texts[i] == lowered[i] by {
        encode_utf8_valid_utf8(labels[i]);
        encode_utf8_decode_utf8(labels[i]);
    }
    assert(texts =~= lowered);
}

/// A name whose labels are in lower case already is its own canonical form:
/// it reads back from the wire as it was written.
pub proof fn lemma_canonical_lowercase(name: Seq<char>)
    requires
        is_lowercase(name),
    ensures
        canonical_name(name) == name,
{
    lemma_canonical_name(name);
    lemma_join_split(name);
    assert(split_text(name).map_values(|label: Seq<char>| lowercase(label)) =~= split_text(name));
}

} // verus!
