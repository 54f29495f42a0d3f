//! UTF-8 facts that relate a text's characters to the bytes of its encoding.

use crate::occurrence::{is_first_occurrence, occurs_at};
use crate::segments::{
    ends_segment, law_occurrences_leftmost, occurrences, segment_end, segment_start,
};
use vstd::prelude::*;
use vstd::utf8::*;

verus! {

/// The offset in the encoding of `text` at which character `k` begins: the
/// number of bytes that encode the `k` characters before it.
pub open spec fn byte_offset(text: Seq<char>, k: int) -> int {
    encode_utf8(text.subrange(0, k)).len() as int
}

/// A text is encoded piece by piece.
pub proof fn lemma_encode_concat(a: Seq<char>, b: Seq<char>)
    ensures
        encode_utf8(a + b) == encode_utf8(a) + encode_utf8(b),
    decreases a.len(),
{
    if a.len() > 0 {
        lemma_encode_concat(a.drop_first(), b);
        assert((a + b).drop_first() =~= a.drop_first() + b);
    }
}

/// The encoding of a text splits at character `k` into the encoding of the
/// characters before it and the encoding of the rest.
pub proof fn lemma_encode_split(text: Seq<char>, k: int)
    requires
        0 <= k <= text.len(),
    ensures
        0 <= byte_offset(text, k) <= encode_utf8(text).len(),
        encode_utf8(text).subrange(0, byte_offset(text, k)) == encode_utf8(text.subrange(0, k)),
        encode_utf8(text).subrange(byte_offset(text, k), encode_utf8(text).len() as int)
            == encode_utf8(text.subrange(k, text.len() as int)),
{
    let before = text.subrange(0, k);
    let behind = text.subrange(k, text.len() as int);
    assert(text =~= before + behind);
    lemma_encode_concat(before, behind);
}

/// The encoding of a single character has between one and four bytes.
pub proof fn lemma_encode_one(c: char)
    ensures
        encode_utf8(seq![c]) == encode_scalar(c as u32),
        1 <= encode_scalar(c as u32).len() <= 4,
{
    assert(seq![c].drop_first() =~= Seq::<char>::empty());
    assert(encode_scalar(c as u32) + encode_utf8(Seq::<char>::empty()) =~= encode_scalar(c as u32));
}

/// Byte offsets grow with the character index, by the width of each character.
pub proof fn lemma_byte_offset_step(text: Seq<char>, k: int)
    requires
        0 <= k < text.len(),
    ensures
        byte_offset(text, k + 1) == byte_offset(text, k) + encode_scalar(text[k] as u32).len(),
{
    let before = text.subrange(0, k);
    assert(text.subrange(0, k + 1) =~= before + seq![text[k]]);
    lemma_encode_concat(before, seq![text[k]]);
    lemma_encode_one(text[k]);
}

/// Byte offsets are ordered as the character indices are.
pub proof fn lemma_byte_offset_monotonic(text: Seq<char>, i: int, k: int)
    requires
        0 <= i <= k <= text.len(),
    ensures
        byte_offset(text, i) <= byte_offset(text, k),
        i < k ==> byte_offset(text, i) < byte_offset(text, k),
    decreases k - i,
{
    if i < k {
        lemma_byte_offset_monotonic(text, i, k - 1);
        lemma_byte_offset_step(text, k - 1);
    }
}

/// Every character of a text begins on a character boundary of its encoding,
/// and so does the end of the text.
pub proof fn lemma_byte_offset_is_boundary(text: Seq<char>, k: int)
    requires
        0 <= k <= text.len(),
    ensures
        is_char_boundary(encode_utf8(text), byte_offset(text, k)),
    decreases text.len(),
{
    let bytes = encode_utf8(text);
    encode_utf8_valid_utf8(text);
    if k > 0 {
        let tail = text.drop_first();
        encode_utf8_first_scalar(text);
        assert(pop_first_scalar(bytes) =~= encode_utf8(tail));
        lemma_byte_offset_is_boundary(tail, k - 1);
        assert(text.subrange(0, k) =~= seq![text[0]] + tail.subrange(0, k - 1));
        lemma_encode_concat(seq![text[0]], tail.subrange(0, k - 1));
        lemma_encode_one(text[0]);
    }
}

/// Every character boundary of a text's encoding is the offset at which one of
/// its characters begins, or the end of the text. Returns that character's index.
pub proof fn lemma_boundary_is_byte_offset(text: Seq<char>, at: int) -> (k: int)
    requires
        is_char_boundary(encode_utf8(text), at),
    ensures
        0 <= k <= text.len(),
        byte_offset(text, k) == at,
    decreases text.len(),
{
    let bytes = encode_utf8(text);
    encode_utf8_valid_utf8(text);
    if at == 0 {
        0
    } else {
        let tail = text.drop_first();
        encode_utf8_first_scalar(text);
        assert(pop_first_scalar(bytes) =~= encode_utf8(tail));
        let below = lemma_boundary_is_byte_offset(tail, at - length_of_first_scalar(bytes));
        assert(text.subrange(0, below + 1) =~= seq![text[0]] + tail.subrange(0, below));
        lemma_encode_concat(seq![text[0]], tail.subrange(0, below));
        lemma_encode_one(text[0]);
        below + 1
    }
}

/// Where one valid encoding begins with another, the shorter one ends on a
/// character boundary of the longer one.
pub proof fn lemma_prefix_ends_on_boundary(bytes: Seq<u8>, prefix: Seq<u8>)
    requires
        valid_utf8(bytes),
        valid_utf8(prefix),
        prefix.len() <= bytes.len(),
        bytes.subrange(0, prefix.len() as int) == prefix,
    ensures
        is_char_boundary(bytes, prefix.len() as int),
    decreases prefix.len(),
{
    if prefix.len() > 0 {
        let shorter = pop_first_scalar(prefix);
        assert(pop_first_scalar(bytes).subrange(0, shorter.len() as int) =~= shorter);
        lemma_prefix_ends_on_boundary(pop_first_scalar(bytes), shorter);
    }
}

/// An occurrence of a non-empty valid encoding in a valid encoding begins and
/// ends on character boundaries: no character of the text is cut by it.
pub proof fn lemma_occurrence_on_boundaries(text: Seq<u8>, pat: Seq<u8>, at: int)
    requires
        valid_utf8(text),
        valid_utf8(pat),
        pat.len() > 0,
        occurs_at(text, pat, at),
    ensures
        is_char_boundary(text, at),
        is_char_boundary(text, at + pat.len()),
{
    let end = text.len() as int;
    is_char_boundary_iff_not_is_continuation_byte(text, at);
    if at + pat.len() == end {
        is_char_boundary_start_end_of_seq(text);
    } else {
        let suffix = text.subrange(at, end);
        valid_utf8_split(text, at);
        assert(suffix.subrange(0, pat.len() as int) =~= text.subrange(at, at + pat.len()));
        lemma_prefix_ends_on_boundary(suffix, pat);
        is_char_boundary_iff_not_is_continuation_byte(suffix, pat.len() as int);
        is_char_boundary_iff_not_is_continuation_byte(text, at + pat.len());
    }
}

/// Where the encoding of a character occurs in the encoding of a text, that
/// character stands in the text, and the occurrence is its encoding. Returns
/// the character's index.
pub proof fn lemma_char_at_occurrence(text: Seq<char>, c: char, at: int) -> (k: int)
    requires
        occurs_at(encode_utf8(text), encode_utf8(seq![c]), at),
    ensures
        0 <= k < text.len(),
        text[k] == c,
        byte_offset(text, k) == at,
{
    let bytes = encode_utf8(text);
    let pat = encode_utf8(seq![c]);
    encode_utf8_valid_utf8(text);
    encode_utf8_valid_utf8(seq![c]);
    lemma_occurrence_on_boundaries(bytes, pat, at);
    let k = lemma_boundary_is_byte_offset(text, at);
    lemma_encode_split(text, k);
    if k == text.len() {
        assert(text.subrange(0, k) =~= text);
    }
    let behind = text.subrange(k, text.len() as int);
    let suffix = encode_utf8(behind);
    encode_utf8_first_scalar(behind);
    encode_utf8_first_scalar(seq![c]);
    assert(forall|i: int| 0 <= i < pat.len() ==> suffix[i] == #[trigger] pat[i]);
    char_u32_cast(behind[0], c as u32);
    k
}

/// A character that does not stand in a text has no occurrence of its encoding
/// in the encoding of the text.
pub proof fn law_absent_char_has_no_occurrence(text: Seq<char>, c: char)
    requires
        !text.contains(c),
    ensures
        forall|at: int| !occurs_at(encode_utf8(text), encode_utf8(seq![c]), at),
{
    assert forall|at: int| !occurs_at(encode_utf8(text), encode_utf8(seq![c]), at) by {
        if occurs_at(encode_utf8(text), encode_utf8(seq![c]), at) {
            lemma_char_at_occurrence(text, c, at);
        }
    }
}

/// The first occurrence of a character's encoding in the encoding of a text is
/// the encoding of the first such character in the text.
pub proof fn law_first_char_is_first_occurrence(text: Seq<char>, c: char, k: int)
    requires
        0 <= k < text.len(),
        text[k] == c,
        forall|i: int| 0 <= i < k ==> text[i] != c,
    ensures
        is_first_occurrence(encode_utf8(text), encode_utf8(seq![c]), byte_offset(text, k)),
{
    let bytes = encode_utf8(text);
    let pat = encode_utf8(seq![c]);
    lemma_encode_split(text, k);
    lemma_encode_split(text, k + 1);
    lemma_byte_offset_step(text, k);
    lemma_encode_one(c);
    assert(bytes.subrange(byte_offset(text, k), byte_offset(text, k) + pat.len()) =~= pat);
    assert forall|at: int| 0 <= at < byte_offset(text, k) implies !occurs_at(bytes, pat, at) by {
        if occurs_at(bytes, pat, at) {
            let i = lemma_char_at_occurrence(text, c, at);
            if i >= k {
                lemma_byte_offset_monotonic(text, k, i);
            }
        }
    }
}

/// No segment of a text begins or ends inside a character, whether the text is
/// split on a character or on a non-empty literal: segment `k` of the encoding
/// `text`, split on the encoding `pat`, begins and ends on character boundaries.
pub proof fn law_segments_on_char_boundaries(text: Seq<u8>, pat: Seq<u8>, k: int)
    requires
        valid_utf8(text),
        valid_utf8(pat),
        pat.len() > 0,
        0 <= k <= occurrences(text, pat).len(),
    ensures
        is_char_boundary(text, segment_start(occurrences(text, pat), pat.len(), k)),
        is_char_boundary(text, segment_end(occurrences(text, pat), text.len(), k)),
{
    let found = occurrences(text, pat);
    law_occurrences_leftmost(text, pat);
    is_char_boundary_start_end_of_seq(text);
    if k > 0 {
        assert(ends_segment(text, pat, found, k - 1));
        lemma_occurrence_on_boundaries(text, pat, found[k - 1]);
    }
    if k < found.len() {
        assert(ends_segment(text, pat, found, k));
        lemma_occurrence_on_boundaries(text, pat, found[k]);
    }
}

/// The number of bytes in the UTF-8 encoding of `c`.
pub fn utf8_width(c: char) -> (width: usize)
    ensures
        width == encode_utf8(seq![c]).len(),
        1 <= width <= 4,
{
    proof {
        lemma_encode_one(c);
    }
    let scalar: u32 = c as u32;
    if scalar < 0x80 {
        1
    } else if scalar < 0x800 {
        2
    } else if scalar < 0x10000 {
        3
    } else {
        4
    }
}

} // verus!
