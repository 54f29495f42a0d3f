//! What a text can be split on: a literal piece of text, or a single character.

use crate::encoding::{
    byte_offset, law_absent_char_has_no_occurrence, law_first_char_is_first_occurrence,
    lemma_byte_offset_is_boundary, lemma_byte_offset_step, lemma_encode_one, lemma_encode_split,
    lemma_occurrence_on_boundaries, utf8_width,
};
use crate::occurrence::{find_first, first_occurrence, lemma_empty_pattern_occurs_at_start};
use vstd::prelude::*;
use vstd::std_specs::iter::IteratorSpec;
use vstd::string::StringSliceAdditionalSpecFns;
use vstd::utf8::{encode_utf8, encode_utf8_valid_utf8, is_char_boundary};

verus! {

/// A delimiter: something whose next occurrence in a text can be found.
///
/// Every delimiter stands for a fixed sequence of bytes, its [`pattern`], and is
/// found where those bytes first occur in the encoding of the text.
///
/// [`pattern`]: Delimiter::pattern
pub trait Delimiter {
    /// The bytes that an occurrence of this delimiter consists of.
    spec fn pattern(&self) -> Seq<u8>;

    /// Finds the first occurrence of the delimiter in `s` and returns the byte
    /// offsets at which it begins and ends, or `None` where `s` holds no
    /// occurrence. Both offsets lie on character boundaries of `s`.
    fn find_next_in_str(&self, s: &str) -> (span: Option<(usize, usize)>)
        ensures
            (match span {
                Some((start, end)) => {
                    &&& first_occurrence(s.spec_bytes(), self.pattern()) == Some(start as int)
                    &&& end == start + self.pattern().len()
                    &&& is_char_boundary(s.spec_bytes(), start as int)
                    &&& is_char_boundary(s.spec_bytes(), end as int)
                },
                None => first_occurrence(s.spec_bytes(), self.pattern()) is None,
            }),
    ;
}

/// A literal delimiter is found where its bytes occur, byte for byte. The empty
/// literal is found at the start of every text, with a span of no bytes.
impl<'b> Delimiter for &'b str {
    open spec fn pattern(&self) -> Seq<u8> {
        self.spec_bytes()
    }

    fn find_next_in_str(&self, s: &str) -> (span: Option<(usize, usize)>) {
        let text: &[u8] = s.as_bytes();
        let pat: &[u8] = self.as_bytes();
        let width: usize = pat.len();
        match find_first(text, pat) {
            Some(start) => {
                proof {
                    encode_utf8_valid_utf8(s@);
                    encode_utf8_valid_utf8(self@);
                    assert(start + width <= text.len());
                    if width == 0 {
                        lemma_empty_pattern_occurs_at_start(text@, pat@);
                    } else {
                        lemma_occurrence_on_boundaries(text@, pat@, start as int);
                    }
                }
                Some((start, start + width))
            },
            None => None,
        }
    }
}

/// A character is found where it stands in the text, read character by
/// character; its pattern is its UTF-8 encoding, of one to four bytes.
impl Delimiter for char {
    open spec fn pattern(&self) -> Seq<u8> {
        encode_utf8(seq![*self])
    }

    fn find_next_in_str(&self, s: &str) -> (span: Option<(usize, usize)>) {
        let text: &[u8] = s.as_bytes();
        let mut chars = s.chars();
        let mut offset: usize = 0;
        let ghost mut k: int = 0;
        loop
            invariant
                0 <= k <= s@.len(),
                text@ == encode_utf8(s@),
                chars.remaining() == s@.subrange(k, s@.len() as int),
                offset == byte_offset(s@, k) <= text.len(),
                forall|i: int| 0 <= i < k ==> s@[i] != *self,
            decreases s@.len() - k,
        {
            match chars.next() {
                Some(c) => {
                    let width: usize = utf8_width(c);
                    proof {
                        lemma_byte_offset_step(s@, k);
                        lemma_encode_one(c);
                        lemma_encode_split(s@, k + 1);
                    }
                    if c == *self {
                        proof {
                            law_first_char_is_first_occurrence(s@, c, k);
                            lemma_byte_offset_is_boundary(s@, k);
                            lemma_byte_offset_is_boundary(s@, k + 1);
                        }
                        return Some((offset, offset + width));
                    }
                    offset = offset + width;
                    proof {
                        k = k + 1;
                    }
                },
                None => {
                    proof {
                        law_absent_char_has_no_occurrence(s@, *self);
                    }
                    return None;
                },
            }
        }
    }
}

} // verus!
