//! The splitter: it hands out the segments of a text one at a time.

use crate::delimiter::Delimiter;
use crate::encoding::{
    law_absent_char_has_no_occurrence, law_first_char_is_first_occurrence,
    lemma_byte_offset_step, lemma_encode_one, lemma_encode_split,
};
use crate::segments::{after_first, leading_segment, split};
use vstd::prelude::*;
use vstd::string::StringSliceAdditionalSpecFns;
use vstd::utf8::{encode_utf8, encode_utf8_decode_utf8};

verus! {

/// A splitter over a text with the delimiter `D`.
///
/// It holds the part of the text that it has not read yet. Each call of
/// [`next`](SplitStr::next) hands out the segment up to the next occurrence of
/// the delimiter and keeps what lies behind that occurrence. Once the text
/// holds no further occurrence, the rest of it is the last segment and the
/// splitter is exhausted for good. The segments are slices of the text: nothing
/// is copied.
///
/// A delimiter with an empty pattern, such as the literal `""`, is found at the
/// start of every text. A splitter on it never moves on: each call of `next`
/// hands out an empty segment and keeps the text as it was. That is why
/// [`collect`](SplitStr::collect) asks for a non-empty pattern.
pub struct SplitStr<'remainder, D> {
    remainder: Option<&'remainder str>,
    delimiter: D,
}

/// The encodings of the texts in `segments`, one for one.
pub open spec fn segment_bytes(segments: Seq<&str>) -> Seq<Seq<u8>> {
    segments.map_values(|segment: &str| segment.spec_bytes())
}

/// A splitter is viewed as the bytes of the text that it has still to read, or
/// `None` once it is exhausted. An empty rest is not exhaustion: it is still to
/// be handed out as an empty segment.
impl<'remainder, D> View for SplitStr<'remainder, D> {
    type V = Option<Seq<u8>>;

    closed spec fn view(&self) -> Option<Seq<u8>> {
        match self.remainder {
            Some(text) => Some(text.spec_bytes()),
            None => None,
        }
    }
}

impl<'remainder, D> SplitStr<'remainder, D> {
    /// The delimiter that the splitter was made with.
    pub closed spec fn delimiter(&self) -> D {
        self.delimiter
    }

    /// A splitter that has all of `init_str` still to read.
    pub fn new(init_str: &'remainder str, delimiter: D) -> (splitter: Self)
        ensures
            splitter@ == Some(init_str.spec_bytes()),
            splitter.delimiter() == delimiter,
    {
        Self { remainder: Some(init_str), delimiter }
    }
}

impl<'remainder, D: Delimiter> SplitStr<'remainder, D> {
    /// The segments that are still to come, in order: none once the splitter is
    /// exhausted. Defined for a delimiter with a non-empty pattern.
    pub open spec fn pending(&self) -> Seq<Seq<u8>> {
        match self@ {
            Some(text) => split(text, self.delimiter().pattern()),
            None => Seq::empty(),
        }
    }

    /// Hands out the next segment, or `None` once the splitter is exhausted.
    ///
    /// The segment is the text up to the first occurrence of the delimiter in
    /// what was still to be read; what lies behind that occurrence is kept.
    /// Where the delimiter does not occur, the segment is all that was still to
    /// be read, and the splitter is exhausted from then on. An exhausted
    /// splitter stays exhausted.
    pub fn next(&mut self) -> (segment: Option<&'remainder str>)
        ensures
            final(self).delimiter() == old(self).delimiter(),
            (match old(self)@ {
                Some(text) => {
                    &&& segment matches Some(head)
                    &&& head.spec_bytes() == leading_segment(text, old(self).delimiter().pattern())
                    &&& final(self)@ == after_first(text, old(self).delimiter().pattern())
                },
                None => segment is None && final(self)@ is None,
            }),
            segment is None ==> final(self)@ is None,
    {
        match self.remainder {
            Some(text) => {
                match self.delimiter.find_next_in_str(text) {
                    Some((delim_start, delim_end)) => {
                        let (until_delimiter, _) = text.split_at(delim_start);
                        let (_, behind_delimiter) = text.split_at(delim_end);
                        self.remainder = Some(behind_delimiter);
                        Some(until_delimiter)
                    },
                    None => {
                        self.remainder = None;
                        Some(text)
                    },
                }
            },
            None => None,
        }
    }

    /// Hands out all segments that are still to come, in order.
    ///
    /// The pattern of the delimiter must not be empty: an empty pattern occurs
    /// at the start of every text, so the splitter would hand out empty
    /// segments without end.
    pub fn collect(self) -> (segments: Vec<&'remainder str>)
        requires
            self.delimiter().pattern().len() > 0,
        ensures
            segment_bytes(segments@) == self.pending(),
    {
        let mut splitter = self;
        let mut segments: Vec<&'remainder str> = Vec::new();
        loop
            invariant
                splitter.delimiter() == self.delimiter(),
                self.delimiter().pattern().len() > 0,
                segment_bytes(segments@) + splitter.pending() == self.pending(),
            decreases
                match splitter@ {
                    Some(text) => text.len() + 1,
                    None => 0,
                },
        {
            match splitter.next() {
                Some(segment) => {
                    segments.push(segment);
                },
                None => {
                    return segments;
                },
            }
        }
    }
}

/// The characters of `text` before the first `c`, or all of `text` where it
/// holds no `c`.
pub open spec fn prefix_before(text: Seq<char>, c: char) -> Seq<char> {
    match text.index_of_first(c) {
        Some(k) => text.subrange(0, k),
        None => text,
    }
}

/// The characters of `text` behind the first `c`, or `None` where it holds no
/// `c`.
pub open spec fn rest_behind(text: Seq<char>, c: char) -> Option<Seq<char>> {
    match text.index_of_first(c) {
        Some(k) => Some(text.subrange(k + 1, text.len() as int)),
        None => None,
    }
}

/// A splitter on the character `c` takes whole characters: the segment that it
/// hands out first is the encoding of the characters before the first `c`, and
/// what it keeps is the encoding of the characters behind that `c`.
pub proof fn law_split_on_char(text: Seq<char>, c: char)
    ensures
        leading_segment(encode_utf8(text), c.pattern()) == encode_utf8(prefix_before(text, c)),
        after_first(encode_utf8(text), c.pattern()) == (match rest_behind(text, c) {
            Some(rest) => Some(encode_utf8(rest)),
            None => None,
        }),
{
    text.index_of_first_ensures(c);
    match text.index_of_first(c) {
        Some(k) => {
            law_first_char_is_first_occurrence(text, c, k);
            lemma_encode_split(text, k);
            lemma_encode_split(text, k + 1);
            lemma_byte_offset_step(text, k);
            lemma_encode_one(c);
        },
        None => {
            law_absent_char_has_no_occurrence(text, c);
        },
    }
}

/// The part of `s` before the first `c`, or all of `s` where it holds no `c`.
pub fn until_char(s: &str, c: char) -> (prefix: &str)
    ensures
        prefix@ == prefix_before(s@, c),
{
    let first = SplitStr::new(s, c).next();
    proof {
        law_split_on_char(s@, c);
        encode_utf8_decode_utf8(first.unwrap()@);
        encode_utf8_decode_utf8(prefix_before(s@, c));
    }
    first.expect("SplitStr always returns at least one value")
}

} // verus!
