//! The segments into which the occurrences of a pattern cut a text.
//!
//! A text is read from the left. The first occurrence of the pattern ends the
//! first segment, the search goes on behind that occurrence, and what follows
//! the last occurrence is the last segment. Occurrences found this way never
//! overlap.

use crate::occurrence::{
    first_occurrence, lemma_first_occurrence, lemma_first_occurrence_found, occurs_at,
};
use vstd::prelude::*;

verus! {

/// The part of `text` before the first occurrence of `pat`, or all of `text`
/// where `pat` does not occur.
pub open spec fn leading_segment(text: Seq<u8>, pat: Seq<u8>) -> Seq<u8> {
    match first_occurrence(text, pat) {
        Some(at) => text.subrange(0, at),
        None => text,
    }
}

/// The part of `text` behind the first occurrence of `pat`, which may be empty,
/// or `None` where `pat` does not occur.
pub open spec fn after_first(text: Seq<u8>, pat: Seq<u8>) -> Option<Seq<u8>> {
    match first_occurrence(text, pat) {
        Some(at) => Some(text.subrange(at + pat.len(), text.len() as int)),
        None => None,
    }
}

/// All segments of `text`, in order. Defined for a non-empty pattern only: the
/// empty pattern occurs at the start of every text, so the search would never
/// move on.
pub open spec fn split(text: Seq<u8>, pat: Seq<u8>) -> Seq<Seq<u8>>
    decreases text.len(),
    when pat.len() > 0
{
    match after_first(text, pat) {
        Some(rest) => seq![leading_segment(text, pat)] + split(rest, pat),
        None => seq![text],
    }
}

/// The segments `parts` put together again, with `sep` between each two
/// neighbours.
pub open spec fn join(parts: Seq<Seq<u8>>, sep: Seq<u8>) -> Seq<u8>
    decreases parts.len(),
{
    if parts.len() == 0 {
        Seq::empty()
    } else if parts.len() == 1 {
        parts[0]
    } else {
        parts[0] + sep + join(parts.drop_first(), sep)
    }
}

/// The offsets in `text` of the occurrences of `pat` that the search meets: the
/// first occurrence in `text`, then the first one that begins at or behind the
/// end of that one, and so on. Defined for a non-empty pattern only.
pub open spec fn occurrences(text: Seq<u8>, pat: Seq<u8>) -> Seq<int>
    decreases text.len(),
    when pat.len() > 0
{
    match first_occurrence(text, pat) {
        Some(at) => {
            let behind = at + pat.len();
            seq![at] + occurrences(text.subrange(behind, text.len() as int), pat).map_values(
                |off: int| behind + off,
            )
        },
        None => Seq::empty(),
    }
}

/// Where segment `k` begins, given the offsets `found` of the occurrences of a
/// pattern of `width` bytes: at the start of the text, or behind occurrence
/// `k - 1`.
pub open spec fn segment_start(found: Seq<int>, width: nat, k: int) -> int {
    if k == 0 {
        0
    } else {
        found[k - 1] + width
    }
}

/// Where segment `k` of a text of `len` bytes ends: at occurrence `k`, or at the
/// end of the text for the last segment.
pub open spec fn segment_end(found: Seq<int>, len: nat, k: int) -> int {
    if k < found.len() {
        found[k]
    } else {
        len as int
    }
}

/// `at` is the first offset from `from` on at which `pat` occurs in `text`.
pub open spec fn is_next_occurrence(text: Seq<u8>, pat: Seq<u8>, from: int, at: int) -> bool {
    &&& from <= at
    &&& occurs_at(text, pat, at)
    &&& forall|j: int| from <= j < at ==> !occurs_at(text, pat, j)
}

/// `found[k]` ends segment `k`: it is the first occurrence of `pat` in `text`
/// from the start of that segment on.
pub open spec fn ends_segment(text: Seq<u8>, pat: Seq<u8>, found: Seq<int>, k: int) -> bool {
    is_next_occurrence(text, pat, segment_start(found, pat.len(), k), found[k])
}

/// `found` lists the occurrences of `pat` that a search of `text` from the left
/// meets: each one is the first occurrence from the start of its segment on, and
/// `pat` does not occur from the start of the last segment on.
pub open spec fn is_leftmost_scan(text: Seq<u8>, pat: Seq<u8>, found: Seq<int>) -> bool {
    &&& forall|k: int| 0 <= k < found.len() ==> #[trigger] ends_segment(text, pat, found, k)
    &&& forall|at: int|
        segment_start(found, pat.len(), found.len() as int) <= at ==> !#[trigger] occurs_at(
            text,
            pat,
            at,
        )
}

/// A text in which the pattern does not occur is its own single segment: it is
/// handed out whole, and nothing is left behind it.
pub proof fn law_split_without_occurrence(text: Seq<u8>, pat: Seq<u8>)
    requires
        forall|at: int| !occurs_at(text, pat, at),
    ensures
        leading_segment(text, pat) == text,
        after_first(text, pat) is None,
        split(text, pat) == seq![text],
{
    assert(pat.len() > 0) by {
        if pat.len() == 0 {
            assert(text.subrange(0, 0) =~= pat);
            assert(occurs_at(text, pat, 0));
        }
    }
    lemma_first_occurrence(text, pat);
}

/// The empty text has exactly one segment, which is empty, and nothing is left
/// behind it.
pub proof fn law_split_empty_text(pat: Seq<u8>)
    requires
        pat.len() > 0,
    ensures
        leading_segment(Seq::<u8>::empty(), pat) == Seq::<u8>::empty(),
        after_first(Seq::<u8>::empty(), pat) is None,
        split(Seq::<u8>::empty(), pat) == seq![Seq::<u8>::empty()],
{
}

/// Joining the segments of a text with the pattern gives the text back.
pub proof fn law_join_split(text: Seq<u8>, pat: Seq<u8>)
    requires
        pat.len() > 0,
    ensures
        join(split(text, pat), pat) == text,
    decreases text.len(),
{
    lemma_first_occurrence(text, pat);
    match first_occurrence(text, pat) {
        Some(at) => {
            let head = text.subrange(0, at);
            let rest = text.subrange(at + pat.len(), text.len() as int);
            let parts = split(text, pat);
            law_join_split(rest, pat);
            law_segment_count_bounds(rest, pat);
            assert(parts.drop_first() =~= split(rest, pat));
            assert(head + pat + rest =~= text) by {
                assert(text.subrange(at, at + pat.len()) == pat);
            }
        },
        None => {},
    }
}

/// No segment holds an occurrence of the pattern.
pub proof fn law_segments_hold_no_occurrence(text: Seq<u8>, pat: Seq<u8>, k: int, at: int)
    requires
        pat.len() > 0,
        0 <= k < split(text, pat).len(),
    ensures
        !occurs_at(split(text, pat)[k], pat, at),
    decreases text.len(),
{
    lemma_first_occurrence(text, pat);
    match first_occurrence(text, pat) {
        Some(first) => {
            if k == 0 {
                let head = text.subrange(0, first);
                if occurs_at(head, pat, at) {
                    assert(head.subrange(at, at + pat.len()) =~= text.subrange(
                        at,
                        at + pat.len(),
                    ));
                    assert(occurs_at(text, pat, at));
                }
            } else {
                let rest = text.subrange(first + pat.len(), text.len() as int);
                law_segments_hold_no_occurrence(rest, pat, k - 1, at);
            }
        },
        None => {},
    }
}

/// Every text has at least one segment, and no more segments than it has bytes
/// and one.
pub proof fn law_segment_count_bounds(text: Seq<u8>, pat: Seq<u8>)
    requires
        pat.len() > 0,
    ensures
        1 <= split(text, pat).len() <= text.len() + 1,
    decreases text.len(),
{
    lemma_first_occurrence(text, pat);
    match first_occurrence(text, pat) {
        Some(at) => {
            law_segment_count_bounds(text.subrange(at + pat.len(), text.len() as int), pat);
        },
        None => {},
    }
}

/// `pat` occurs in the part of `text` from `from` on exactly where it occurs in
/// `text` at or behind `from`.
proof fn lemma_occurs_at_in_suffix(text: Seq<u8>, pat: Seq<u8>, from: int, at: int)
    requires
        0 <= from <= text.len(),
    ensures
        occurs_at(text.subrange(from, text.len() as int), pat, at) <==> 0 <= at && occurs_at(
            text,
            pat,
            from + at,
        ),
{
    let suffix = text.subrange(from, text.len() as int);
    if 0 <= at && from + at + pat.len() <= text.len() {
        assert(suffix.subrange(at, at + pat.len()) =~= text.subrange(
            from + at,
            from + at + pat.len(),
        ));
    }
}

/// There is one segment more than there are occurrences.
pub proof fn law_segment_count(text: Seq<u8>, pat: Seq<u8>)
    requires
        pat.len() > 0,
    ensures
        split(text, pat).len() == occurrences(text, pat).len() + 1,
    decreases text.len(),
{
    lemma_first_occurrence(text, pat);
    match first_occurrence(text, pat) {
        Some(at) => {
            law_segment_count(text.subrange(at + pat.len(), text.len() as int), pat);
        },
        None => {},
    }
}

/// The first occurrence from `from` on in the part of `text` behind `behind` is
/// the first occurrence from `behind + from` on in `text`.
proof fn lemma_next_occurrence_in_suffix(
    text: Seq<u8>,
    pat: Seq<u8>,
    behind: int,
    from: int,
    at: int,
)
    requires
        0 <= behind <= text.len(),
        0 <= from,
        is_next_occurrence(text.subrange(behind, text.len() as int), pat, from, at),
    ensures
        is_next_occurrence(text, pat, behind + from, behind + at),
{
    lemma_occurs_at_in_suffix(text, pat, behind, at);
    assert forall|j: int| behind + from <= j < behind + at implies !occurs_at(text, pat, j) by {
        lemma_occurs_at_in_suffix(text, pat, behind, j - behind);
    }
}

/// What [`occurrences`] holds: the occurrences that a search from the left
/// meets, and so none that overlaps another.
pub proof fn law_occurrences_leftmost(text: Seq<u8>, pat: Seq<u8>)
    requires
        pat.len() > 0,
    ensures
        is_leftmost_scan(text, pat, occurrences(text, pat)),
    decreases text.len(),
{
    lemma_first_occurrence(text, pat);
    let found = occurrences(text, pat);
    let width = pat.len();
    match first_occurrence(text, pat) {
        Some(first) => {
            let behind = first + width;
            let rest = text.subrange(behind, text.len() as int);
            let inner = occurrences(rest, pat);
            law_occurrences_leftmost(rest, pat);
            assert(found =~= seq![first] + inner.map_values(|off: int| behind + off));
            assert forall|k: int| 0 <= k < found.len() implies #[trigger] ends_segment(
                text,
                pat,
                found,
                k,
            ) by {
                if k > 0 {
                    let from = segment_start(inner, width, k - 1);
                    assert(ends_segment(rest, pat, inner, k - 1));
                    if k > 1 {
                        assert(ends_segment(rest, pat, inner, k - 2));
                    }
                    lemma_next_occurrence_in_suffix(text, pat, behind, from, inner[k - 1]);
                }
            }
            let last_start = segment_start(found, width, found.len() as int);
            assert(last_start == behind + segment_start(inner, width, inner.len() as int));
            assert forall|at: int| last_start <= at implies !#[trigger] occurs_at(
                text,
                pat,
                at,
            ) by {
                lemma_occurs_at_in_suffix(text, pat, behind, at - behind);
            }
        },
        None => {},
    }
}

/// Segment `k` is the part of the text from behind occurrence `k - 1` (or from
/// the start) up to occurrence `k` (or to the end).
pub proof fn law_segments_between_occurrences(text: Seq<u8>, pat: Seq<u8>, k: int)
    requires
        pat.len() > 0,
        0 <= k <= occurrences(text, pat).len(),
    ensures
        split(text, pat)[k] == text.subrange(
            segment_start(occurrences(text, pat), pat.len(), k),
            segment_end(occurrences(text, pat), text.len(), k),
        ),
    decreases text.len(),
{
    let found = occurrences(text, pat);
    let width = pat.len();
    match first_occurrence(text, pat) {
        Some(first) => {
            let behind = first + width;
            let rest = text.subrange(behind, text.len() as int);
            let inner = occurrences(rest, pat);
            assert(found =~= seq![first] + inner.map_values(|off: int| behind + off));
            if k > 0 {
                law_segments_between_occurrences(rest, pat, k - 1);
                law_segment_count(rest, pat);
                assert(split(text, pat)[k] == split(rest, pat)[k - 1]);
                assert(segment_start(found, width, k) == behind + segment_start(
                    inner,
                    width,
                    k - 1,
                ));
                assert(segment_end(found, text.len(), k) == behind + segment_end(
                    inner,
                    rest.len(),
                    k - 1,
                ));
                law_segments_within_text(rest, pat, k - 1);
                let from = segment_start(inner, width, k - 1);
                let to = segment_end(inner, rest.len(), k - 1);
                assert(rest.subrange(from, to) =~= text.subrange(behind + from, behind + to));
            }
        },
        None => {
            assert(text.subrange(0, text.len() as int) =~= text);
        },
    }
}

/// Each segment lies within the text, and begins no later than it ends.
pub proof fn law_segments_within_text(text: Seq<u8>, pat: Seq<u8>, k: int)
    requires
        pat.len() > 0,
        0 <= k <= occurrences(text, pat).len(),
    ensures
        0 <= segment_start(occurrences(text, pat), pat.len(), k) <= segment_end(
            occurrences(text, pat),
            text.len(),
            k,
        ) <= text.len(),
{
    law_occurrences_leftmost(text, pat);
    let found = occurrences(text, pat);
    if k > 0 {
        assert(ends_segment(text, pat, found, k - 1));
    }
    if k < found.len() {
        assert(ends_segment(text, pat, found, k));
    }
}

/// The occurrences that a search from the left meets come in ascending order.
proof fn lemma_scan_ascending(text: Seq<u8>, pat: Seq<u8>, found: Seq<int>, i: int, k: int)
    requires
        is_leftmost_scan(text, pat, found),
        0 <= i <= k < found.len(),
    ensures
        0 <= found[i] <= found[k],
    decreases k - i,
{
    assert(ends_segment(text, pat, found, i));
    if i < k {
        lemma_scan_ascending(text, pat, found, i, k - 1);
        assert(ends_segment(text, pat, found, k));
    }
}

/// Only [`occurrences`] meets [`is_leftmost_scan`]: the occurrences that a search
/// from the left meets are determined by the text and the pattern.
pub proof fn law_leftmost_scan_unique(text: Seq<u8>, pat: Seq<u8>, found: Seq<int>)
    requires
        pat.len() > 0,
        is_leftmost_scan(text, pat, found),
    ensures
        found == occurrences(text, pat),
    decreases text.len(),
{
    let width = pat.len();
    if found.len() == 0 {
        assert forall|at: int| !occurs_at(text, pat, at) by {
            if 0 <= at {
                assert(segment_start(found, width, 0) <= at);
            }
        }
        lemma_first_occurrence(text, pat);
        assert(found =~= occurrences(text, pat));
    } else {
        let first = found[0];
        assert(ends_segment(text, pat, found, 0));
        lemma_first_occurrence_found(text, pat, first);
        let behind = first + width;
        let rest = text.subrange(behind, text.len() as int);
        let inner = Seq::new((found.len() - 1) as nat, |k: int| found[k + 1] - behind);
        assert forall|k: int| 0 <= k < inner.len() implies #[trigger] ends_segment(
            rest,
            pat,
            inner,
            k,
        ) by {
            let from = segment_start(inner, width, k);
            assert(ends_segment(text, pat, found, k + 1));
            assert(segment_start(found, width, k + 1) == behind + from);
            lemma_scan_ascending(text, pat, found, 0, k);
            lemma_occurs_at_in_suffix(text, pat, behind, inner[k]);
            assert forall|j: int| from <= j < inner[k] implies !occurs_at(rest, pat, j) by {
                lemma_occurs_at_in_suffix(text, pat, behind, j);
            }
        }
        assert(segment_start(found, width, found.len() as int) == behind + segment_start(
            inner,
            width,
            inner.len() as int,
        ));
        assert forall|at: int|
            segment_start(inner, width, inner.len() as int) <= at implies !#[trigger] occurs_at(
            rest,
            pat,
            at,
        ) by {
            lemma_occurs_at_in_suffix(text, pat, behind, at);
        }
        law_leftmost_scan_unique(rest, pat, inner);
        assert(found =~= seq![first] + inner.map_values(|off: int| behind + off));
    }
}

} // verus!
