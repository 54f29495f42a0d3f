//! Where a byte pattern occurs in a byte text, and where it occurs first.

use vstd::prelude::*;

verus! {

/// `pat` stands in `text` at offset `at`: the `pat.len()` bytes of `text` from
/// `at` on are the bytes of `pat`. The empty pattern occurs at every offset from
/// 0 to `text.len()`.
pub open spec fn occurs_at(text: Seq<u8>, pat: Seq<u8>, at: int) -> bool {
    &&& 0 <= at
    &&& at + pat.len() <= text.len()
    &&& text.subrange(at, at + pat.len()) == pat
}

/// `pat` occurs in `text` at `at` and at no smaller offset.
pub open spec fn is_first_occurrence(text: Seq<u8>, pat: Seq<u8>, at: int) -> bool {
    &&& occurs_at(text, pat, at)
    &&& forall|j: int| 0 <= j < at ==> !occurs_at(text, pat, j)
}

/// The smallest offset at which `pat` occurs in `text`, if it occurs at all.
pub open spec fn first_occurrence(text: Seq<u8>, pat: Seq<u8>) -> Option<int> {
    if exists|at: int| is_first_occurrence(text, pat, at) {
        Some(choose|at: int| is_first_occurrence(text, pat, at))
    } else {
        None
    }
}

/// Below any occurrence there is a first one.
proof fn lemma_least_occurrence(text: Seq<u8>, pat: Seq<u8>, at: int)
    requires
        occurs_at(text, pat, at),
    ensures
        exists|first: int| first <= at && is_first_occurrence(text, pat, first),
    decreases at,
{
    if exists|j: int| 0 <= j < at && occurs_at(text, pat, j) {
        let j = choose|j: int| 0 <= j < at && occurs_at(text, pat, j);
        lemma_least_occurrence(text, pat, j);
    } else {
        assert(is_first_occurrence(text, pat, at));
    }
}

/// An offset that meets [`is_first_occurrence`] is the value of
/// [`first_occurrence`].
pub proof fn lemma_first_occurrence_found(text: Seq<u8>, pat: Seq<u8>, at: int)
    requires
        is_first_occurrence(text, pat, at),
    ensures
        first_occurrence(text, pat) == Some(at),
{
}

/// [`first_occurrence`] is `None` exactly when `pat` occurs nowhere in `text`,
/// and otherwise holds the first offset at which it occurs.
pub proof fn lemma_first_occurrence(text: Seq<u8>, pat: Seq<u8>)
    ensures
        (match first_occurrence(text, pat) {
            Some(at) => is_first_occurrence(text, pat, at),
            None => forall|j: int| !occurs_at(text, pat, j),
        }),
{
    if first_occurrence(text, pat) is None {
        assert forall|j: int| !occurs_at(text, pat, j) by {
            if occurs_at(text, pat, j) {
                lemma_least_occurrence(text, pat, j);
            }
        }
    }
}

/// The empty pattern occurs first at offset 0, whatever the text.
pub proof fn lemma_empty_pattern_occurs_at_start(text: Seq<u8>, pat: Seq<u8>)
    requires
        pat.len() == 0,
    ensures
        first_occurrence(text, pat) == Some(0int),
{
    assert(text.subrange(0, 0) =~= pat);
    lemma_first_occurrence_found(text, pat, 0);
}

/// Compares the bytes of `text` from `at` on with `pat`.
fn matches_at(text: &[u8], pat: &[u8], at: usize) -> (found: bool)
    requires
        at + pat@.len() <= text@.len() <= usize::MAX,
    ensures
        found == occurs_at(text@, pat@, at as int),
{
    let mut k: usize = 0;
    while k < pat.len()
        invariant
            k <= pat@.len(),
            at + pat@.len() <= text@.len() <= usize::MAX,
            forall|t: int| 0 <= t < k ==> text@[at + t] == #[trigger] pat@[t],
        decreases pat@.len() - k,
    {
        if text[at + k] != pat[k] {
            return false;
        }
        k += 1;
    }
    assert(text@.subrange(at as int, at + pat@.len()) =~= pat@);
    true
}

/// Searches `text` from the left for `pat` and returns the first offset at
/// which it occurs. The empty pattern is found at offset 0.
pub fn find_first(text: &[u8], pat: &[u8]) -> (found: Option<usize>)
    ensures
        (match found {
            Some(at) => first_occurrence(text@, pat@) == Some(at as int),
            None => first_occurrence(text@, pat@) is None,
        }),
{
    let n: usize = text.len();
    let m: usize = pat.len();
    if m > n {
        return None;
    }
    let last: usize = n - m;
    let mut at: usize = 0;
    loop
        invariant
            n == text@.len(),
            m == pat@.len(),
            last == n - m,
            at <= last,
            forall|j: int| 0 <= j < at ==> !occurs_at(text@, pat@, j),
        decreases last - at,
    {
        if matches_at(text, pat, at) {
            proof {
                lemma_first_occurrence_found(text@, pat@, at as int);
            }
            return Some(at);
        }
        if at == last {
            return None;
        }
        at += 1;
    }
}

} // verus!
