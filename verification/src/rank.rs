//! Ordering `(word, count)` entries by rank: higher counts first, equal
//! counts by word.
use vstd::prelude::*;
use core::cmp::Ordering;
use crate::entropy::{lemma_str_lt_total, string_lt};
use crate::wordfreq::{ranks_above, word_entry};

verus! {

/// Compare two entries by rank: `Less` when `a` ranks above `b` (a higher
/// count, or an equal count and a word that comes first), `Greater` when `b`
/// ranks above `a`, `Equal` when they are the same entry.
pub fn rank_order(a: &(String, u64), b: &(String, u64)) -> (r: Ordering)
    ensures
        (r == Ordering::Less) <==> ranks_above(word_entry(*a), word_entry(*b)),
        (r == Ordering::Greater) <==> ranks_above(word_entry(*b), word_entry(*a)),
        (r == Ordering::Equal) <==> (a.0@ == b.0@ && a.1 == b.1),
{
    proof {
        lemma_str_lt_total(a.0@, b.0@);
    }
    if a.1 > b.1 {
        Ordering::Less
    } else if a.1 < b.1 {
        Ordering::Greater
    } else if string_lt(a.0.as_str(), b.0.as_str()) {
        Ordering::Less
    } else if string_lt(b.0.as_str(), a.0.as_str()) {
        Ordering::Greater
    } else {
        Ordering::Equal
    }
}

/// Sorts the entries with `slice::sort_by` and `rank_order` as comparator.
/// std documents that `sort_by` reorders the slice so that it is ordered by
/// the comparator, which here is a total order: the entries stay the same
/// (as a multiset) and no entry ranks above one before it.
#[verifier::external_body]
pub(crate) fn sort_by_rank(v: &mut Vec<(String, u64)>)
    ensures
        final(v)@.to_multiset() == old(v)@.to_multiset(),
        forall|i: int, j: int|
            0 <= i < j < final(v)@.len() ==> !ranks_above(
                word_entry(final(v)@[j]),
                word_entry(final(v)@[i]),
            ),
{
    v.sort_by(|a, b| rank_order(a, b));
}

} // verus!
