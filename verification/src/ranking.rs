//! The order in which a table lists its entries, and the cut after the best of them.

use core::cmp::Ordering;
use iter_tools::Itertools;
use vstd::prelude::*;
use vstd::seq_lib::*;

verus! {

/// An entry while it is ranked is a pair: the alphabetical rank of its run,
/// then its count. The entry with the higher count comes first; of two with
/// the same count, the one that is first in the alphabet.
pub open spec fn ranks_before(a: (u32, i64), b: (u32, i64)) -> bool {
    a.1 > b.1 || (a.1 == b.1 && a.0 < b.0)
}

/// Compares two entries by `ranks_before`.
pub fn rank_order(a: &(u32, i64), b: &(u32, i64)) -> (order: Ordering)
    ensures
        order == Ordering::Less <==> ranks_before(*a, *b),
        order == Ordering::Greater <==> ranks_before(*b, *a),
        order == Ordering::Equal <==> *a == *b,
{
    if a.1 > b.1 {
        Ordering::Less
    } else if a.1 < b.1 {
        Ordering::Greater
    } else if a.0 < b.0 {
        Ordering::Less
    } else if a.0 > b.0 {
        Ordering::Greater
    } else {
        Ordering::Equal
    }
}

/// Calls `Itertools::sorted_by` on the entries with `rank_order` as the
/// comparison. It collects the items into a vector and sorts that with
/// `slice::sort_by`; trusted of it: the result holds the same entries, each
/// as often as before, and none of them ranks before one that precedes it.
#[verifier::external_body]
fn sorted_by_rank(entries: Vec<(u32, i64)>) -> (ranked: Vec<(u32, i64)>)
    ensures
        ranked@.to_multiset() == entries@.to_multiset(),
        forall|i: int, j: int|
            0 <= i < j < ranked@.len() ==> !ranks_before(#[trigger] ranked@[j], #[trigger] ranked@[i]),
{
    entries.into_iter().sorted_by(|a, b| rank_order(a, b)).collect()
}

/// The `limit` best of `entries`, best first; all of them where they are fewer.
pub fn top_ranked(entries: Vec<(u32, i64)>, limit: usize) -> (top: Vec<(u32, i64)>)
    requires
        entries@.no_duplicates(),
    ensures
        limit <= entries@.len() ==> top@.len() == limit,
        limit > entries@.len() ==> top@.len() == entries@.len(),
        forall|i: int, j: int|
            0 <= i < j < top@.len() ==> ranks_before(#[trigger] top@[i], #[trigger] top@[j]),
        forall|i: int| 0 <= i < top@.len() ==> entries@.contains(#[trigger] top@[i]),
        forall|e: (u32, i64)| #[trigger]
            entries@.contains(e) ==> top@.contains(e) || (top@.len() == limit && forall|i: int|
                0 <= i < top@.len() ==> ranks_before(#[trigger] top@[i], e)),
{
    let ghost given = entries@;
    let mut ranked = sorted_by_rank(entries);
    let ghost full = ranked@;
    proof {
        given.lemma_multiset_has_no_duplicates();
        full.lemma_multiset_has_no_duplicates_conv();
        to_multiset_len(given);
        to_multiset_len(full);
    }
    ranked.truncate(limit);
    proof {
        assert forall|i: int| 0 <= i < ranked@.len() implies #[trigger] ranked@[i] == full[i] by {}
        assert forall|i: int| 0 <= i < ranked@.len() implies given.contains(
            #[trigger] ranked@[i],
        ) by {
            assert(full.contains(full[i]));
            to_multiset_contains(full, full[i]);
            to_multiset_contains(given, full[i]);
        }
        assert forall|i: int, j: int| 0 <= i < j < ranked@.len() implies ranks_before(
            #[trigger] ranked@[i],
            #[trigger] ranked@[j],
        ) by {
            assert(!ranks_before(full[j], full[i]));
            assert(full[i] != full[j]);
        }
        assert forall|e: (u32, i64)| #[trigger] given.contains(e) implies ranked@.contains(e) || (
        ranked@.len() == limit && forall|i: int|
            0 <= i < ranked@.len() ==> ranks_before(#[trigger] ranked@[i], e)) by {
            to_multiset_contains(given, e);
            to_multiset_contains(full, e);
            let p = choose|p: int| 0 <= p < full.len() && full[p] == e;
            if p < ranked@.len() {
                assert(ranked@[p] == e);
            } else {
                assert forall|i: int| 0 <= i < ranked@.len() implies ranks_before(
                    #[trigger] ranked@[i],
                    e,
                ) by {
                    assert(!ranks_before(full[p], full[i]));
                    assert(full[i] != full[p]);
                }
            }
        }
    }
    ranked
}

} // verus!
