//! Sorting and searching, as the standard library does them.
use vstd::prelude::*;

use crate::waiter::Waiter;

verus! {

/// `s` is in ascending order.
pub open spec fn ascending(s: Seq<u64>) -> bool {
    forall|i: int, j: int| 0 <= i <= j < s.len() ==> s[i] <= s[j]
}

/// `s` is ordered by start timestamp, smallest first.
pub open spec fn ordered_by_start_ts<C, R>(s: Seq<Waiter<C, R>>) -> bool {
    forall|i: int, j: int| 0 <= i <= j < s.len() ==> s[i].start_ts <= s[j].start_ts
}

/// Sorts numbers with `<[u64]>::sort_unstable`: the same numbers, as often as
/// before, in ascending order.
#[verifier::external_body]
pub(crate) fn sort_hashes(hashes: &mut Vec<u64>)
    ensures
        ascending(final(hashes)@),
        final(hashes)@.to_multiset() == old(hashes)@.to_multiset(),
{
    hashes.sort_unstable();
}

/// Looks a number up with `<[u64]>::binary_search`: the position of a match,
/// or else a position where the number can be inserted without breaking the
/// order. The search is meaningful on a sorted vector only. Which of several
/// matches is found is left open.
#[verifier::external_body]
pub(crate) fn search_hash(hashes: &Vec<u64>, hash: u64) -> (found: Result<usize, usize>)
    requires
        ascending(hashes@),
    ensures
        match found {
            Ok(i) => i < hashes@.len() && hashes@[i as int] == hash,
            Err(i) => {
                &&& i <= hashes@.len()
                &&& !hashes@.contains(hash)
                &&& ascending(hashes@.insert(i as int, hash))
            },
        },
{
    hashes.binary_search(&hash)
}

/// Sorts waiters with `<[_]>::sort_unstable_by_key` on their start timestamp:
/// the same waiters, ordered by start timestamp. The order among waiters with
/// the same start timestamp is left open.
#[verifier::external_body]
pub(crate) fn sort_by_start_ts<C, R>(waiters: &mut Vec<Waiter<C, R>>)
    ensures
        ordered_by_start_ts(final(waiters)@),
        final(waiters)@.to_multiset() == old(waiters)@.to_multiset(),
{
    waiters.sort_unstable_by_key(|waiter| waiter.start_ts);
}

} // verus!
