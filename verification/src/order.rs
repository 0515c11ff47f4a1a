//! Largest-first ordering by a size key.
use vstd::prelude::*;

verus! {

/// Something ranked by a size: a node by its bytes, a change by its
/// magnitude.
pub trait SizeKeyed: Sized {
    /// The size this value is ranked by.
    spec fn rank(&self) -> u64;

    /// The size this value is ranked by.
    fn rank_of(&self) -> (k: u64)
        ensures
            k == self.rank(),
    ;
}

/// `s` runs from the largest rank to the smallest.
pub open spec fn largest_first<T: SizeKeyed>(s: Seq<T>) -> bool {
    forall|i: int, j: int| 0 <= i < j < s.len() ==> s[i].rank() >= s[j].rank()
}

/// Whether a value has rank `k`.
pub open spec fn has_rank<T: SizeKeyed>(k: u64) -> spec_fn(T) -> bool {
    |x: T| x.rank() == k
}

/// Sorts `items` by rank, largest first, with std's stable sort.
///
/// Trusted: calls `slice::sort_by_key` with the reversed rank as the key.
/// Its documentation promises a sort that reorders the items (a permutation)
/// and is stable: items with equal keys keep their relative order. The
/// contract states exactly that: the result runs largest rank first, holds
/// the same items, and the items of each rank come in their old order.
#[verifier::external_body]
fn stable_sort_by_rank<T: SizeKeyed>(items: &mut Vec<T>)
    ensures
        largest_first(final(items)@),
        final(items)@.to_multiset() == old(items)@.to_multiset(),
        forall|k: u64| #[trigger] final(items)@.filter(has_rank::<T>(k)) == old(items)@.filter(
            has_rank::<T>(k),
        ),
{
    items.sort_by_key(|x| std::cmp::Reverse(x.rank_of()));
}

/// Reorder `items` largest rank first. Items of equal rank keep their
/// relative order.
pub fn sort_largest_first<T: SizeKeyed>(items: Vec<T>) -> (sorted: Vec<T>)
    ensures
        largest_first(sorted@),
        sorted@.to_multiset() == items@.to_multiset(),
        forall|k: u64| #[trigger] sorted@.filter(has_rank::<T>(k)) == items@.filter(has_rank::<T>(k)),
{
    let mut sorted = items;
    stable_sort_by_rank(&mut sorted);
    sorted
}

} // verus!
