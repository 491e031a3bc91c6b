//! Sorting by a key of two numbers.

use vstd::prelude::*;

verus! {

/// Whether the key `a` does not come after the key `b`: the first numbers
/// decide, and the second numbers where the first are equal.
pub open spec fn key_le(a: (int, int), b: (int, int)) -> bool {
    a.0 < b.0 || (a.0 == b.0 && a.1 <= b.1)
}

/// An item that is sorted by a key of two numbers.
pub trait SortKey {
    /// The key of the item.
    spec fn key_spec(&self) -> (int, int);

    /// The key of the item.
    fn key(&self) -> (k: (usize, usize))
        ensures
            (k.0 as int, k.1 as int) == self.key_spec(),
    ;
}

/// An index is its own key.
impl SortKey for u32 {
    open spec fn key_spec(&self) -> (int, int) {
        (*self as int, 0)
    }

    fn key(&self) -> (k: (usize, usize)) {
        (*self as usize, 0)
    }
}

/// A pair of index and value is sorted by its index.
impl<V> SortKey for (u32, V) {
    open spec fn key_spec(&self) -> (int, int) {
        (self.0 as int, 0)
    }

    fn key(&self) -> (k: (usize, usize)) {
        (self.0 as usize, 0)
    }
}

/// A triplet of row, column and value is sorted by its row, then its column.
impl<V> SortKey for (usize, usize, V) {
    open spec fn key_spec(&self) -> (int, int) {
        (self.0 as int, self.1 as int)
    }

    fn key(&self) -> (k: (usize, usize)) {
        (self.0, self.1)
    }
}

/// Sorts items by their keys with `<[T]>::sort_unstable_by_key` of the
/// standard library. Its documentation promises a slice sorted by the key,
/// holding the elements it held before; the order of items with equal keys is
/// left open. Keys are tuples, which are ordered field by field.
#[verifier::external_body]
pub(crate) fn sort_unstable_by_key<T: SortKey>(items: &mut Vec<T>)
    ensures
        final(items)@.to_multiset() == old(items)@.to_multiset(),
        forall|i: int, j: int|
            0 <= i < j < final(items)@.len() ==> key_le(
                final(items)@[i].key_spec(),
                final(items)@[j].key_spec(),
            ),
{
    items.sort_unstable_by_key(|item| item.key());
}

} // verus!
