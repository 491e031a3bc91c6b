//! Sparse vectors written as lists of `(index, value)` pairs.

use vstd::prelude::*;
use crate::scalar::{Real, Scalar, square_spec};
use crate::sorting::{key_le, sort_unstable_by_key, SortKey};

verus! {

/// The position type of sparse vectors and matrices.
pub type Index = u32;

/// A sparse vector as a list of pairs.
pub type IndexValueVec<V> = Vec<(Index, V)>;

/// Whether a sequence of indices describes a sparse vector of the given
/// length: every index is below `length`, and the indices strictly increase.
/// The empty sequence is valid for every length.
pub open spec fn is_valid_index_seq(indices: Seq<int>, length: int) -> bool {
    &&& forall|i: int| 0 <= i < indices.len() ==> 0 <= #[trigger] indices[i] < length
    &&& forall|i: int, j: int| 0 <= i < j < indices.len() ==> indices[i] < indices[j]
}

/// The sum of the squares of `values`, accumulated from the first to the last.
pub open spec fn sum_squares<V: Scalar>(values: Seq<V>) -> V
    decreases values.len(),
{
    if values.len() == 0 {
        V::zero_value()
    } else {
        sum_squares(values.drop_last()).plus_spec(square_spec(values.last()))
    }
}

/// `values` with every element divided by `length`.
pub open spec fn scaled_down<V: Real>(values: Seq<V>, length: V) -> Seq<V> {
    Seq::new(values.len(), |i: int| values[i].div_spec(length))
}

/// `values` divided by their Euclidean norm, or `values` itself when the sum
/// of their squares is zero.
pub open spec fn l2_normalized<V: Real>(values: Seq<V>) -> Seq<V> {
    let total = sum_squares(values);
    if total.is_zero_spec() {
        values
    } else {
        scaled_down(values, total.sqrt_spec())
    }
}

/// Whether a pair survives pruning at `threshold`: the magnitude of its value
/// is at least the threshold.
pub open spec fn survives<V: Scalar>(value: V, threshold: V) -> bool {
    threshold.le_spec(value.abs_spec())
}

/// Read access to a list of `(index, value)` pairs.
pub trait IndexValuePairs<IndexT, ValueT> {
    /// The indices of the pairs, in order.
    spec fn index_seq(&self) -> Seq<int>;

    /// The values of the pairs, in order.
    spec fn value_seq(&self) -> Seq<ValueT>;

    /// Whether the pairs form a sparse vector of the given length.
    fn is_valid_sparse_vec(&self, length: usize) -> (valid: bool)
        ensures
            valid == is_valid_index_seq(self.index_seq(), length as int),
    ;
}

/// In-place operations on a list of `(index, value)` pairs.
pub trait IndexValuePairsMut<IndexT, ValueT>: IndexValuePairs<IndexT, ValueT> {
    /// The pairs themselves, in order.
    spec fn pair_seq(&self) -> Seq<(IndexT, ValueT)>;

    /// Rearranges the pairs so that their indices do not decrease. Pairs with
    /// equal indices end up next to each other in no particular order.
    fn sort_by_index(&mut self)
        ensures
            final(self).pair_seq().to_multiset() == old(self).pair_seq().to_multiset(),
            forall|i: int, j: int|
                0 <= i < j < final(self).index_seq().len() ==> final(self).index_seq()[i]
                    <= final(self).index_seq()[j],
    ;

    /// Divides every value by the Euclidean norm of the values. A vector whose
    /// squares sum to zero is left as it is.
    fn l2_normalize(&mut self) where ValueT: Real
        ensures
            final(self).index_seq() == old(self).index_seq(),
            final(self).value_seq() == l2_normalized(old(self).value_seq()),
    ;
}

/// Operations that change the number of pairs.
pub trait OwnedIndexValuePairs<IndexT, ValueT> {
    /// The pairs, in order.
    spec fn pairs(&self) -> Seq<(IndexT, ValueT)>;

    /// Keeps the pairs whose values have a magnitude of at least `threshold`,
    /// in their order, and removes the others.
    fn prune_with_threshold(&mut self, threshold: ValueT) where ValueT: Scalar
        ensures
            final(self).pairs() == old(self).pairs().filter(
                |p: (IndexT, ValueT)| survives(p.1, threshold),
            ),
    ;
}

impl<V> IndexValuePairs<u32, V> for Vec<(u32, V)> {
    open spec fn index_seq(&self) -> Seq<int> {
        Seq::new(self@.len(), |i: int| self@[i].0 as int)
    }

    open spec fn value_seq(&self) -> Seq<V> {
        Seq::new(self@.len(), |i: int| self@[i].1)
    }

    fn is_valid_sparse_vec(&self, length: usize) -> (valid: bool) {
        let n = self.len();
        let mut i: usize = 0;
        while i < n
            invariant
                i <= n,
                n == self@.len(),
                forall|k: int| 0 <= k < i ==> (#[trigger] self@[k]).0 < length,
                forall|a: int, b: int| 0 <= a < b < i ==> self@[a].0 < self@[b].0,
            decreases n - i,
        {
            if self[i].0 as usize >= length {
                assert(!(0 <= self.index_seq()[i as int] < length));
                return false;
            }
            if i > 0 && self[i].0 <= self[i - 1].0 {
                assert(!(self.index_seq()[i - 1] < self.index_seq()[i as int]));
                return false;
            }
            i += 1;
        }
        true
    }
}

impl<V> IndexValuePairs<usize, V> for Vec<(usize, V)> {
    open spec fn index_seq(&self) -> Seq<int> {
        Seq::new(self@.len(), |i: int| self@[i].0 as int)
    }

    open spec fn value_seq(&self) -> Seq<V> {
        Seq::new(self@.len(), |i: int| self@[i].1)
    }

    fn is_valid_sparse_vec(&self, length: usize) -> (valid: bool) {
        let n = self.len();
        let mut i: usize = 0;
        while i < n
            invariant
                i <= n,
                n == self@.len(),
                forall|k: int| 0 <= k < i ==> (#[trigger] self@[k]).0 < length,
                forall|a: int, b: int| 0 <= a < b < i ==> self@[a].0 < self@[b].0,
            decreases n - i,
        {
            if self[i].0 >= length {
                assert(!(0 <= self.index_seq()[i as int] < length));
                return false;
            }
            if i > 0 && self[i].0 <= self[i - 1].0 {
                assert(!(self.index_seq()[i - 1] < self.index_seq()[i as int]));
                return false;
            }
            i += 1;
        }
        true
    }
}

/// The sum of the squares of the values of `pairs`.
pub fn sum_of_squares<V: Scalar>(pairs: &Vec<(u32, V)>) -> (total: V)
    ensures
        total == sum_squares(pairs.value_seq()),
{
    let mut total = V::zero();
    let mut i: usize = 0;
    while i < pairs.len()
        invariant
            i <= pairs.len(),
            total == sum_squares(pairs.value_seq().take(i as int)),
        decreases pairs.len() - i,
    {
        proof {
            assert(pairs.value_seq().take(i + 1).drop_last() == pairs.value_seq().take(i as int));
        }
        let v = pairs[i].1;
        total = total.plus(v.times(v));
        i += 1;
    }
    proof {
        assert(pairs.value_seq().take(pairs.len() as int) == pairs.value_seq());
    }
    total
}

impl<V: Copy> IndexValuePairsMut<u32, V> for Vec<(u32, V)> {
    open spec fn pair_seq(&self) -> Seq<(u32, V)> {
        self@
    }

    fn sort_by_index(&mut self) {
        sort_unstable_by_key(self);
        proof {
            assert forall|i: int, j: int| 0 <= i < j < self.index_seq().len() implies self.index_seq()[i]
                <= self.index_seq()[j] by {
                assert(key_le(self@[i].key_spec(), self@[j].key_spec()));
            }
        }
    }

    fn l2_normalize(&mut self) where V: Real {
        let total = sum_of_squares(self);
        if !total.is_zero() {
            let length = total.sqrt();
            let n = self.len();
            let mut i: usize = 0;
            while i < n
                invariant
                    i <= n,
                    n == self@.len(),
                    n == old(self)@.len(),
                    self.index_seq() == old(self).index_seq(),
                    forall|k: int| 0 <= k < i ==> self@[k].1 == old(self)@[k].1.div_spec(length),
                    forall|k: int| i <= k < n ==> self@[k] == old(self)@[k],
                decreases n - i,
            {
                let (index, value) = self[i];
                self.set(i, (index, value.div(length)));
                i += 1;
            }
            assert(self.value_seq() == scaled_down(old(self).value_seq(), length));
        } else {
            assert(self.value_seq() == old(self).value_seq());
        }
    }
}

impl<IndexT: Copy, V: Copy> OwnedIndexValuePairs<IndexT, V> for Vec<(IndexT, V)> {
    open spec fn pairs(&self) -> Seq<(IndexT, V)> {
        self@
    }

    fn prune_with_threshold(&mut self, threshold: V) where V: Scalar {
        let ghost keep = |p: (IndexT, V)| survives(p.1, threshold);
        let mut kept: Vec<(IndexT, V)> = Vec::new();
        let n = self.len();
        let mut i: usize = 0;
        while i < n
            invariant
                i <= n,
                n == self@.len(),
                keep == |p: (IndexT, V)| survives(p.1, threshold),
                kept@ == self@.take(i as int).filter(keep),
            decreases n - i,
        {
            let pair = self[i];
            proof {
                assert(self@.take(i + 1).drop_last() == self@.take(i as int));
                reveal(Seq::filter);
            }
            if threshold.le(pair.1.abs()) {
                kept.push(pair);
            }
            i += 1;
        }
        proof {
            assert(self@.take(n as int) == self@);
        }
        *self = kept;
    }
}

/// Any two positions of a valid sparse vector hold different indices, the
/// later one the greater: a sequence in which some index is not below a later
/// one is not valid. This covers a vector with a repeated index and one whose
/// pairs were put out of order.
pub proof fn lemma_inversion_is_invalid(indices: Seq<int>, length: int, i: int, j: int)
    requires
        0 <= i < j < indices.len(),
        indices[i] >= indices[j],
    ensures
        !is_valid_index_seq(indices, length),
{
}

/// Exchanging the indices at two positions of a valid sparse vector gives a
/// sequence that is not valid.
pub proof fn lemma_swapped_is_invalid(indices: Seq<int>, length: int, i: int, j: int)
    requires
        is_valid_index_seq(indices, length),
        0 <= i < j < indices.len(),
    ensures
        !is_valid_index_seq(indices.update(i, indices[j]).update(j, indices[i]), length),
{
    let swapped = indices.update(i, indices[j]).update(j, indices[i]);
    assert(swapped[i] >= swapped[j]);
}

/// Writing the index of one position of a sparse vector over the index of
/// another gives a sequence that is not valid.
pub proof fn lemma_duplicated_is_invalid(indices: Seq<int>, length: int, i: int, j: int)
    requires
        0 <= i < indices.len(),
        0 <= j < indices.len(),
        i != j,
    ensures
        !is_valid_index_seq(indices.update(j, indices[i]), length),
{
    let repeated = indices.update(j, indices[i]);
    if i < j {
        assert(repeated[i] >= repeated[j]);
    } else {
        assert(repeated[j] >= repeated[i]);
    }
}

/// The squares of values that count as zero sum to a value that counts as
/// zero, where zero counts as zero and sums and products of such values do.
pub proof fn lemma_zero_squares_sum_to_zero<V: Scalar>(values: Seq<V>)
    requires
        V::zero_value().is_zero_spec(),
        forall|a: V, b: V|
            a.is_zero_spec() && b.is_zero_spec() ==> (#[trigger] a.plus_spec(b)).is_zero_spec(),
        forall|a: V, b: V|
            a.is_zero_spec() && b.is_zero_spec() ==> (#[trigger] a.times_spec(b)).is_zero_spec(),
        forall|i: int| 0 <= i < values.len() ==> (#[trigger] values[i]).is_zero_spec(),
    ensures
        sum_squares(values).is_zero_spec(),
    decreases values.len(),
{
    if values.len() > 0 {
        lemma_zero_squares_sum_to_zero(values.drop_last());
        assert(values[values.len() - 1].is_zero_spec());
    }
}

/// Normalizing leaves a zero vector as it is.
pub proof fn lemma_zero_vector_unchanged<V: Real>(values: Seq<V>)
    requires
        V::zero_value().is_zero_spec(),
        forall|a: V, b: V|
            a.is_zero_spec() && b.is_zero_spec() ==> (#[trigger] a.plus_spec(b)).is_zero_spec(),
        forall|a: V, b: V|
            a.is_zero_spec() && b.is_zero_spec() ==> (#[trigger] a.times_spec(b)).is_zero_spec(),
        forall|i: int| 0 <= i < values.len() ==> (#[trigger] values[i]).is_zero_spec(),
    ensures
        l2_normalized(values) == values,
{
    lemma_zero_squares_sum_to_zero(values);
}

} // verus!
