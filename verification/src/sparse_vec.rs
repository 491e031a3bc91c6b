//! Sparse vectors with a declared dimension, and kernels that combine them
//! with dense vectors.

use vstd::prelude::*;
use crate::pairs::{is_valid_index_seq, sum_squares};
use crate::scalar::{lt_spec, Real, Scalar};

verus! {

/// A dense vector.
pub type DenseVec<V> = Vec<V>;

/// The place of `target` in `indices`, if it occurs there.
pub open spec fn position_of(indices: Seq<int>, target: int) -> Option<int> {
    if exists|k: int| 0 <= k < indices.len() && indices[k] == target {
        Some(choose|k: int| 0 <= k < indices.len() && indices[k] == target)
    } else {
        None
    }
}

/// In a sequence without repeated entries, an entry is found at its own place.
pub proof fn lemma_position_of_unique(indices: Seq<int>, k: int)
    requires
        0 <= k < indices.len(),
        forall|i: int, j: int| 0 <= i < j < indices.len() ==> indices[i] < indices[j],
    ensures
        position_of(indices, indices[k]) == Some(k),
{
    let found = choose|j: int| 0 <= j < indices.len() && indices[j] == indices[k];
    if found < k {
        assert(indices[found] < indices[k]);
    } else if k < found {
        assert(indices[k] < indices[found]);
    }
}

/// The dense vector of length `dim` that holds `values[k]` at `indices[k]`
/// and zero elsewhere.
pub open spec fn scattered<V: Scalar>(indices: Seq<int>, values: Seq<V>, dim: nat) -> Seq<V> {
    Seq::new(
        dim,
        |i: int|
            match position_of(indices, i) {
                Some(k) => values[k],
                None => V::zero_value(),
            },
    )
}

/// `dense` after `values[k].times(scale)` was added at `indices[k]`, for every `k`.
pub open spec fn with_scaled_added<V: Scalar>(
    dense: Seq<V>,
    indices: Seq<int>,
    values: Seq<V>,
    scale: V,
) -> Seq<V> {
    Seq::new(
        dense.len(),
        |i: int|
            match position_of(indices, i) {
                Some(k) => dense[i].plus_spec(values[k].times_spec(scale)),
                None => dense[i],
            },
    )
}

/// `dense` after `values[k]` was added at `indices[k]`, for every `k`.
pub open spec fn with_added<V: Scalar>(dense: Seq<V>, indices: Seq<int>, values: Seq<V>) -> Seq<V> {
    Seq::new(
        dense.len(),
        |i: int|
            match position_of(indices, i) {
                Some(k) => dense[i].plus_spec(values[k]),
                None => dense[i],
            },
    )
}

/// The dot product of a sparse vector with a dense one, accumulated over the
/// stored entries from the first to the last.
pub open spec fn sparse_dot_dense<V: Scalar>(indices: Seq<int>, values: Seq<V>, dense: Seq<V>) -> V
    decreases values.len(),
{
    if values.len() == 0 || indices.len() != values.len() {
        V::zero_value()
    } else {
        sparse_dot_dense(indices.drop_last(), values.drop_last(), dense).plus_spec(
            values.last().times_spec(dense[indices.last()]),
        )
    }
}

/// The smallest norm that `dense_vec_l2_normalize` divides by: one part in a
/// hundred thousand.
pub open spec fn norm_floor<V: Real>() -> V {
    V::from_count_spec(1).div_spec(V::from_count_spec(100_000))
}

/// A dense vector divided by its Euclidean norm, or the zero vector of the same
/// length when the norm is not above `norm_floor`.
pub open spec fn dense_l2_normalized<V: Real>(values: Seq<V>) -> Seq<V> {
    let length = sum_squares(values).sqrt_spec();
    if lt_spec(norm_floor::<V>(), length) {
        Seq::new(values.len(), |i: int| values[i].div_spec(length))
    } else {
        Seq::new(values.len(), |i: int| V::zero_value())
    }
}

/// The place of the greatest of `values`, the last one among equals. The scan
/// keeps the later of two values unless the earlier one is not below it.
pub open spec fn last_max_position<V: Scalar>(values: Seq<V>) -> int
    decreases values.len(),
{
    if values.len() <= 1 {
        0
    } else {
        let best = last_max_position(values.drop_last());
        if values[best].le_spec(values.last()) {
            values.len() - 1
        } else {
            best
        }
    }
}

/// A sparse vector: strictly increasing indices below a declared dimension,
/// each with a value.
#[derive(Clone, Debug, PartialEq)]
pub struct SparseVec<V> {
    dim: usize,
    indices: Vec<u32>,
    data: Vec<V>,
}

impl<V> SparseVec<V> {
    /// The declared dimension.
    pub closed spec fn dim_spec(&self) -> usize {
        self.dim
    }

    /// The stored indices, in order.
    pub closed spec fn index_seq(&self) -> Seq<int> {
        Seq::new(self.indices@.len(), |i: int| self.indices@[i] as int)
    }

    /// The stored values, in the order of their indices.
    pub closed spec fn value_seq(&self) -> Seq<V> {
        self.data@
    }

    /// The invariant of the type.
    pub open spec fn wf(&self) -> bool {
        &&& self.index_seq().len() == self.value_seq().len()
        &&& is_valid_index_seq(self.index_seq(), self.dim_spec() as int)
    }

    /// Whether `indices` and `data` describe a sparse vector of dimension `dim`.
    pub open spec fn valid_parts(dim: usize, indices: Seq<u32>, data: Seq<V>) -> bool {
        &&& indices.len() == data.len()
        &&& is_valid_index_seq(Seq::new(indices.len(), |i: int| indices[i] as int), dim as int)
    }

    /// Builds a sparse vector from indices and values that are known to fit
    /// together.
    pub fn new(dim: usize, indices: Vec<u32>, data: Vec<V>) -> (v: Self)
        requires
            Self::valid_parts(dim, indices@, data@),
        ensures
            v.wf(),
            v.dim_spec() == dim,
            v.index_seq() == Seq::new(indices@.len(), |i: int| indices@[i] as int),
            v.value_seq() == data@,
    {
        SparseVec { dim, indices, data }
    }

    /// Builds a sparse vector after checking that the indices strictly increase
    /// and stay below `dim`, and that there is one value for each.
    pub fn try_new(dim: usize, indices: Vec<u32>, data: Vec<V>) -> (r: Option<Self>)
        ensures
            r is Some <==> Self::valid_parts(dim, indices@, data@),
            r matches Some(v) ==> {
                &&& v.wf()
                &&& v.dim_spec() == dim
                &&& v.index_seq() == Seq::new(indices@.len(), |i: int| indices@[i] as int)
                &&& v.value_seq() == data@
            },
    {
        if indices.len() != data.len() {
            return None;
        }
        let ghost ints = Seq::new(indices@.len(), |i: int| indices@[i] as int);
        let n = indices.len();
        let mut i: usize = 0;
        while i < n
            invariant
                i <= n,
                n == indices@.len(),
                ints == Seq::new(indices@.len(), |i: int| indices@[i] as int),
                forall|k: int| 0 <= k < i ==> #[trigger] indices@[k] < dim,
                forall|a: int, b: int| 0 <= a < b < i ==> indices@[a] < indices@[b],
            decreases n - i,
        {
            if indices[i] as usize >= dim {
                assert(!(0 <= ints[i as int] < dim));
                return None;
            }
            if i > 0 && indices[i] <= indices[i - 1] {
                assert(!(ints[i - 1] < ints[i as int]));
                return None;
            }
            i += 1;
        }
        assert(is_valid_index_seq(ints, dim as int)) by {
            assert forall|k: int| 0 <= k < ints.len() implies 0 <= #[trigger] ints[k] < dim by {
                assert(indices@[k] < dim);
            }
        }
        Some(SparseVec { dim, indices, data })
    }

    /// The declared dimension.
    pub fn dim(&self) -> (d: usize)
        ensures
            d == self.dim_spec(),
    {
        self.dim
    }

    /// The number of stored entries.
    pub fn nnz(&self) -> (n: usize)
        ensures
            n == self.value_seq().len(),
    {
        self.data.len()
    }

    /// The stored indices.
    pub fn indices(&self) -> (r: &Vec<u32>)
        ensures
            r@.len() == self.index_seq().len(),
            forall|i: int| 0 <= i < r@.len() ==> r@[i] as int == self.index_seq()[i],
    {
        &self.indices
    }

    /// The stored values.
    pub fn data(&self) -> (r: &Vec<V>)
        ensures
            r@ == self.value_seq(),
    {
        &self.data
    }
}

impl<V: Scalar> SparseVec<V> {
    /// The vector written out in full.
    pub fn to_dense(&self) -> (dense: Vec<V>)
        requires
            self.wf(),
        ensures
            dense@ == scattered(self.index_seq(), self.value_seq(), self.dim_spec() as nat),
    {
        let mut dense: Vec<V> = Vec::new();
        let mut i: usize = 0;
        while i < self.dim
            invariant
                i <= self.dim,
                dense@.len() == i,
                forall|j: int| 0 <= j < i ==> dense@[j] == V::zero_value(),
            decreases self.dim - i,
        {
            dense.push(V::zero());
            i += 1;
        }
        let ghost indices = self.index_seq();
        let mut k: usize = 0;
        while k < self.indices.len()
            invariant
                self.wf(),
                indices == self.index_seq(),
                k <= self.indices@.len(),
                dense@.len() == self.dim,
                dense@ == scattered(indices.take(k as int), self.value_seq().take(k as int), self.dim as nat),
            decreases self.indices@.len() - k,
        {
            let at = self.indices[k] as usize;
            assert(indices[k as int] == at);
            dense.set(at, self.data[k]);
            proof {
                let next = indices.take(k + 1);
                assert forall|i: int| 0 <= i < self.dim implies dense@[i] == scattered(
                    next,
                    self.value_seq().take(k + 1),
                    self.dim as nat,
                )[i] by {
                    lemma_position_of_extended(indices, k as int, i);
                }
            }
            k += 1;
        }
        proof {
            assert(indices.take(k as int) == indices);
            assert(self.value_seq().take(k as int) == self.value_seq());
        }
        dense
    }

    /// The dot product with a dense vector of the same dimension.
    pub fn dot_dense(&self, dense: &Vec<V>) -> (r: V)
        requires
            self.wf(),
            dense@.len() == self.dim_spec(),
        ensures
            r == sparse_dot_dense(self.index_seq(), self.value_seq(), dense@),
    {
        let ghost indices = self.index_seq();
        let ghost values = self.value_seq();
        let mut total = V::zero();
        let mut k: usize = 0;
        while k < self.indices.len()
            invariant
                self.wf(),
                indices == self.index_seq(),
                values == self.value_seq(),
                dense@.len() == self.dim_spec(),
                k <= self.indices@.len(),
                total == sparse_dot_dense(indices.take(k as int), values.take(k as int), dense@),
            decreases self.indices@.len() - k,
        {
            let at = self.indices[k] as usize;
            proof {
                assert(indices[k as int] == at);
                assert(indices.take(k + 1).drop_last() == indices.take(k as int));
                assert(values.take(k + 1).drop_last() == values.take(k as int));
            }
            total = total.plus(self.data[k].times(dense[at]));
            k += 1;
        }
        proof {
            assert(indices.take(k as int) == indices);
            assert(values.take(k as int) == values);
        }
        total
    }
}

/// The dot product of a sparse vector with itself: the sum of the squares of
/// its stored values.
pub fn csvec_dot_self<V: Scalar>(vec: &SparseVec<V>) -> (prod: V)
    ensures
        prod == sum_squares(vec.value_seq()),
{
    let data = vec.data();
    let mut prod = V::zero();
    let mut i: usize = 0;
    while i < data.len()
        invariant
            i <= data@.len(),
            prod == sum_squares(data@.take(i as int)),
        decreases data@.len() - i,
    {
        proof {
            assert(data@.take(i + 1).drop_last() == data@.take(i as int));
        }
        let val = data[i];
        prod = prod.plus(val.times(val));
        i += 1;
    }
    proof {
        assert(data@.take(i as int) == data@);
    }
    prod
}

/// Adds a sparse vector to a dense vector of the same dimension, in place.
pub fn dense_add_assign_csvec<V: Scalar>(dense_vec: &mut Vec<V>, csvec: &SparseVec<V>)
    requires
        csvec.wf(),
        old(dense_vec)@.len() == csvec.dim_spec(),
    ensures
        final(dense_vec)@ == with_added(old(dense_vec)@, csvec.index_seq(), csvec.value_seq()),
{
    let ghost indices = csvec.index_seq();
    let ghost values = csvec.value_seq();
    let ghost before = dense_vec@;
    let n = csvec.nnz();
    let mut k: usize = 0;
    while k < n
        invariant
            csvec.wf(),
            indices == csvec.index_seq(),
            values == csvec.value_seq(),
            n == values.len(),
            k <= n,
            before.len() == csvec.dim_spec(),
            dense_vec@ == with_added(before, indices.take(k as int), values.take(k as int)),
        decreases n - k,
    {
        let at = csvec.indices()[k] as usize;
        let v = csvec.data()[k];
        assert(indices[k as int] == at);
        proof {
            lemma_position_of_extended(indices, k as int, at as int);
            if position_of(indices.take(k as int), at as int) is Some {
                let h = position_of(indices.take(k as int), at as int).unwrap();
                assert(indices[h] < indices[k as int]);
            }
        }
        let sum = dense_vec[at].plus(v);
        dense_vec.set(at, sum);
        proof {
            assert forall|i: int| 0 <= i < before.len() implies dense_vec@[i] == with_added(
                before,
                indices.take(k + 1),
                values.take(k + 1),
            )[i] by {
                lemma_position_of_extended(indices, k as int, i);
            }
        }
        k += 1;
    }
    proof {
        assert(indices.take(k as int) == indices);
        assert(values.take(k as int) == values);
    }
}

/// Adds `scalar` times a sparse vector to a dense vector of the same
/// dimension, in place.
pub fn dense_add_assign_csvec_mul_scalar<V: Scalar>(
    dense_vec: &mut Vec<V>,
    csvec: &SparseVec<V>,
    scalar: V,
)
    requires
        csvec.wf(),
        old(dense_vec)@.len() == csvec.dim_spec(),
    ensures
        final(dense_vec)@ == with_scaled_added(
            old(dense_vec)@,
            csvec.index_seq(),
            csvec.value_seq(),
            scalar,
        ),
{
    let ghost indices = csvec.index_seq();
    let ghost values = csvec.value_seq();
    let ghost before = dense_vec@;
    let n = csvec.nnz();
    let mut k: usize = 0;
    while k < n
        invariant
            csvec.wf(),
            indices == csvec.index_seq(),
            values == csvec.value_seq(),
            n == values.len(),
            k <= n,
            before.len() == csvec.dim_spec(),
            dense_vec@ == with_scaled_added(
                before,
                indices.take(k as int),
                values.take(k as int),
                scalar,
            ),
        decreases n - k,
    {
        let at = csvec.indices()[k] as usize;
        let v = csvec.data()[k];
        assert(indices[k as int] == at);
        proof {
            lemma_position_of_extended(indices, k as int, at as int);
            if position_of(indices.take(k as int), at as int) is Some {
                let h = position_of(indices.take(k as int), at as int).unwrap();
                assert(indices[h] < indices[k as int]);
            }
        }
        let sum = dense_vec[at].plus(v.times(scalar));
        dense_vec.set(at, sum);
        proof {
            assert forall|i: int| 0 <= i < before.len() implies dense_vec@[i] == with_scaled_added(
                before,
                indices.take(k + 1),
                values.take(k + 1),
                scalar,
            )[i] by {
                lemma_position_of_extended(indices, k as int, i);
            }
        }
        k += 1;
    }
    proof {
        assert(indices.take(k as int) == indices);
        assert(values.take(k as int) == values);
    }
}

/// The sum of the squares of a dense vector.
pub fn dense_dot_self<V: Scalar>(vec: &Vec<V>) -> (prod: V)
    ensures
        prod == sum_squares(vec@),
{
    let mut prod = V::zero();
    let mut i: usize = 0;
    while i < vec.len()
        invariant
            i <= vec@.len(),
            prod == sum_squares(vec@.take(i as int)),
        decreases vec@.len() - i,
    {
        proof {
            assert(vec@.take(i + 1).drop_last() == vec@.take(i as int));
        }
        let val = vec[i];
        prod = prod.plus(val.times(val));
        i += 1;
    }
    proof {
        assert(vec@.take(i as int) == vec@);
    }
    prod
}

/// Divides a dense vector by its Euclidean norm, in place. A vector whose norm
/// is not above one part in a hundred thousand is set to zero instead.
pub fn dense_vec_l2_normalize<V: Real>(vec: &mut Vec<V>)
    ensures
        final(vec)@ == dense_l2_normalized(old(vec)@),
{
    let length = dense_dot_self(vec).sqrt();
    let floor = V::from_count(1).div(V::from_count(100_000));
    let divide = floor.le(length) && !length.le(floor);
    let n = vec.len();
    let mut i: usize = 0;
    while i < n
        invariant
            i <= n,
            n == vec@.len(),
            n == old(vec)@.len(),
            forall|k: int|
                0 <= k < i ==> vec@[k] == if divide {
                    old(vec)@[k].div_spec(length)
                } else {
                    V::zero_value()
                },
            forall|k: int| i <= k < n ==> vec@[k] == old(vec)@[k],
        decreases n - i,
    {
        if divide {
            let scaled = vec[i].div(length);
            vec.set(i, scaled);
        } else {
            vec.set(i, V::zero());
        }
        i += 1;
    }
}

/// The greatest value of a dense vector and its place, or `None` for an empty
/// vector. Where the greatest value occurs more than once, the last place is
/// returned. Every value must be one that can be compared: it is at most
/// itself.
pub fn find_max<V: Scalar>(arr: &Vec<V>) -> (r: Option<(V, usize)>)
    requires
        forall|i: int| 0 <= i < arr@.len() ==> (#[trigger] arr@[i]).le_spec(arr@[i]),
    ensures
        r is None <==> arr@.len() == 0,
        r matches Some((value, at)) ==> {
            &&& at == last_max_position(arr@)
            &&& at < arr@.len()
            &&& value == arr@[at as int]
        },
{
    if arr.len() == 0 {
        return None;
    }
    let mut best: usize = 0;
    let mut i: usize = 1;
    assert(arr@.take(1).len() == 1);
    while i < arr.len()
        invariant
            1 <= i <= arr@.len(),
            best < i,
            best == last_max_position(arr@.take(i as int)),
        decreases arr@.len() - i,
    {
        proof {
            assert(arr@.take(i + 1).drop_last() == arr@.take(i as int));
        }
        if arr[best].le(arr[i]) {
            best = i;
        }
        i += 1;
    }
    proof {
        assert(arr@.take(i as int) == arr@);
    }
    Some((arr[best], best))
}

/// Where any two of the values can be compared and the comparison is
/// transitive, the value that `find_max` returns is a greatest one, and it is
/// the last of the greatest: every value is at most as large, and every value
/// behind it is smaller.
pub proof fn lemma_last_max_is_greatest<V: Scalar>(values: Seq<V>)
    requires
        values.len() > 0,
        forall|i: int, j: int|
            0 <= i < values.len() && 0 <= j < values.len() ==> (#[trigger] values[i]).le_spec(
                #[trigger] values[j],
            ) || values[j].le_spec(values[i]),
        forall|i: int, j: int, k: int|
            0 <= i < values.len() && 0 <= j < values.len() && 0 <= k < values.len() && (
            #[trigger] values[i]).le_spec(#[trigger] values[j]) && values[j].le_spec(
                #[trigger] values[k],
            ) ==> values[i].le_spec(values[k]),
    ensures
        0 <= last_max_position(values) < values.len(),
        forall|i: int|
            0 <= i < values.len() ==> (#[trigger] values[i]).le_spec(
                values[last_max_position(values)],
            ),
        forall|i: int|
            last_max_position(values) < i < values.len() ==> !values[last_max_position(
                values,
            )].le_spec(#[trigger] values[i]),
    decreases values.len(),
{
    if values.len() > 1 {
        let head = values.drop_last();
        assert forall|i: int, j: int| 0 <= i < head.len() && 0 <= j < head.len() implies (
        #[trigger] head[i]).le_spec(#[trigger] head[j]) || head[j].le_spec(head[i]) by {
            assert(values[i].le_spec(values[j]) || values[j].le_spec(values[i]));
        }
        assert forall|i: int, j: int, k: int|
            0 <= i < head.len() && 0 <= j < head.len() && 0 <= k < head.len() && (
            #[trigger] head[i]).le_spec(#[trigger] head[j]) && head[j].le_spec(
                #[trigger] head[k],
            ) implies head[i].le_spec(head[k]) by {
            assert(values[i].le_spec(values[j]) && values[j].le_spec(values[k]));
        }
        lemma_last_max_is_greatest(head);
        let best = last_max_position(head);
        let last = values.len() - 1;
        assert(values[best] == head[best]);
        if values[best].le_spec(values[last]) {
            assert forall|i: int| 0 <= i < values.len() implies (#[trigger] values[i]).le_spec(
                values[last],
            ) by {
                if i < last {
                    assert(head[i].le_spec(head[best]));
                    assert(values[i].le_spec(values[best]) && values[best].le_spec(values[last]));
                } else {
                    assert(values[last].le_spec(values[last]) || values[last].le_spec(
                        values[last],
                    ));
                }
            }
        } else {
            assert forall|i: int| 0 <= i < values.len() implies (#[trigger] values[i]).le_spec(
                values[best],
            ) by {
                if i < last {
                    assert(head[i].le_spec(head[best]));
                } else {
                    assert(values[best].le_spec(values[last]) || values[last].le_spec(
                        values[best],
                    ));
                }
            }
            assert forall|i: int| best < i < values.len() implies !values[best].le_spec(
                #[trigger] values[i],
            ) by {
                if i < last {
                    assert(!head[best].le_spec(head[i]));
                }
            }
        }
    } else {
        assert(values[0].le_spec(values[0]) || values[0].le_spec(values[0]));
    }
}

/// Looking an index up among the first `k + 1` entries of a strictly
/// increasing sequence finds place `k` for the entry that stands there, and
/// otherwise what a look among the first `k` entries finds.
pub proof fn lemma_position_of_extended(indices: Seq<int>, k: int, target: int)
    requires
        0 <= k < indices.len(),
        forall|i: int, j: int| 0 <= i < j < indices.len() ==> indices[i] < indices[j],
    ensures
        position_of(indices.take(k + 1), target) == if target == indices[k] {
            Some(k)
        } else {
            position_of(indices.take(k), target)
        },
{
    let head = indices.take(k);
    let next = indices.take(k + 1);
    if target == indices[k] {
        assert(next[k] == target);
        lemma_position_of_unique(next, k);
    } else {
        if exists|j: int| 0 <= j < next.len() && next[j] == target {
            let j = choose|j: int| 0 <= j < next.len() && next[j] == target;
            assert(head[j] == target);
            let h = choose|h: int| 0 <= h < head.len() && head[h] == target;
            lemma_position_of_unique(next, j);
            lemma_position_of_unique(head, h);
            assert(next[h] == target);
            lemma_position_of_unique(next, h);
        } else {
            if exists|h: int| 0 <= h < head.len() && head[h] == target {
                let h = choose|h: int| 0 <= h < head.len() && head[h] == target;
                assert(next[h] == target);
            }
        }
    }
}

} // verus!
