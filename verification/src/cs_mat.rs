//! Compressed sparse matrices, and tools that select their lanes and renumber
//! their inner indices.
//!
//! A compressed matrix stores its values lane by lane. A lane is a row of a
//! row-major matrix and a column of a column-major one; the outer dimension
//! counts the lanes, the inner dimension bounds the indices inside a lane.

use vstd::prelude::*;
use crate::pairs::IndexValuePairs;

verus! {

/// The index and value pairs of lane `i` of a compressed layout.
pub open spec fn lane_of<V>(indptr: Seq<usize>, indices: Seq<u32>, data: Seq<V>, i: int) -> Seq<
    (u32, V),
> {
    Seq::new(
        (indptr[i + 1] - indptr[i]) as nat,
        |k: int| (indices[indptr[i] + k], data[indptr[i] + k]),
    )
}

/// Whether the indices of lane `i` strictly increase and stay below `inner`.
pub open spec fn lane_valid(indptr: Seq<usize>, indices: Seq<u32>, i: int, inner: int) -> bool {
    &&& indptr[i] <= indptr[i + 1] <= indices.len()
    &&& forall|a: int| indptr[i] <= a < indptr[i + 1] ==> (#[trigger] indices[a]) < inner
    &&& forall|a: int, b: int|
        indptr[i] <= a < b < indptr[i + 1] ==> (#[trigger] indices[a]) < (#[trigger] indices[b])
}

/// Whether offsets, indices and a number of values form a compressed layout
/// with `outer` lanes and inner indices below `inner`.
pub open spec fn compressed_ok(
    outer: int,
    inner: int,
    indptr: Seq<usize>,
    indices: Seq<u32>,
    n_data: int,
) -> bool {
    &&& indptr.len() == outer + 1
    &&& indptr[0] == 0
    &&& indptr[outer] == indices.len()
    &&& indices.len() == n_data
    &&& forall|i: int| 0 <= i < outer ==> #[trigger] lane_valid(indptr, indices, i, inner)
}

/// A compressed sparse matrix.
#[derive(Clone, Debug, PartialEq)]
pub struct CsMat<V> {
    csr: bool,
    outer_dims: usize,
    inner_dims: usize,
    indptr: Vec<usize>,
    indices: Vec<u32>,
    data: Vec<V>,
}

impl<V> CsMat<V> {
    /// Whether the lanes are rows.
    pub closed spec fn is_csr_spec(&self) -> bool {
        self.csr
    }

    /// The number of lanes.
    pub closed spec fn outer_dims_spec(&self) -> usize {
        self.outer_dims
    }

    /// The bound of the indices inside a lane.
    pub closed spec fn inner_dims_spec(&self) -> usize {
        self.inner_dims
    }

    /// The offsets of the lanes.
    pub closed spec fn indptr_spec(&self) -> Seq<usize> {
        self.indptr@
    }

    /// The inner indices, lane after lane.
    pub closed spec fn indices_spec(&self) -> Seq<u32> {
        self.indices@
    }

    /// The values, lane after lane.
    pub closed spec fn data_spec(&self) -> Seq<V> {
        self.data@
    }

    /// The invariant of the type.
    pub open spec fn wf(&self) -> bool {
        compressed_ok(
            self.outer_dims_spec() as int,
            self.inner_dims_spec() as int,
            self.indptr_spec(),
            self.indices_spec(),
            self.data_spec().len() as int,
        )
    }

    /// The index and value pairs of lane `i`.
    pub open spec fn lane(&self, i: int) -> Seq<(u32, V)> {
        lane_of(self.indptr_spec(), self.indices_spec(), self.data_spec(), i)
    }

    /// Whether two matrices are the same in every part.
    pub open spec fn same_as(&self, other: &CsMat<V>) -> bool {
        &&& self.is_csr_spec() == other.is_csr_spec()
        &&& self.outer_dims_spec() == other.outer_dims_spec()
        &&& self.inner_dims_spec() == other.inner_dims_spec()
        &&& self.indptr_spec() == other.indptr_spec()
        &&& self.indices_spec() == other.indices_spec()
        &&& self.data_spec() == other.data_spec()
    }

    /// Builds a row-major matrix of the given shape `(rows, columns)` from a
    /// compressed layout.
    pub fn new(shape: (usize, usize), indptr: Vec<usize>, indices: Vec<u32>, data: Vec<V>) -> (m:
        Self)
        requires
            compressed_ok(shape.0 as int, shape.1 as int, indptr@, indices@, data@.len() as int),
        ensures
            m.wf(),
            m.is_csr_spec(),
            m.outer_dims_spec() == shape.0,
            m.inner_dims_spec() == shape.1,
            m.indptr_spec() == indptr@,
            m.indices_spec() == indices@,
            m.data_spec() == data@,
    {
        CsMat { csr: true, outer_dims: shape.0, inner_dims: shape.1, indptr, indices, data }
    }

    /// Builds a row-major matrix of the given shape `(rows, columns)` from a
    /// compressed layout, after checking the layout: there is one offset more
    /// than there are rows; the offsets start at zero, do not decrease and end
    /// at the number of indices, which is the number of values; and between
    /// two offsets the indices strictly increase and stay below the number of
    /// columns.
    pub fn try_new(shape: (usize, usize), indptr: Vec<usize>, indices: Vec<u32>, data: Vec<V>) -> (r:
        Option<Self>)
        ensures
            r is Some <==> compressed_ok(
                shape.0 as int,
                shape.1 as int,
                indptr@,
                indices@,
                data@.len() as int,
            ),
            r matches Some(m) ==> {
                &&& m.wf()
                &&& m.is_csr_spec()
                &&& m.outer_dims_spec() == shape.0
                &&& m.inner_dims_spec() == shape.1
                &&& m.indptr_spec() == indptr@
                &&& m.indices_spec() == indices@
                &&& m.data_spec() == data@
            },
    {
        let outer = shape.0;
        let inner = shape.1;
        let n = indices.len();
        if indptr.len() == 0 || indptr.len() - 1 != outer {
            return None;
        }
        if indptr[0] != 0 || indptr[outer] != n || data.len() != n {
            return None;
        }
        let mut i: usize = 0;
        while i < outer
            invariant
                outer == shape.0,
                inner == shape.1,
                indptr@.len() == outer + 1,
                n == indices@.len(),
                i <= outer,
                forall|t: int| 0 <= t < i ==> #[trigger] lane_valid(indptr@, indices@, t, inner as int),
            decreases outer - i,
        {
            let from = indptr[i];
            let to = indptr[i + 1];
            if from > to || to > n {
                assert(!lane_valid(indptr@, indices@, i as int, inner as int));
                return None;
            }
            let mut k: usize = from;
            while k < to
                invariant
                    outer == shape.0,
                    inner == shape.1,
                    from <= k <= to <= n,
                    n == indices@.len(),
                    i < outer,
                    indptr@.len() == outer + 1,
                    from == indptr@[i as int],
                    to == indptr@[i + 1],
                    forall|a: int| from <= a < k ==> (#[trigger] indices@[a]) < inner,
                    forall|a: int, b: int|
                        from <= a < b < k ==> (#[trigger] indices@[a]) < (#[trigger] indices@[b]),
                decreases to - k,
            {
                if indices[k] as usize >= inner {
                    assert(!lane_valid(indptr@, indices@, i as int, inner as int));
                    return None;
                }
                if k > from && indices[k - 1] >= indices[k] {
                    assert(!lane_valid(indptr@, indices@, i as int, inner as int)) by {
                        if lane_valid(indptr@, indices@, i as int, inner as int) {
                            assert(indices@[k - 1] < indices@[k as int]);
                        }
                    }
                    return None;
                }
                proof {
                    assert forall|a: int, b: int| from <= a < b < k + 1 implies (
                    #[trigger] indices@[a]) < (#[trigger] indices@[b]) by {
                        if b == k && a < k - 1 {
                            assert(indices@[a] < indices@[k - 1]);
                        }
                    }
                }
                k += 1;
            }
            assert(lane_valid(indptr@, indices@, i as int, inner as int));
            i += 1;
        }
        Some(CsMat { csr: true, outer_dims: outer, inner_dims: inner, indptr, indices, data })
    }

    /// The transposed matrix: the same layout, read with rows and columns
    /// exchanged.
    pub fn transpose_into(self) -> (m: Self)
        ensures
            m.is_csr_spec() == !self.is_csr_spec(),
            m.outer_dims_spec() == self.outer_dims_spec(),
            m.inner_dims_spec() == self.inner_dims_spec(),
            m.indptr_spec() == self.indptr_spec(),
            m.indices_spec() == self.indices_spec(),
            m.data_spec() == self.data_spec(),
    {
        CsMat {
            csr: !self.csr,
            outer_dims: self.outer_dims,
            inner_dims: self.inner_dims,
            indptr: self.indptr,
            indices: self.indices,
            data: self.data,
        }
    }

    /// Whether the lanes are rows.
    pub fn is_csr(&self) -> (b: bool)
        ensures
            b == self.is_csr_spec(),
    {
        self.csr
    }

    /// The number of lanes.
    pub fn outer_dims(&self) -> (n: usize)
        ensures
            n == self.outer_dims_spec(),
    {
        self.outer_dims
    }

    /// The bound of the indices inside a lane.
    pub fn inner_dims(&self) -> (n: usize)
        ensures
            n == self.inner_dims_spec(),
    {
        self.inner_dims
    }

    /// The number of rows.
    pub fn rows(&self) -> (n: usize)
        ensures
            n == if self.is_csr_spec() {
                self.outer_dims_spec()
            } else {
                self.inner_dims_spec()
            },
    {
        if self.csr {
            self.outer_dims
        } else {
            self.inner_dims
        }
    }

    /// The number of columns.
    pub fn cols(&self) -> (n: usize)
        ensures
            n == if self.is_csr_spec() {
                self.inner_dims_spec()
            } else {
                self.outer_dims_spec()
            },
    {
        if self.csr {
            self.inner_dims
        } else {
            self.outer_dims
        }
    }

    /// The number of stored values.
    pub fn nnz(&self) -> (n: usize)
        ensures
            n == self.data_spec().len(),
    {
        self.data.len()
    }

    /// The offsets of the lanes.
    pub fn indptr(&self) -> (r: &Vec<usize>)
        ensures
            r@ == self.indptr_spec(),
    {
        &self.indptr
    }

    /// The inner indices, lane after lane.
    pub fn indices(&self) -> (r: &Vec<u32>)
        ensures
            r@ == self.indices_spec(),
    {
        &self.indices
    }

    /// The values, lane after lane.
    pub fn data(&self) -> (r: &Vec<V>)
        ensures
            r@ == self.data_spec(),
    {
        &self.data
    }

    /// The offsets, the inner indices and the values.
    pub fn into_raw_storage(self) -> (r: (Vec<usize>, Vec<u32>, Vec<V>))
        ensures
            r.0@ == self.indptr_spec(),
            r.1@ == self.indices_spec(),
            r.2@ == self.data_spec(),
    {
        (self.indptr, self.indices, self.data)
    }
}

/// A lane that lies before the end of a layout is not changed by what is
/// appended to the layout.
pub proof fn lemma_lane_prefix<V>(
    indptr: Seq<usize>,
    indices: Seq<u32>,
    data: Seq<V>,
    indptr2: Seq<usize>,
    indices2: Seq<u32>,
    data2: Seq<V>,
    i: int,
    inner: int,
)
    requires
        0 <= i < indptr.len() - 1,
        indptr.len() <= indptr2.len(),
        indptr[i] <= indptr[i + 1] <= indices.len(),
        indices.len() == data.len(),
        indices.len() <= indices2.len(),
        data.len() <= data2.len(),
        forall|k: int| 0 <= k < indptr.len() ==> indptr2[k] == indptr[k],
        forall|k: int| 0 <= k < indices.len() ==> indices2[k] == indices[k],
        forall|k: int| 0 <= k < data.len() ==> data2[k] == data[k],
    ensures
        lane_of(indptr2, indices2, data2, i) == lane_of(indptr, indices, data, i),
        lane_valid(indptr, indices, i, inner) ==> lane_valid(indptr2, indices2, i, inner),
{
    assert(lane_of(indptr2, indices2, data2, i) =~= lane_of(indptr, indices, data, i));
    if lane_valid(indptr, indices, i, inner) {
        assert forall|a: int| indptr2[i] <= a < indptr2[i + 1] implies (#[trigger] indices2[a])
            < inner by {
            assert(indices[a] < inner);
        }
        assert forall|a: int, b: int| indptr2[i] <= a < b < indptr2[i + 1] implies (
        #[trigger] indices2[a]) < (#[trigger] indices2[b]) by {
            assert(indices[a] < indices[b]);
        }
    }
}

/// Builds a row-major matrix with `n_col` columns whose rows are the given
/// lists of pairs. Each list must be a sparse vector of length `n_col`.
pub fn csrmat_from_index_value_pair_lists<V: Copy>(
    pair_lists: Vec<Vec<(u32, V)>>,
    n_col: usize,
) -> (m: CsMat<V>)
    requires
        forall|i: int|
            0 <= i < pair_lists@.len() ==> crate::pairs::is_valid_index_seq(
                (#[trigger] pair_lists@[i]).index_seq(),
                n_col as int,
            ),
    ensures
        m.wf(),
        m.is_csr_spec(),
        m.outer_dims_spec() == pair_lists@.len(),
        m.inner_dims_spec() == n_col,
        forall|i: int| 0 <= i < pair_lists@.len() ==> #[trigger] m.lane(i) == pair_lists@[i]@,
{
    let n_row = pair_lists.len();
    let mut indptr: Vec<usize> = Vec::with_capacity(n_row.saturating_add(1));
    let mut indices: Vec<u32> = Vec::new();
    let mut data: Vec<V> = Vec::new();

    indptr.push(0);
    let mut r: usize = 0;
    while r < n_row
        invariant
            n_row == pair_lists@.len(),
            forall|i: int|
                0 <= i < pair_lists@.len() ==> crate::pairs::is_valid_index_seq(
                    (#[trigger] pair_lists@[i]).index_seq(),
                    n_col as int,
                ),
            r <= n_row,
            indptr@.len() == r + 1,
            indptr@[0] == 0,
            indptr@[r as int] == indices@.len(),
            indices@.len() == data@.len(),
            forall|i: int| 0 <= i < r ==> #[trigger] lane_valid(indptr@, indices@, i, n_col as int),
            forall|i: int|
                0 <= i < r ==> #[trigger] lane_of(indptr@, indices@, data@, i) == pair_lists@[i]@,
        decreases n_row - r,
    {
        let row = &pair_lists[r];
        let n = row.len();
        let ghost start = indices@.len();
        let ghost indptr0 = indptr@;
        let ghost indices0 = indices@;
        let ghost data0 = data@;
        let ghost ids = row.index_seq();
        let mut k: usize = 0;
        while k < n
            invariant
                n == row@.len(),
                ids == row.index_seq(),
                crate::pairs::is_valid_index_seq(ids, n_col as int),
                k <= n,
                indices@.len() == start + k,
                data@.len() == start + k,
                indices0.len() == start,
                data0.len() == start,
                forall|j: int| 0 <= j < start ==> indices@[j] == indices0[j],
                forall|j: int| 0 <= j < start ==> data@[j] == data0[j],
                forall|j: int|
                    0 <= j < k ==> (#[trigger] indices@[start + j]) == row@[j].0 && data@[start + j]
                        == row@[j].1,
            decreases n - k,
        {
            let (i, v) = row[k];
            indices.push(i);
            data.push(v);
            k += 1;
        }
        indptr.push(indices.len());
        proof {
            assert forall|i: int| 0 <= i < r implies #[trigger] lane_valid(
                indptr@,
                indices@,
                i,
                n_col as int,
            ) by {
                assert(lane_valid(indptr0, indices0, i, n_col as int));
                lemma_lane_prefix(indptr0, indices0, data0, indptr@, indices@, data@, i, n_col as int);
            }
            assert forall|i: int| 0 <= i < r implies #[trigger] lane_of(
                indptr@,
                indices@,
                data@,
                i,
            ) == pair_lists@[i]@ by {
                assert(lane_valid(indptr0, indices0, i, n_col as int));
                assert(lane_of(indptr0, indices0, data0, i) == pair_lists@[i]@);
                lemma_lane_prefix(indptr0, indices0, data0, indptr@, indices@, data@, i, n_col as int);
            }
            assert(lane_of(indptr@, indices@, data@, r as int) =~= row@) by {
                assert forall|j: int| 0 <= j < n implies lane_of(indptr@, indices@, data@, r as int)[j]
                    == row@[j] by {
                    assert(indices@[start + j] == row@[j].0);
                }
            }
            assert(lane_valid(indptr@, indices@, r as int, n_col as int)) by {
                assert forall|a: int| indptr@[r as int] <= a < indptr@[r + 1] implies (
                #[trigger] indices@[a]) < n_col by {
                    assert(indices@[start + (a - start)] == row@[a - start].0);
                    assert(0 <= ids[a - start] < n_col);
                }
                assert forall|a: int, b: int|
                    indptr@[r as int] <= a < b < indptr@[r + 1] implies (#[trigger] indices@[a]) < (
                #[trigger] indices@[b]) by {
                    assert(indices@[start + (a - start)] == row@[a - start].0);
                    assert(indices@[start + (b - start)] == row@[b - start].0);
                    assert(ids[a - start] < ids[b - start]);
                }
            }
        }
        r += 1;
    }
    let m = CsMat::new((n_row, n_col), indptr, indices, data);
    m
}

} // verus!
