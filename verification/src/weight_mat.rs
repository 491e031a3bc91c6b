//! The weights of one group of one-vs-all classifiers, stored densely or
//! sparsely, and the feature vector that is multiplied with them.

use vstd::prelude::*;
use crate::dense_mat::DenseMat;
use crate::lil_build::columns_agree;
use crate::lil_mat::{dense_form_of, density_of, t_dot_fold, LilMat};
use crate::scalar::{Real, Scalar};
use crate::sparse_vec::{scattered, sparse_dot_dense, SparseVec};

verus! {

/// Column `c` of a dense matrix, from the first row to the last.
pub open spec fn dense_column<V>(d: DenseMat<V>, c: int) -> Seq<V> {
    Seq::new(d.rows_spec() as nat, |r: int| d.at(r, c))
}

/// The dot product of a dense vector with column `c` of a dense matrix,
/// accumulated over the first `upto` rows in their order.
pub open spec fn dense_dot_column<V: Scalar>(x: Seq<V>, d: DenseMat<V>, c: int, upto: nat) -> V
    decreases upto,
{
    if upto == 0 {
        V::zero_value()
    } else {
        dense_dot_column(x, d, c, (upto - 1) as nat).plus_spec(
            x[upto - 1].times_spec(d.at(upto - 1, c)),
        )
    }
}

/// The number of bytes that the values of a dense matrix take.
pub open spec fn dense_bytes<V>(rows: nat, cols: nat) -> nat {
    rows * cols * vstd::layout::size_of::<V>()
}

/// Whether a matrix is better stored densely: its dense form can be held, and
/// takes no more bytes than its sparse form.
pub open spec fn prefers_dense<V: Scalar>(m: LilMat<V>) -> bool {
    &&& m.outer_dim_spec() * m.inner_dim_spec() <= usize::MAX
    &&& dense_bytes::<V>(m.outer_dim_spec() as nat, m.inner_dim_spec() as nat) <= usize::MAX
    &&& dense_bytes::<V>(m.outer_dim_spec() as nat, m.inner_dim_spec() as nat) <= m.mem_size_spec()
}

/// A weight matrix of one-vs-all classifiers, of shape number of features by
/// number of classes.
#[derive(Clone, Debug)]
pub enum WeightMat<V> {
    Sparse(LilMat<V>),
    Dense(DenseMat<V>),
}

impl<V: Scalar> WeightMat<V> {
    /// The invariant of the stored form.
    pub open spec fn wf(&self) -> bool {
        match self {
            WeightMat::Sparse(m) => m.wf(),
            WeightMat::Dense(d) => d.wf(),
        }
    }

    /// The number of rows and the number of columns.
    pub open spec fn shape_spec(&self) -> (usize, usize) {
        match self {
            WeightMat::Sparse(m) => (m.outer_dim_spec(), m.inner_dim_spec()),
            WeightMat::Dense(d) => (d.rows_spec(), d.cols_spec()),
        }
    }

    /// The weight at row `r`, column `c`.
    pub open spec fn value_at(&self, r: int, c: int) -> V {
        match self {
            WeightMat::Sparse(m) => m.value_at(r, c),
            WeightMat::Dense(d) => d.at(r, c),
        }
    }

    /// Column `c` of the product of a sparse vector with the matrix.
    pub open spec fn t_dot_vec_spec(&self, vec: SparseVec<V>, c: int) -> V {
        match self {
            WeightMat::Sparse(m) => t_dot_fold(m.entries(), vec.index_seq(), vec.value_seq(), c),
            WeightMat::Dense(d) => sparse_dot_dense(
                vec.index_seq(),
                vec.value_seq(),
                dense_column(*d, c),
            ),
        }
    }

    /// Whether this is the matrix that `from_rows` builds from `rows`: it holds
    /// the non-zero values of the vectors, each vector as one column, densely
    /// if that takes no more bytes than the sparse form and sparsely otherwise.
    pub open spec fn built_from(&self, rows: Seq<SparseVec<V>>) -> bool {
        exists|m: LilMat<V>|
            #![trigger m.holds_columns(rows)]
            m.holds_columns(rows) && match self {
                WeightMat::Sparse(s) => *s == m && !prefers_dense(m),
                WeightMat::Dense(d) => dense_form_of(*d, m) && prefers_dense(m),
            }
    }

    /// Tells whether the stored form is sound.
    pub fn check(&self) -> (ok: bool)
        ensures
            ok == self.wf(),
    {
        match self {
            WeightMat::Sparse(m) => m.check(),
            WeightMat::Dense(d) => d.check(),
        }
    }

    /// Computes the product of a sparse vector with the matrix: one value for
    /// each column.
    pub fn t_dot_vec(&self, vec: &SparseVec<V>) -> (out: Vec<V>)
        requires
            self.wf(),
            vec.wf(),
            vec.dim_spec() == self.shape_spec().0,
        ensures
            out@.len() == self.shape_spec().1,
            forall|c: int|
                0 <= c < self.shape_spec().1 ==> out@[c] == self.t_dot_vec_spec(*vec, c),
    {
        match self {
            WeightMat::Dense(mat) => {
                let (rows, cols) = mat.shape();
                let indices = vec.indices();
                let data = vec.data();
                let n = vec.nnz();
                let ghost vi = vec.index_seq();
                let ghost vv = vec.value_seq();
                let mut out: Vec<V> = Vec::new();
                let mut c: usize = 0;
                while c < cols
                    invariant
                        mat.wf(),
                        vec.wf(),
                        rows == mat.rows_spec(),
                        cols == mat.cols_spec(),
                        vec.dim_spec() == rows,
                        vi == vec.index_seq(),
                        vv == vec.value_seq(),
                        data@ == vv,
                        n == vv.len(),
                        n == indices@.len(),
                        forall|q: int| 0 <= q < n ==> indices@[q] as int == vi[q],
                        c <= cols,
                        out@.len() == c,
                        forall|j: int|
                            0 <= j < c ==> out@[j] == sparse_dot_dense(vi, vv, dense_column(*mat, j)),
                    decreases cols - c,
                {
                    let ghost column = dense_column(*mat, c as int);
                    let mut total = V::zero();
                    let mut k: usize = 0;
                    while k < n
                        invariant
                            mat.wf(),
                            vec.wf(),
                            rows == mat.rows_spec(),
                            cols == mat.cols_spec(),
                            vec.dim_spec() == rows,
                            c < cols,
                            column == dense_column(*mat, c as int),
                            vi == vec.index_seq(),
                            vv == vec.value_seq(),
                            data@ == vv,
                            n == vv.len(),
                            n == indices@.len(),
                            forall|q: int| 0 <= q < n ==> indices@[q] as int == vi[q],
                            k <= n,
                            total == sparse_dot_dense(vi.take(k as int), vv.take(k as int), column),
                        decreases n - k,
                    {
                        let at = indices[k] as usize;
                        proof {
                            assert(vi[k as int] == at);
                            assert(vi.take(k + 1).drop_last() == vi.take(k as int));
                            assert(vv.take(k + 1).drop_last() == vv.take(k as int));
                        }
                        total = total.plus(data[k].times(mat.get(at, c)));
                        k += 1;
                    }
                    proof {
                        assert(vi.take(k as int) == vi);
                        assert(vv.take(k as int) == vv);
                    }
                    out.push(total);
                    c += 1;
                }
                out
            },
            WeightMat::Sparse(mat) => mat.t_dot_csvec(vec),
        }
    }

    /// Gets the shape of the matrix.
    pub fn shape(&self) -> (s: (usize, usize))
        ensures
            s == self.shape_spec(),
    {
        match self {
            WeightMat::Dense(mat) => mat.shape(),
            WeightMat::Sparse(mat) => mat.shape(),
        }
    }

    /// Returns whether the matrix is dense.
    pub fn is_dense(&self) -> (b: bool)
        ensures
            b == (*self is Dense),
    {
        match self {
            WeightMat::Dense(_) => true,
            WeightMat::Sparse(_) => false,
        }
    }

    /// Returns the ratio of non-zero elements in the matrix when it is
    /// sparse, and one when it is dense.
    pub fn density<R: Real>(&self) -> (d: R)
        requires
            self.shape_spec().0 * self.shape_spec().1 <= usize::MAX,
        ensures
            d == match self {
                WeightMat::Dense(_) => R::from_count_spec(1),
                WeightMat::Sparse(m) => density_of::<R>(
                    m.entries().len(),
                    m.outer_dim_spec() as nat,
                    m.inner_dim_spec() as nat,
                ),
            },
    {
        match self {
            WeightMat::Dense(_) => R::from_count(1),
            WeightMat::Sparse(m) => m.density(),
        }
    }

    /// Stores the matrix in dense format if it is not already so.
    pub fn densify(&mut self)
        requires
            old(self).wf(),
            old(self).shape_spec().0 * old(self).shape_spec().1 <= usize::MAX,
        ensures
            final(self).wf(),
            *final(self) is Dense,
            final(self).shape_spec() == old(self).shape_spec(),
            *old(self) is Dense ==> *final(self) == *old(self),
            forall|r: int, c: int|
                0 <= r < old(self).shape_spec().0 && 0 <= c < old(self).shape_spec().1 ==> final(
                    self).value_at(r, c) == old(self).value_at(r, c),
    {
        let dense = match self {
            WeightMat::Dense(_) => None,
            WeightMat::Sparse(m) => Some(m.to_dense()),
        };
        match dense {
            Some(d) => {
                *self = WeightMat::Dense(d);
            },
            None => {},
        }
    }

    /// Creates a new matrix from sparse vectors, one for each class.
    ///
    /// The matrix is stored in dense format only if that takes no more memory
    /// than the sparse format. Call `densify` to force the dense format.
    pub fn from_rows(row_vecs: &Vec<SparseVec<V>>) -> (w: Self)
        requires
            columns_agree(row_vecs@),
            row_vecs@.len() <= 0x1_0000_0000,
        ensures
            w.wf(),
            w.built_from(row_vecs@),
    {
        let mat = LilMat::from_columns(row_vecs);
        let sparse_size = mat.mem_size_checked();

        let (rows, cols) = mat.shape();
        let dense_size = match rows.checked_mul(cols) {
            Some(places) => places.checked_mul(core::mem::size_of::<V>()),
            None => None,
        };
        let store_dense = match dense_size {
            Some(dense_size) => match sparse_size {
                Some(sparse_size) => dense_size <= sparse_size,
                None => true,
            },
            None => false,
        };
        assert(store_dense == prefers_dense(mat));
        if store_dense {
            let dense = mat.to_dense();
            let w = WeightMat::Dense(dense);
            assert(mat.holds_columns(row_vecs@));
            w
        } else {
            let ghost m = mat;
            let w = WeightMat::Sparse(mat);
            assert(m.holds_columns(row_vecs@));
            w
        }
    }
}

/// What a feature vector holds: its stored indices and values, and the same
/// vector written out in full.
pub struct Features<V> {
    /// The stored indices, strictly increasing.
    pub indices: Seq<int>,
    /// The stored values, in the order of their indices.
    pub values: Seq<V>,
    /// The vector in full. Its length is the dimension of the vector.
    pub dense: Seq<V>,
}

/// Column `c` of the product of a feature vector with a weight matrix. A dense
/// matrix is multiplied with the dense form of the vector, row after row; a
/// sparse matrix with its sparse form.
pub open spec fn group_score<V: Scalar>(x: Features<V>, mat: WeightMat<V>, c: int) -> V {
    match mat {
        WeightMat::Dense(d) => dense_dot_column(x.dense, d, c, d.rows_spec() as nat),
        WeightMat::Sparse(m) => t_dot_fold(m.entries(), x.indices, x.values, c),
    }
}

/// The scores of a classifier group: the product of a feature vector with the
/// weight matrix of the group, one score for each column.
pub open spec fn group_scores<V: Scalar>(x: Features<V>, mat: WeightMat<V>) -> Seq<V> {
    Seq::new(mat.shape_spec().1 as nat, |c: int| group_score(x, mat, c))
}

/// A feature vector kept in sparse and in dense form at once, so that the
/// product with a weight matrix can use the form that suits the matrix.
#[derive(Clone, Debug)]
pub struct SparseDenseVec<V> {
    sparse: SparseVec<V>,
    dense: Vec<V>,
}

impl<V> View for SparseDenseVec<V> {
    type V = Features<V>;

    closed spec fn view(&self) -> Features<V> {
        Features {
            indices: self.sparse.index_seq(),
            values: self.sparse.value_seq(),
            dense: self.dense@,
        }
    }
}

impl<V: Scalar> SparseDenseVec<V> {
    /// The sparse form.
    pub closed spec fn sparse_spec(&self) -> SparseVec<V> {
        self.sparse
    }

    /// The invariant of the type: the two forms hold the same vector.
    pub open spec fn wf(&self) -> bool {
        &&& self.sparse_spec().wf()
        &&& self@.indices == self.sparse_spec().index_seq()
        &&& self@.values == self.sparse_spec().value_seq()
        &&& self@.dense == scattered(
            self@.indices,
            self@.values,
            self.sparse_spec().dim_spec() as nat,
        )
    }

    /// Keeps a sparse vector together with its dense form.
    pub fn from_sparse(sparse: SparseVec<V>) -> (v: Self)
        requires
            sparse.wf(),
        ensures
            v.wf(),
            v.sparse_spec() == sparse,
    {
        let dense = sparse.to_dense();
        SparseDenseVec { sparse, dense }
    }

    /// The sparse form.
    pub fn sparse(&self) -> (r: &SparseVec<V>)
        ensures
            *r == self.sparse_spec(),
    {
        &self.sparse
    }

    /// The dense form.
    pub fn dense(&self) -> (r: &Vec<V>)
        ensures
            r@ == self@.dense,
    {
        &self.dense
    }

    /// Computes the scores of a classifier group for this vector.
    pub fn dot(&self, mat: &WeightMat<V>) -> (out: Vec<V>)
        requires
            self.wf(),
            mat.wf(),
            self@.dense.len() == mat.shape_spec().0,
        ensures
            out@ == group_scores(self@, *mat),
    {
        match mat {
            WeightMat::Dense(d) => {
                let (rows, cols) = d.shape();
                let mut out: Vec<V> = Vec::new();
                let mut c: usize = 0;
                while c < cols
                    invariant
                        c <= cols,
                        out@.len() == c,
                        forall|j: int|
                            0 <= j < c ==> out@[j] == dense_dot_column(self@.dense, *d, j, 0),
                    decreases cols - c,
                {
                    out.push(V::zero());
                    c += 1;
                }
                let mut r: usize = 0;
                while r < rows
                    invariant
                        self.wf(),
                        d.wf(),
                        rows == d.rows_spec(),
                        cols == d.cols_spec(),
                        self.dense@.len() == rows,
                        r <= rows,
                        out@.len() == cols,
                        forall|j: int|
                            0 <= j < cols ==> out@[j] == dense_dot_column(
                                self@.dense,
                                *d,
                                j,
                                r as nat,
                            ),
                    decreases rows - r,
                {
                    let x = self.dense[r];
                    let mut c: usize = 0;
                    while c < cols
                        invariant
                            d.wf(),
                            rows == d.rows_spec(),
                            cols == d.cols_spec(),
                            r < rows,
                            x == self@.dense[r as int],
                            c <= cols,
                            out@.len() == cols,
                            forall|j: int|
                                0 <= j < c ==> out@[j] == dense_dot_column(
                                    self@.dense,
                                    *d,
                                    j,
                                    (r + 1) as nat,
                                ),
                            forall|j: int|
                                c <= j < cols ==> out@[j] == dense_dot_column(
                                    self@.dense,
                                    *d,
                                    j,
                                    r as nat,
                                ),
                        decreases cols - c,
                    {
                        let sum = out[c].plus(x.times(d.get(r, c)));
                        out.set(c, sum);
                        c += 1;
                    }
                    r += 1;
                }
                proof {
                    assert(out@ =~= group_scores(self@, *mat));
                }
                out
            },
            WeightMat::Sparse(m) => {
                let out = m.t_dot_csvec(&self.sparse);
                proof {
                    assert(out@ =~= group_scores(self@, *mat));
                }
                out
            },
        }
    }
}

} // verus!
