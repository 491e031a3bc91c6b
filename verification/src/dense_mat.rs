//! Dense matrices, stored row by row.

use vstd::prelude::*;
use crate::scalar::Scalar;

verus! {

/// The place of row `r`, column `c` in the row-by-row storage of a matrix
/// with `cols` columns.
pub open spec fn flat_index(r: int, c: int, cols: int) -> int {
    r * cols + c
}

/// A place inside a `rows` by `cols` matrix lies inside its storage.
pub proof fn lemma_flat_index_in_range(r: int, c: int, rows: int, cols: int)
    requires
        0 <= r < rows,
        0 <= c < cols,
    ensures
        0 <= flat_index(r, c, cols) < rows * cols,
{
    assert(r * cols + c < rows * cols) by (nonlinear_arith)
        requires
            0 <= r < rows,
            0 <= c < cols,
    ;
    assert(0 <= r * cols) by (nonlinear_arith)
        requires
            0 <= r,
            0 <= cols,
    ;
}

/// Two places of a matrix share their storage only when they are the same.
pub proof fn lemma_flat_index_injective(r1: int, c1: int, r2: int, c2: int, cols: int)
    requires
        0 <= c1 < cols,
        0 <= c2 < cols,
        0 <= r1,
        0 <= r2,
        flat_index(r1, c1, cols) == flat_index(r2, c2, cols),
    ensures
        r1 == r2,
        c1 == c2,
{
    if r1 < r2 {
        assert(r1 * cols + cols <= r2 * cols) by (nonlinear_arith)
            requires
                r1 + 1 <= r2,
                0 <= cols,
        ;
    } else if r2 < r1 {
        assert(r2 * cols + cols <= r1 * cols) by (nonlinear_arith)
            requires
                r2 + 1 <= r1,
                0 <= cols,
        ;
    }
}

/// A dense matrix.
#[derive(Clone, Debug, PartialEq)]
pub struct DenseMat<V> {
    rows: usize,
    cols: usize,
    data: Vec<V>,
}

impl<V> DenseMat<V> {
    /// The number of rows.
    pub closed spec fn rows_spec(&self) -> usize {
        self.rows
    }

    /// The number of columns.
    pub closed spec fn cols_spec(&self) -> usize {
        self.cols
    }

    /// The values, row by row.
    pub closed spec fn values(&self) -> Seq<V> {
        self.data@
    }

    /// The value at row `r`, column `c`.
    pub open spec fn at(&self, r: int, c: int) -> V {
        self.values()[flat_index(r, c, self.cols_spec() as int)]
    }

    /// The invariant of the type: one value for each place.
    pub open spec fn wf(&self) -> bool {
        self.values().len() == self.rows_spec() * self.cols_spec()
    }

    /// Whether two matrices have the same shape and the same value at each place.
    pub open spec fn same_as(&self, other: &DenseMat<V>) -> bool {
        &&& self.rows_spec() == other.rows_spec()
        &&& self.cols_spec() == other.cols_spec()
        &&& forall|r: int, c: int|
            0 <= r < self.rows_spec() && 0 <= c < self.cols_spec() ==> self.at(r, c) == other.at(
                r,
                c,
            )
    }

    /// Builds a matrix from its values, row by row. `None` when the number of
    /// values is not `rows * cols`.
    pub fn from_vec(rows: usize, cols: usize, data: Vec<V>) -> (r: Option<Self>)
        ensures
            r is Some <==> data@.len() == rows * cols,
            r matches Some(m) ==> m.wf() && m.rows_spec() == rows && m.cols_spec() == cols
                && m.values() == data@,
    {
        let len = data.len();
        match rows.checked_mul(cols) {
            Some(n) => {
                if len == n {
                    Some(DenseMat { rows, cols, data })
                } else {
                    None
                }
            },
            None => None,
        }
    }

    /// Tells whether there is one value for each place.
    pub fn check(&self) -> (ok: bool)
        ensures
            ok == self.wf(),
    {
        let len = self.data.len();
        match self.rows.checked_mul(self.cols) {
            Some(n) => len == n,
            None => false,
        }
    }

    /// The number of rows and the number of columns.
    pub fn shape(&self) -> (s: (usize, usize))
        ensures
            s.0 == self.rows_spec(),
            s.1 == self.cols_spec(),
    {
        (self.rows, self.cols)
    }

    /// The values, row by row.
    pub fn as_vec(&self) -> (r: &Vec<V>)
        ensures
            r@ == self.values(),
    {
        &self.data
    }

    /// The values, row by row.
    pub fn into_vec(self) -> (r: Vec<V>)
        ensures
            r@ == self.values(),
    {
        self.data
    }
}

impl<V: Copy> DenseMat<V> {
    /// The value at row `r`, column `c`.
    pub fn get(&self, r: usize, c: usize) -> (v: V)
        requires
            self.wf(),
            r < self.rows_spec(),
            c < self.cols_spec(),
        ensures
            v == self.at(r as int, c as int),
    {
        let len = self.data.len();
        proof {
            lemma_flat_index_in_range(r as int, c as int, self.rows as int, self.cols as int);
            assert(0 <= r * self.cols) by (nonlinear_arith)
                requires
                    0 <= r,
                    0 <= self.cols,
            ;
        }
        self.data[r * self.cols + c]
    }

    /// Stores `value` at row `r`, column `c`.
    pub fn set(&mut self, r: usize, c: usize, value: V)
        requires
            old(self).wf(),
            r < old(self).rows_spec(),
            c < old(self).cols_spec(),
        ensures
            final(self).wf(),
            final(self).rows_spec() == old(self).rows_spec(),
            final(self).cols_spec() == old(self).cols_spec(),
            final(self).at(r as int, c as int) == value,
            forall|r2: int, c2: int|
                0 <= r2 < old(self).rows_spec() && 0 <= c2 < old(self).cols_spec() && (r2 != r
                    || c2 != c) ==> final(self).at(r2, c2) == old(self).at(r2, c2),
    {
        let len = self.data.len();
        proof {
            assert(0 <= r * self.cols) by (nonlinear_arith)
                requires
                    0 <= r,
                    0 <= self.cols,
            ;
        }
        proof {
            lemma_flat_index_in_range(r as int, c as int, self.rows as int, self.cols as int);
        }
        let at = r * self.cols + c;
        self.data.set(at, value);
        proof {
            assert forall|r2: int, c2: int|
                0 <= r2 < self.rows && 0 <= c2 < self.cols && (r2 != r || c2 != c) implies self.at(
                r2,
                c2,
            ) == old(self).at(r2, c2) by {
                lemma_flat_index_in_range(r2, c2, self.rows as int, self.cols as int);
                if flat_index(r2, c2, self.cols as int) == at {
                    lemma_flat_index_injective(r2, c2, r as int, c as int, self.cols as int);
                }
            }
        }
    }
}

impl<V: Scalar> DenseMat<V> {
    /// The matrix of the given shape that holds zero everywhere.
    pub fn zeros(rows: usize, cols: usize) -> (m: Self)
        requires
            rows * cols <= usize::MAX,
        ensures
            m.wf(),
            m.rows_spec() == rows,
            m.cols_spec() == cols,
            forall|i: int| 0 <= i < rows * cols ==> m.values()[i] == V::zero_value(),
    {
        let n = rows * cols;
        let mut data: Vec<V> = Vec::new();
        let mut i: usize = 0;
        while i < n
            invariant
                i <= n,
                data@.len() == i,
                forall|j: int| 0 <= j < i ==> data@[j] == V::zero_value(),
            decreases n - i,
        {
            data.push(V::zero());
            i += 1;
        }
        DenseMat { rows, cols, data }
    }
}

} // verus!
