//! Building a list-of-lists matrix from sparse columns.

use vstd::prelude::*;
use crate::dense_mat::DenseMat;
use crate::lil_mat::{dense_form_of, entry_position, key_lt, key_of, LilMat};
use crate::scalar::Scalar;
use crate::sorting::{key_le, sort_unstable_by_key, SortKey};
use crate::sparse_vec::{lemma_position_of_unique, position_of, scattered, SparseVec};

verus! {

/// A value on its way into a matrix: `(row, column, value)`.
pub type Triplet<V> = (usize, usize, V);

/// The entry that a triplet becomes.
pub open spec fn as_entry<V>(t: Triplet<V>) -> (int, int, V) {
    (t.0 as int, t.1 as int, t.2)
}

/// The value that column `c` of `cols` lists for row `r`, zero or not.
pub open spec fn column_raw<V>(cols: Seq<SparseVec<V>>, r: int, c: int) -> Option<V> {
    if 0 <= c < cols.len() {
        match position_of(cols[c].index_seq(), r) {
            Some(p) => Some(cols[c].value_seq()[p]),
            None => None,
        }
    } else {
        None
    }
}

/// The value that column `c` of `cols` gives to row `r`, unless it is zero.
pub open spec fn column_entry<V: Scalar>(cols: Seq<SparseVec<V>>, r: int, c: int) -> Option<V> {
    match column_raw(cols, r, c) {
        Some(v) => if v.is_zero_spec() {
            None
        } else {
            Some(v)
        },
        None => None,
    }
}

/// The value that `entries` store at `(outer, inner)`, if any.
pub open spec fn stored_entry<V>(entries: Seq<(int, int, V)>, outer: int, inner: int) -> Option<V> {
    match entry_position(entries, outer, inner) {
        Some(k) => Some(entries[k].2),
        None => None,
    }
}

/// Whether columns can be put together: each is a sparse vector, and all have
/// the dimension of the first.
pub open spec fn columns_agree<V>(cols: Seq<SparseVec<V>>) -> bool {
    forall|c: int|
        0 <= c < cols.len() ==> (#[trigger] cols[c]).wf() && cols[c].dim_spec()
            == cols[0].dim_spec()
}

/// The triplet at position `q` of column `c`.
pub open spec fn triplet_of<V>(cols: Seq<SparseVec<V>>, c: int, q: int) -> Triplet<V> {
    (cols[c].index_seq()[q] as usize, c as usize, cols[c].value_seq()[q])
}

/// Whether a triplet stands in its column, at some position.
pub open spec fn from_column<V>(cols: Seq<SparseVec<V>>, t: Triplet<V>) -> bool {
    &&& t.1 < cols.len()
    &&& t.0 <= u32::MAX
    &&& column_raw(cols, t.0 as int, t.1 as int) == Some(t.2)
}

/// Whether triplets follow one another column by column, and row by row
/// inside a column.
pub open spec fn column_major<V>(triplets: Seq<Triplet<V>>) -> bool {
    forall|a: int, b: int|
        0 <= a < b < triplets.len() ==> (#[trigger] triplets[a]).1 < (#[trigger] triplets[b]).1 || (
        triplets[a].1 == triplets[b].1 && triplets[a].0 < triplets[b].0)
}

/// Whether triplets follow one another in strictly increasing order of place.
pub open spec fn row_major<V>(triplets: Seq<Triplet<V>>) -> bool {
    forall|a: int, b: int|
        0 <= a < b < triplets.len() ==> key_lt(
            key_of(as_entry(#[trigger] triplets[a])),
            key_of(as_entry(#[trigger] triplets[b])),
        )
}

/// Triplets in column order, put in any other order, still hold each place
/// once; sorted by place, they strictly increase.
proof fn lemma_sorted_row_major<V>(before: Seq<Triplet<V>>, after: Seq<Triplet<V>>)
    requires
        column_major(before),
        after.to_multiset() == before.to_multiset(),
        forall|i: int, j: int|
            0 <= i < j < after.len() ==> key_le(after[i].key_spec(), after[j].key_spec()),
    ensures
        row_major(after),
        forall|t: Triplet<V>| after.contains(t) <==> before.contains(t),
{
    before.to_multiset_ensures();
    after.to_multiset_ensures();
    assert(before.no_duplicates()) by {
        assert forall|i: int, j: int|
            0 <= i < before.len() && 0 <= j < before.len() && i != j implies before[i]
            != before[j] by {
            if i < j {
                assert(before[i].1 < before[j].1 || (before[i].1 == before[j].1 && before[i].0
                    < before[j].0));
            } else {
                assert(before[j].1 < before[i].1 || (before[j].1 == before[i].1 && before[j].0
                    < before[i].0));
            }
        }
    }
    before.lemma_multiset_has_no_duplicates();
    after.lemma_multiset_has_no_duplicates_conv();
    assert forall|t: Triplet<V>| after.contains(t) <==> before.contains(t) by {
        vstd::seq_lib::to_multiset_contains(after, t);
        vstd::seq_lib::to_multiset_contains(before, t);
    }
    assert forall|a: int, b: int| 0 <= a < b < after.len() implies key_lt(
        key_of(as_entry(#[trigger] after[a])),
        key_of(as_entry(#[trigger] after[b])),
    ) by {
        assert(key_le(after[a].key_spec(), after[b].key_spec()));
        if after[a].0 == after[b].0 && after[a].1 == after[b].1 {
            assert(after[a] != after[b]);
            assert(after.contains(after[a]));
            assert(after.contains(after[b]));
            assert(before.contains(after[a]));
            assert(before.contains(after[b]));
            let i = choose|i: int| 0 <= i < before.len() && before[i] == after[a];
            let j = choose|j: int| 0 <= j < before.len() && before[j] == after[b];
            if i < j {
                assert(before[i].1 < before[j].1 || (before[i].1 == before[j].1 && before[i].0
                    < before[j].0));
            } else if j < i {
                assert(before[j].1 < before[i].1 || (before[j].1 == before[i].1 && before[j].0
                    < before[i].0));
            }
        }
    }
}

/// Whether `entry` stems from one of the first `upto` triplets, a non-zero one.
pub open spec fn stems_from<V: Scalar>(
    triplets: Seq<Triplet<V>>,
    upto: int,
    entry: (int, int, V),
) -> bool {
    exists|a: int|
        0 <= a < upto && a < triplets.len() && !(#[trigger] triplets[a]).2.is_zero_spec() && entry
            == as_entry(triplets[a])
}

impl<V: Scalar> LilMat<V> {
    /// Whether this matrix holds what the columns hold: its shape is the
    /// dimension of the columns by their number, and its stored entries are
    /// the non-zero values of the columns, each at its row and its column.
    pub open spec fn holds_columns(&self, cols: Seq<SparseVec<V>>) -> bool {
        &&& self.wf()
        &&& self.inner_dim_spec() == cols.len()
        &&& self.outer_dim_spec() == if cols.len() == 0 {
            0
        } else {
            cols[0].dim_spec()
        }
        &&& forall|r: int, c: int| #[trigger]
            stored_entry(self.entries(), r, c) == column_entry(cols, r, c)
    }

    /// Creates a matrix from sparse column vectors of one dimension.
    ///
    /// The values are stored row by row: the rows of the columns become the
    /// outer dimension of the matrix, and the columns its inner dimension.
    pub fn from_columns(col_vecs: &Vec<SparseVec<V>>) -> (mat: Self)
        requires
            columns_agree(col_vecs@),
            col_vecs@.len() <= 0x1_0000_0000,
        ensures
            mat.holds_columns(col_vecs@),
    {
        let ghost cols = col_vecs@;
        if col_vecs.len() == 0 {
            let mat = Self::new((0, 0));
            assert forall|r: int, c: int| #[trigger]
                stored_entry(mat.entries(), r, c) == column_entry(cols, r, c) by {}
            return mat;
        }
        let n_cols = col_vecs.len();
        let rows = col_vecs[0].dim();

        let mut triplets: Vec<Triplet<V>> = Vec::new();
        let mut max_col_nnz: usize = 0;
        let mut col: usize = 0;
        while col < n_cols
            invariant
                cols == col_vecs@,
                n_cols == cols.len(),
                columns_agree(cols),
                col <= n_cols,
                column_major(triplets@),
                forall|a: int| 0 <= a < triplets@.len() ==> (#[trigger] triplets@[a]).1 < col,
                forall|a: int| 0 <= a < triplets@.len() ==> from_column(cols, #[trigger] triplets@[a]),
                forall|c: int, q: int|
                    0 <= c < col && 0 <= q < cols[c].index_seq().len() ==> triplets@.contains(
                        #[trigger] triplet_of(cols, c, q),
                    ),
            decreases n_cols - col,
        {
            let vec = &col_vecs[col];
            let indices = vec.indices();
            let data = vec.data();
            let nnz = vec.nnz();
            if nnz > max_col_nnz {
                max_col_nnz = nnz;
            }
            assert(cols[col as int].wf());
            let ghost vi = vec.index_seq();
            let mut q: usize = 0;
            while q < nnz
                invariant
                    cols == col_vecs@,
                    n_cols == cols.len(),
                    columns_agree(cols),
                    col < n_cols,
                    *vec == cols[col as int],
                    vec.wf(),
                    vi == vec.index_seq(),
                    nnz == vi.len(),
                    nnz == indices@.len(),
                    forall|i: int| 0 <= i < nnz ==> indices@[i] as int == vi[i],
                    data@ == vec.value_seq(),
                    q <= nnz,
                    column_major(triplets@),
                    forall|a: int|
                        0 <= a < triplets@.len() ==> (#[trigger] triplets@[a]).1 < col || (
                        triplets@[a].1 == col && q > 0 && triplets@[a].0 <= vi[q - 1]),
                    forall|a: int|
                        0 <= a < triplets@.len() ==> from_column(cols, #[trigger] triplets@[a]),
                    forall|c: int, k: int|
                        0 <= c < col && 0 <= k < cols[c].index_seq().len() ==> triplets@.contains(
                            #[trigger] triplet_of(cols, c, k),
                        ),
                    forall|k: int|
                        0 <= k < q ==> triplets@.contains(
                            #[trigger] triplet_of(cols, col as int, k),
                        ),
                decreases nnz - q,
            {
                let row = indices[q] as usize;
                let val = data[q];
                let ghost before = triplets@;
                let ghost t: Triplet<V> = (row, col, val);
                proof {
                    lemma_position_of_unique(vi, q as int);
                    assert(t == triplet_of(cols, col as int, q as int));
                    assert(from_column(cols, t));
                    if q > 0 {
                        assert(vi[q - 1] < vi[q as int]);
                    }
                }
                triplets.push((row, col, val));
                proof {
                    assert forall|a: int, b: int| 0 <= a < b < triplets@.len() implies (
                    #[trigger] triplets@[a]).1 < (#[trigger] triplets@[b]).1 || (triplets@[a].1
                        == triplets@[b].1 && triplets@[a].0 < triplets@[b].0) by {
                        if b < before.len() {
                            assert(before[a].1 < before[b].1 || (before[a].1 == before[b].1
                                && before[a].0 < before[b].0));
                        } else {
                            assert(before[a].1 < col || (before[a].1 == col && q > 0 && before[a].0
                                <= vi[q - 1]));
                        }
                    }
                    assert forall|c: int, k: int|
                        0 <= c < col && 0 <= k < cols[c].index_seq().len() implies triplets@.contains(
                        #[trigger] triplet_of(cols, c, k),
                    ) by {
                        let x = triplet_of(cols, c, k);
                        assert(before.contains(x));
                        let at = choose|at: int| 0 <= at < before.len() && before[at] == x;
                        assert(triplets@[at] == x);
                    }
                    assert forall|k: int| 0 <= k < q + 1 implies triplets@.contains(
                        #[trigger] triplet_of(cols, col as int, k),
                    ) by {
                        let x = triplet_of(cols, col as int, k);
                        if k < q {
                            assert(before.contains(x));
                            let at = choose|at: int| 0 <= at < before.len() && before[at] == x;
                            assert(triplets@[at] == x);
                        } else {
                            assert(triplets@[before.len() as int] == x);
                        }
                    }
                }
                q += 1;
            }
            col += 1;
        }

        let ghost unsorted = triplets@;
        sort_unstable_by_key(&mut triplets);
        let ghost sorted = triplets@;
        proof {
            lemma_sorted_row_major(unsorted, sorted);
            assert forall|a: int| 0 <= a < sorted.len() implies from_column(
                cols,
                #[trigger] sorted[a],
            ) by {
                assert(sorted.contains(sorted[a]));
                assert(unsorted.contains(sorted[a]));
            }
        }

        let total = triplets.len();
        let mut mat = Self::with_capacity((rows, n_cols), max_col_nnz, total);
        let mut i: usize = 0;
        while i < total
            invariant
                cols == col_vecs@,
                n_cols == cols.len(),
                n_cols <= 0x1_0000_0000,
                n_cols > 0,
                rows == cols[0].dim_spec(),
                columns_agree(cols),
                sorted == triplets@,
                total == sorted.len(),
                i <= total,
                row_major(sorted),
                forall|a: int| 0 <= a < sorted.len() ==> from_column(cols, #[trigger] sorted[a]),
                mat.wf(),
                mat.outer_dim_spec() == rows,
                mat.inner_dim_spec() == n_cols,
                forall|k: int|
                    0 <= k < mat.entries().len() ==> stems_from(
                        sorted,
                        i as int,
                        #[trigger] mat.entries()[k],
                    ),
                forall|a: int|
                    0 <= a < i && !(#[trigger] sorted[a]).2.is_zero_spec() ==> mat.entries().contains(
                        as_entry(sorted[a]),
                    ),
            decreases total - i,
        {
            let (row, col, val) = triplets[i];
            let ghost before = mat.entries();
            proof {
                let t = sorted[i as int];
                assert(from_column(cols, t));
                let p = position_of(cols[col as int].index_seq(), row as int).unwrap();
                assert(cols[col as int].wf());
                assert(cols[col as int].index_seq()[p] == row);
                if before.len() > 0 {
                    let last = before.last();
                    assert(stems_from(sorted, i as int, before[before.len() - 1]));
                    let a = choose|a: int|
                        0 <= a < i && a < sorted.len() && !(#[trigger] sorted[a]).2.is_zero_spec()
                            && last == as_entry(sorted[a]);
                    assert(key_lt(key_of(as_entry(sorted[a])), key_of(as_entry(sorted[i as int]))));
                }
            }
            mat.append_value(row, col, val);
            proof {
                let after = mat.entries();
                assert forall|k: int| 0 <= k < after.len() implies stems_from(
                    sorted,
                    i + 1,
                    #[trigger] after[k],
                ) by {
                    if k < before.len() {
                        assert(after[k] == before[k]);
                        assert(stems_from(sorted, i as int, before[k]));
                        let a = choose|a: int|
                            0 <= a < i && a < sorted.len() && !(
                            #[trigger] sorted[a]).2.is_zero_spec() && before[k] == as_entry(
                                sorted[a],
                            );
                        assert(!sorted[a].2.is_zero_spec() && after[k] == as_entry(sorted[a]));
                    } else {
                        assert(!sorted[i as int].2.is_zero_spec() && after[k] == as_entry(
                            sorted[i as int],
                        ));
                    }
                }
                assert forall|a: int|
                    0 <= a < i + 1 && !(#[trigger] sorted[a]).2.is_zero_spec() implies after.contains(
                    as_entry(sorted[a]),
                ) by {
                    if a < i {
                        assert(before.contains(as_entry(sorted[a])));
                        let k = choose|k: int|
                            0 <= k < before.len() && before[k] == as_entry(sorted[a]);
                        assert(after[k] == as_entry(sorted[a]));
                    } else {
                        assert(after[before.len() as int] == as_entry(sorted[a]));
                    }
                }
            }
            i += 1;
        }
        proof {
            Self::lemma_holds_columns(&mat, cols, unsorted, sorted);
        }
        mat
    }

    /// The entries of a matrix that took in every non-zero triplet of the
    /// columns, and nothing else, are the non-zero values of the columns.
    proof fn lemma_holds_columns(
        mat: &Self,
        cols: Seq<SparseVec<V>>,
        unsorted: Seq<Triplet<V>>,
        sorted: Seq<Triplet<V>>,
    )
        requires
            mat.wf(),
            columns_agree(cols),
            cols.len() <= usize::MAX,
            forall|t: Triplet<V>| sorted.contains(t) <==> unsorted.contains(t),
            forall|a: int| 0 <= a < sorted.len() ==> from_column(cols, #[trigger] sorted[a]),
            forall|c: int, q: int|
                0 <= c < cols.len() && 0 <= q < cols[c].index_seq().len() ==> unsorted.contains(
                    #[trigger] triplet_of(cols, c, q),
                ),
            forall|k: int|
                0 <= k < mat.entries().len() ==> stems_from(
                    sorted,
                    sorted.len() as int,
                    #[trigger] mat.entries()[k],
                ),
            forall|a: int|
                0 <= a < sorted.len() && !(#[trigger] sorted[a]).2.is_zero_spec()
                    ==> mat.entries().contains(as_entry(sorted[a])),
        ensures
            forall|r: int, c: int| #[trigger]
                stored_entry(mat.entries(), r, c) == column_entry(cols, r, c),
    {
        let entries = mat.entries();
        mat.lemma_entries_valid();
        assert forall|r: int, c: int| #[trigger]
            stored_entry(entries, r, c) == column_entry(cols, r, c) by {
            match entry_position(entries, r, c) {
                Some(k) => {
                    assert(stems_from(sorted, sorted.len() as int, entries[k]));
                    let a = choose|a: int|
                        0 <= a < sorted.len() && a < sorted.len() && !(
                        #[trigger] sorted[a]).2.is_zero_spec() && entries[k] == as_entry(sorted[a]);
                    assert(from_column(cols, sorted[a]));
                },
                None => {
                    if column_entry(cols, r, c) is Some {
                        let v = column_entry(cols, r, c).unwrap();
                        let q = position_of(cols[c].index_seq(), r).unwrap();
                        assert(cols[c].wf());
                        assert(cols[c].index_seq()[q] == r);
                        let t = triplet_of(cols, c, q);
                        assert(unsorted.contains(t));
                        assert(sorted.contains(t));
                        let a = choose|a: int| 0 <= a < sorted.len() && sorted[a] == t;
                        assert(from_column(cols, sorted[a]));
                        assert(!sorted[a].2.is_zero_spec());
                        assert(entries.contains(as_entry(sorted[a])));
                        let k = choose|k: int|
                            0 <= k < entries.len() && entries[k] == as_entry(sorted[a]);
                        assert(key_of(entries[k]) == (r, c));
                    }
                },
            }
        }
    }
}

/// The matrix built from columns, written out in full, holds at each place
/// the value that the column of that place lists for its row, where that
/// value is not zero, and zero everywhere else.
pub proof fn lemma_columns_round_trip<V: Scalar>(
    cols: Seq<SparseVec<V>>,
    mat: LilMat<V>,
    dense: DenseMat<V>,
    r: int,
    c: int,
)
    requires
        mat.holds_columns(cols),
        dense_form_of(dense, mat),
        0 <= r < mat.outer_dim_spec(),
        0 <= c < mat.inner_dim_spec(),
    ensures
        dense.at(r, c) == match column_entry(cols, r, c) {
            Some(v) => v,
            None => V::zero_value(),
        },
{
    assert(stored_entry(mat.entries(), r, c) == column_entry(cols, r, c));
}

/// For values among which zero alone counts as zero, the matrix built from
/// columns, written out in full, is the dense matrix that holds each column
/// written out in full.
pub proof fn lemma_columns_round_trip_scattered<V: Scalar>(
    cols: Seq<SparseVec<V>>,
    mat: LilMat<V>,
    dense: DenseMat<V>,
    r: int,
    c: int,
)
    requires
        columns_agree(cols),
        mat.holds_columns(cols),
        dense_form_of(dense, mat),
        0 <= r < mat.outer_dim_spec(),
        0 <= c < mat.inner_dim_spec(),
        forall|v: V| #[trigger] v.is_zero_spec() ==> v == V::zero_value(),
    ensures
        dense.at(r, c) == scattered(
            cols[c].index_seq(),
            cols[c].value_seq(),
            cols[c].dim_spec() as nat,
        )[r],
{
    lemma_columns_round_trip(cols, mat, dense, r, c);
    assert(cols[c].wf());
    assert(cols[c].dim_spec() == mat.outer_dim_spec());
}

} // verus!
