//! Sparse matrices in a compact list-of-lists layout.
//!
//! Values are stored outer index by outer index. Only the outer indices that
//! hold a value are listed; for each of them the inner indices and values
//! follow one another in increasing order of the inner index.

use vstd::prelude::*;
use crate::dense_mat::DenseMat;
use crate::scalar::{Real, Scalar};
use crate::sparse_vec::{lemma_position_of_unique, position_of, SparseVec};

verus! {

/// Whether the place `a` comes before the place `b`, outer index first.
pub open spec fn key_lt(a: (int, int), b: (int, int)) -> bool {
    a.0 < b.0 || (a.0 == b.0 && a.1 < b.1)
}

/// The place of a stored entry `(outer, inner, value)`.
pub open spec fn key_of<V>(entry: (int, int, V)) -> (int, int) {
    (entry.0, entry.1)
}

/// Whether entries follow one another in strictly increasing order of place.
pub open spec fn entries_ordered<V>(entries: Seq<(int, int, V)>) -> bool {
    forall|a: int, b: int|
        0 <= a < b < entries.len() ==> key_lt(key_of(#[trigger] entries[a]), key_of(#[trigger] entries[b]))
}

/// Whether `entries` can be the content of a matrix of the given shape: they
/// are ordered, lie inside the shape, and none of them is zero.
pub open spec fn valid_entries<V: Scalar>(
    entries: Seq<(int, int, V)>,
    outer_dim: int,
    inner_dim: int,
) -> bool {
    &&& entries_ordered(entries)
    &&& forall|k: int|
        0 <= k < entries.len() ==> {
            &&& 0 <= (#[trigger] entries[k]).0 < outer_dim
            &&& 0 <= entries[k].1 < inner_dim
            &&& entries[k].0 <= u32::MAX
            &&& entries[k].1 <= u32::MAX
            &&& !entries[k].2.is_zero_spec()
        }
}

/// The position among `entries` of the one stored at `(outer, inner)`.
pub open spec fn entry_position<V>(entries: Seq<(int, int, V)>, outer: int, inner: int) -> Option<
    int,
> {
    if exists|k: int| 0 <= k < entries.len() && key_of(entries[k]) == (outer, inner) {
        Some(choose|k: int| 0 <= k < entries.len() && key_of(entries[k]) == (outer, inner))
    } else {
        None
    }
}

/// The value that `entries` give to the place `(outer, inner)`: the stored
/// value, or zero where none is stored.
pub open spec fn entry_value<V: Scalar>(entries: Seq<(int, int, V)>, outer: int, inner: int) -> V {
    match entry_position(entries, outer, inner) {
        Some(k) => entries[k].2,
        None => V::zero_value(),
    }
}

/// Among ordered entries, an entry is found at its own position.
pub proof fn lemma_entry_position_unique<V>(entries: Seq<(int, int, V)>, k: int)
    requires
        entries_ordered(entries),
        0 <= k < entries.len(),
    ensures
        entry_position(entries, entries[k].0, entries[k].1) == Some(k),
{
    let key = key_of(entries[k]);
    let found = choose|j: int| 0 <= j < entries.len() && key_of(entries[j]) == key;
    if found < k {
        assert(key_lt(key_of(entries[found]), key_of(entries[k])));
    } else if k < found {
        assert(key_lt(key_of(entries[k]), key_of(entries[found])));
    }
}

/// Looking a place up among the first `k + 1` of some ordered entries finds
/// position `k` for the place of that entry, and otherwise what a look among
/// the first `k` entries finds.
pub proof fn lemma_entry_position_extended<V>(
    entries: Seq<(int, int, V)>,
    k: int,
    outer: int,
    inner: int,
)
    requires
        entries_ordered(entries),
        0 <= k < entries.len(),
    ensures
        entry_position(entries.take(k + 1), outer, inner) == if key_of(entries[k]) == (
            outer,
            inner,
        ) {
            Some(k)
        } else {
            entry_position(entries.take(k), outer, inner)
        },
{
    let head = entries.take(k);
    let next = entries.take(k + 1);
    assert(entries_ordered(next)) by {
        assert forall|a: int, b: int| 0 <= a < b < next.len() implies key_lt(
            key_of(#[trigger] next[a]),
            key_of(#[trigger] next[b]),
        ) by {
            assert(key_lt(key_of(entries[a]), key_of(entries[b])));
        }
    }
    assert(entries_ordered(head)) by {
        assert forall|a: int, b: int| 0 <= a < b < head.len() implies key_lt(
            key_of(#[trigger] head[a]),
            key_of(#[trigger] head[b]),
        ) by {
            assert(key_lt(key_of(entries[a]), key_of(entries[b])));
        }
    }
    if key_of(entries[k]) == (outer, inner) {
        assert(next[k] == entries[k]);
        lemma_entry_position_unique(next, k);
    } else {
        if exists|j: int| 0 <= j < next.len() && key_of(next[j]) == (outer, inner) {
            let j = choose|j: int| 0 <= j < next.len() && key_of(next[j]) == (outer, inner);
            assert(head[j] == next[j]);
            lemma_entry_position_unique(next, j);
            lemma_entry_position_unique(head, j);
        } else {
            if exists|h: int| 0 <= h < head.len() && key_of(head[h]) == (outer, inner) {
                let h = choose|h: int| 0 <= h < head.len() && key_of(head[h]) == (outer, inner);
                assert(next[h] == head[h]);
            }
        }
    }
}

/// Whether position `k` of the storage belongs to slot `j`.
pub open spec fn in_slot(indptr: Seq<usize>, j: int, k: int) -> bool {
    0 <= j < indptr.len() - 1 && indptr[j] <= k < indptr[j + 1]
}

/// The slot whose stretch of storage holds position `k`.
pub open spec fn slot_of(indptr: Seq<usize>, k: int) -> int {
    choose|j: int| #[trigger] in_slot(indptr, j, k)
}

/// Whether offsets strictly increase.
pub open spec fn offsets_increase(indptr: Seq<usize>) -> bool {
    forall|a: int, b: int| 0 <= a < b < indptr.len() ==> indptr[a] < indptr[b]
}

/// With increasing offsets, a position lies in one slot only.
pub proof fn lemma_slot_of(indptr: Seq<usize>, j: int, k: int)
    requires
        offsets_increase(indptr),
        in_slot(indptr, j, k),
    ensures
        slot_of(indptr, k) == j,
{
    let c = slot_of(indptr, k);
    assert(in_slot(indptr, c, k));
    if c < j {
        if c + 1 < j {
            assert(indptr[c + 1] < indptr[j]);
        }
    } else if j < c {
        if j + 1 < c {
            assert(indptr[j + 1] < indptr[c]);
        }
    }
}

/// Every position below the last offset lies in some slot, at or after `from`.
pub proof fn lemma_slot_exists(indptr: Seq<usize>, k: int, from: int)
    requires
        offsets_increase(indptr),
        0 <= from < indptr.len() - 1,
        indptr[from] <= k < indptr[indptr.len() - 1],
    ensures
        from <= slot_of(indptr, k),
        in_slot(indptr, slot_of(indptr, k), k),
    decreases indptr.len() - from,
{
    if k < indptr[from + 1] {
        assert(in_slot(indptr, from, k));
        lemma_slot_of(indptr, from, k);
    } else {
        lemma_slot_exists(indptr, k, from + 1);
    }
}

/// Column `col` of the product of a transposed matrix with a sparse vector.
///
/// The entries of the matrix are taken in storage order. Each entry of column
/// `col` whose outer index carries a value in the vector adds the product of
/// that value with its own.
pub open spec fn t_dot_fold<V: Scalar>(
    entries: Seq<(int, int, V)>,
    vec_indices: Seq<int>,
    vec_values: Seq<V>,
    col: int,
) -> V
    decreases entries.len(),
{
    if entries.len() == 0 {
        V::zero_value()
    } else {
        let rest = t_dot_fold(entries.drop_last(), vec_indices, vec_values, col);
        let entry = entries.last();
        match position_of(vec_indices, entry.0) {
            Some(p) => if entry.1 == col {
                rest.plus_spec(vec_values[p].times_spec(entry.2))
            } else {
                rest
            },
            None => rest,
        }
    }
}

/// One more entry in the fold.
pub proof fn lemma_t_dot_fold_step<V: Scalar>(
    entries: Seq<(int, int, V)>,
    vec_indices: Seq<int>,
    vec_values: Seq<V>,
    col: int,
    k: int,
)
    requires
        0 <= k < entries.len(),
    ensures
        t_dot_fold(entries.take(k + 1), vec_indices, vec_values, col) == {
            let rest = t_dot_fold(entries.take(k), vec_indices, vec_values, col);
            match position_of(vec_indices, entries[k].0) {
                Some(p) => if entries[k].1 == col {
                    rest.plus_spec(vec_values[p].times_spec(entries[k].2))
                } else {
                    rest
                },
                None => rest,
            }
        },
{
    assert(entries.take(k + 1).drop_last() =~= entries.take(k));
    assert(entries.take(k + 1).last() == entries[k]);
}

/// Entries whose outer index carries no value in the vector add nothing.
pub proof fn lemma_t_dot_fold_skip<V: Scalar>(
    entries: Seq<(int, int, V)>,
    vec_indices: Seq<int>,
    vec_values: Seq<V>,
    col: int,
    from: int,
    to: int,
)
    requires
        0 <= from <= to <= entries.len(),
        forall|k: int| from <= k < to ==> position_of(vec_indices, (#[trigger] entries[k]).0) is None,
    ensures
        t_dot_fold(entries.take(to), vec_indices, vec_values, col) == t_dot_fold(
            entries.take(from),
            vec_indices,
            vec_values,
            col,
        ),
    decreases to - from,
{
    if from < to {
        lemma_t_dot_fold_skip(entries, vec_indices, vec_values, col, from, to - 1);
        lemma_t_dot_fold_step(entries, vec_indices, vec_values, col, to - 1);
        assert(position_of(vec_indices, entries[to - 1].0) is None);
    }
}

/// Finds `target` in the strictly increasing `inds`, from position `from` on.
/// Returns the position of `target` and `true`, or the position of the first
/// greater index and `false`.
pub fn search_from(inds: &Vec<u32>, from: usize, target: u32) -> (r: (usize, bool))
    requires
        from <= inds@.len(),
        forall|a: int, b: int| 0 <= a < b < inds@.len() ==> inds@[a] < inds@[b],
    ensures
        from <= r.0 <= inds@.len(),
        forall|j: int| from <= j < r.0 ==> inds@[j] < target,
        r.1 ==> r.0 < inds@.len() && inds@[r.0 as int] == target,
        !r.1 ==> forall|j: int| r.0 <= j < inds@.len() ==> inds@[j] > target,
{
    let mut lo: usize = from;
    let mut hi: usize = inds.len();
    while lo < hi
        invariant
            from <= lo <= hi <= inds@.len(),
            forall|a: int, b: int| 0 <= a < b < inds@.len() ==> inds@[a] < inds@[b],
            forall|j: int| from <= j < lo ==> inds@[j] < target,
            forall|j: int| hi <= j < inds@.len() ==> inds@[j] > target,
        decreases hi - lo,
    {
        let mid = lo + (hi - lo) / 2;
        let at = inds[mid];
        if at < target {
            assert forall|j: int| from <= j < mid + 1 implies inds@[j] < target by {
                if j < mid {
                    assert(inds@[j] < inds@[mid as int]);
                }
            }
            lo = mid + 1;
        } else if at == target {
            assert forall|j: int| from <= j < mid implies inds@[j] < target by {
                assert(inds@[j] < inds@[mid as int]);
            }
            return (mid, true);
        } else {
            assert forall|j: int| mid <= j < inds@.len() implies inds@[j] > target by {
                if mid < j {
                    assert(inds@[mid as int] < inds@[j]);
                }
            }
            hi = mid;
        }
    }
    (lo, false)
}

/// The share of `count` among `rows * cols` places, or the undefined quotient
/// when there are no rows and no columns.
pub open spec fn density_of<R: Real>(count: nat, rows: nat, cols: nat) -> R {
    if rows == 0 && cols == 0 {
        R::nan_value()
    } else {
        R::from_count_spec(count as usize).div_spec(R::from_count_spec((rows * cols) as usize))
    }
}

/// A sparse matrix in list-of-lists layout.
///
/// The matrix has `indptr.len() - 1` slots. Slot `i` stands for the outer
/// index `outer_inds[i]`; its values are `data[indptr[i]..indptr[i + 1]]`, at
/// the inner indices `inner_inds[indptr[i]..indptr[i + 1]]`.
#[derive(Clone, Debug)]
pub struct LilMat<V> {
    outer_dim: usize,
    inner_dim: usize,
    indptr: Vec<usize>,
    outer_inds: Vec<u32>,
    inner_inds: Vec<u32>,
    data: Vec<V>,
}

impl<V: Scalar> LilMat<V> {
    /// The size of the outer dimension.
    pub closed spec fn outer_dim_spec(&self) -> usize {
        self.outer_dim
    }

    /// The size of the inner dimension.
    pub closed spec fn inner_dim_spec(&self) -> usize {
        self.inner_dim
    }

    /// The stored entries `(outer, inner, value)`, in storage order.
    pub closed spec fn entries(&self) -> Seq<(int, int, V)> {
        Seq::new(
            self.data@.len(),
            |k: int|
                (
                    self.outer_inds@[slot_of(self.indptr@, k)] as int,
                    self.inner_inds@[k] as int,
                    self.data@[k],
                ),
        )
    }

    /// The number of slots: the outer indices that hold a value.
    pub closed spec fn slots(&self) -> nat {
        self.outer_inds@.len()
    }

    /// The size in memory of the four parts, in bytes.
    pub open spec fn mem_size_spec(&self) -> nat {
        (self.slots() + 1) * vstd::layout::size_of::<usize>() + self.slots()
            * vstd::layout::size_of::<u32>() + self.entries().len() * vstd::layout::size_of::<u32>()
            + self.entries().len() * vstd::layout::size_of::<V>()
    }

    /// The lengths of the parts fit together.
    spec fn shape_ok(&self) -> bool {
        &&& self.indptr@.len() == self.outer_inds@.len() + 1
        &&& self.indptr@[0] == 0
        &&& self.indptr@[self.indptr@.len() - 1] == self.data@.len()
        &&& self.inner_inds@.len() == self.data@.len()
    }

    /// The outer indices strictly increase and lie below the outer dimension.
    spec fn outer_ok(&self) -> bool {
        &&& forall|i: int, j: int|
            0 <= i < j < self.outer_inds@.len() ==> self.outer_inds@[i] < self.outer_inds@[j]
        &&& forall|j: int|
            0 <= j < self.outer_inds@.len() ==> (#[trigger] self.outer_inds@[j]) < self.outer_dim
    }

    /// Inside a slot the inner indices strictly increase; all of them lie below
    /// the inner dimension.
    spec fn inner_ok(&self) -> bool {
        &&& forall|k: int|
            0 <= k < self.inner_inds@.len() ==> (#[trigger] self.inner_inds@[k]) < self.inner_dim
        &&& forall|j: int, a: int, b: int|
            #[trigger] in_slot(self.indptr@, j, a) && #[trigger] in_slot(self.indptr@, j, b) && a
                < b ==> self.inner_inds@[a] < self.inner_inds@[b]
    }

    /// No stored value is zero.
    spec fn data_ok(&self) -> bool {
        forall|k: int| 0 <= k < self.data@.len() ==> !(#[trigger] self.data@[k]).is_zero_spec()
    }

    /// The invariant of the layout.
    #[verifier::opaque]
    pub closed spec fn wf(&self) -> bool {
        &&& self.shape_ok()
        &&& offsets_increase(self.indptr@)
        &&& self.outer_ok()
        &&& self.inner_ok()
        &&& self.data_ok()
    }

    /// The value at `(outer, inner)`: the stored one, or zero.
    pub open spec fn value_at(&self, outer: int, inner: int) -> V {
        entry_value(self.entries(), outer, inner)
    }

    /// Whether a value for `(outer, inner)` can be appended: the place lies
    /// inside the shape, fits the index type, and comes after the place of the
    /// last stored entry.
    pub open spec fn accepts(&self, outer: int, inner: int) -> bool {
        &&& 0 <= outer < self.outer_dim_spec()
        &&& 0 <= inner < self.inner_dim_spec()
        &&& outer <= u32::MAX
        &&& inner <= u32::MAX
        &&& (self.entries().len() > 0 ==> key_lt(key_of(self.entries().last()), (outer, inner)))
    }

    /// The lengths of the parts, and the bounds of slot `j`.
    proof fn lemma_slot(&self, j: int)
        requires
            self.wf(),
            0 <= j < self.outer_inds@.len(),
        ensures
            self.shape_ok(),
            self.entries().len() == self.data@.len(),
            self.indptr@[j] < self.indptr@[j + 1] <= self.data@.len(),
            self.outer_inds@[j] < self.outer_dim,
    {
        reveal(LilMat::wf);
        if j + 1 < self.indptr@.len() - 1 {
            assert(self.indptr@[j + 1] < self.indptr@[self.indptr@.len() - 1]);
        }
    }

    /// The lengths of the parts.
    proof fn lemma_shape(&self)
        requires
            self.wf(),
        ensures
            self.shape_ok(),
            self.entries().len() == self.data@.len(),
    {
        reveal(LilMat::wf);
    }

    /// The entry at position `k` of slot `j`.
    proof fn lemma_entry(&self, j: int, k: int)
        requires
            self.wf(),
            in_slot(self.indptr@, j, k),
        ensures
            0 <= k < self.data@.len(),
            0 <= j < self.outer_inds@.len(),
            self.entries()[k] == (
                self.outer_inds@[j] as int,
                self.inner_inds@[k] as int,
                self.data@[k],
            ),
    {
        reveal(LilMat::wf);
        lemma_slot_of(self.indptr@, j, k);
        if j + 1 < self.indptr@.len() - 1 {
            assert(self.indptr@[j + 1] < self.indptr@[self.indptr@.len() - 1]);
        }
    }

    /// What the invariant says of the stored entries.
    pub proof fn lemma_entries_valid(&self)
        requires
            self.wf(),
        ensures
            valid_entries(
                self.entries(),
                self.outer_dim_spec() as int,
                self.inner_dim_spec() as int,
            ),
    {
        reveal(LilMat::wf);
        let entries = self.entries();
        let indptr = self.indptr@;
        assert forall|a: int, b: int| 0 <= a < b < entries.len() implies key_lt(
            key_of(#[trigger] entries[a]),
            key_of(#[trigger] entries[b]),
        ) by {
            lemma_slot_exists(indptr, a, 0);
            lemma_slot_exists(indptr, b, 0);
            let sa = slot_of(indptr, a);
            let sb = slot_of(indptr, b);
            if sa == sb {
                assert(self.inner_inds@[a] < self.inner_inds@[b]);
            } else if sa < sb {
                assert(self.outer_inds@[sa] < self.outer_inds@[sb]);
            } else {
                if sb + 1 < sa {
                    assert(indptr[sb + 1] < indptr[sa]);
                }
            }
        }
        assert forall|k: int| 0 <= k < entries.len() implies {
            &&& 0 <= (#[trigger] entries[k]).0 < self.outer_dim as int
            &&& 0 <= entries[k].1 < self.inner_dim as int
            &&& entries[k].0 <= u32::MAX
            &&& entries[k].1 <= u32::MAX
            &&& !entries[k].2.is_zero_spec()
        } by {
            lemma_slot_exists(indptr, k, 0);
            assert(self.outer_inds@[slot_of(indptr, k)] < self.outer_dim);
            assert(self.inner_inds@[k] < self.inner_dim);
            assert(!self.data@[k].is_zero_spec());
        }
    }

    /// Creates an all-zero matrix of the given shape.
    pub fn new(shape: (usize, usize)) -> (m: Self)
        ensures
            m.wf(),
            m.outer_dim_spec() == shape.0,
            m.inner_dim_spec() == shape.1,
            m.entries() == Seq::<(int, int, V)>::empty(),
    {
        let mut indptr: Vec<usize> = Vec::new();
        indptr.push(0);
        let m = LilMat {
            outer_dim: shape.0,
            inner_dim: shape.1,
            indptr,
            outer_inds: Vec::new(),
            inner_inds: Vec::new(),
            data: Vec::new(),
        };
        proof {
            reveal(LilMat::wf);
            assert(m.entries() =~= Seq::<(int, int, V)>::empty());
            assert(m.inner_ok()) by {
                assert forall|j: int, a: int, b: int|
                    #[trigger] in_slot(m.indptr@, j, a) && #[trigger] in_slot(m.indptr@, j, b) && a
                        < b implies m.inner_inds@[a] < m.inner_inds@[b] by {}
            }
        }
        m
    }

    /// Creates an all-zero matrix of the given shape, with room for `nnz`
    /// values at `nnz_outer` outer indices.
    pub fn with_capacity(shape: (usize, usize), nnz_outer: usize, nnz: usize) -> (m: Self)
        ensures
            m.wf(),
            m.outer_dim_spec() == shape.0,
            m.inner_dim_spec() == shape.1,
            m.entries() == Seq::<(int, int, V)>::empty(),
    {
        let mut indptr: Vec<usize> = Vec::with_capacity(nnz_outer.saturating_add(1));
        indptr.push(0);
        let m = LilMat {
            outer_dim: shape.0,
            inner_dim: shape.1,
            indptr,
            outer_inds: Vec::with_capacity(nnz_outer),
            inner_inds: Vec::with_capacity(nnz),
            data: Vec::with_capacity(nnz),
        };
        proof {
            reveal(LilMat::wf);
            assert(m.entries() =~= Seq::<(int, int, V)>::empty());
            assert(m.inner_ok()) by {
                assert forall|j: int, a: int, b: int|
                    #[trigger] in_slot(m.indptr@, j, a) && #[trigger] in_slot(m.indptr@, j, b) && a
                        < b implies m.inner_inds@[a] < m.inner_inds@[b] by {}
            }
        }
        m
    }

    /// The shape of the matrix: outer dimension, then inner dimension.
    pub fn shape(&self) -> (s: (usize, usize))
        ensures
            s.0 == self.outer_dim_spec(),
            s.1 == self.inner_dim_spec(),
    {
        (self.outer_dim, self.inner_dim)
    }

    /// The number of rows: the outer dimension.
    pub fn rows(&self) -> (n: usize)
        ensures
            n == self.outer_dim_spec(),
    {
        self.outer_dim
    }

    /// The number of columns: the inner dimension.
    pub fn cols(&self) -> (n: usize)
        ensures
            n == self.inner_dim_spec(),
    {
        self.inner_dim
    }

    /// The number of stored values.
    pub fn nnz(&self) -> (n: usize)
        ensures
            n == self.entries().len(),
    {
        self.data.len()
    }

    /// The step from a matrix to the one with an entry more: the layout stays
    /// sound, and the entries are those of before, then the new one.
    proof fn lemma_appended(before: &Self, after: &Self, outer: u32, inner: u32, value: V)
        requires
            before.wf(),
            !value.is_zero_spec(),
            before.accepts(outer as int, inner as int),
            after.outer_dim == before.outer_dim,
            after.inner_dim == before.inner_dim,
            after.inner_inds@ == before.inner_inds@.push(inner),
            after.data@ == before.data@.push(value),
            before.outer_inds@.len() == 0 || before.outer_inds@.last() < outer ==> {
                &&& after.outer_inds@ == before.outer_inds@.push(outer)
                &&& after.indptr@ == before.indptr@.push((before.data@.len() + 1) as usize)
            },
            !(before.outer_inds@.len() == 0 || before.outer_inds@.last() < outer) ==> {
                &&& after.outer_inds@ == before.outer_inds@
                &&& after.indptr@ == before.indptr@.update(
                    before.indptr@.len() - 1,
                    (before.data@.len() + 1) as usize,
                )
            },
            before.data@.len() < usize::MAX,
        ensures
            after.wf(),
            after.entries() == before.entries().push((outer as int, inner as int, value)),
    {
        reveal(LilMat::wf);
        let n = before.data@.len() as int;
        let slots = before.outer_inds@.len() as int;
        let old_indptr = before.indptr@;
        let indptr = after.indptr@;
        let new_slot = slots == 0 || before.outer_inds@.last() < outer;
        let last = indptr.len() - 1;
        if n > 0 {
            assert(slots > 0) by {
                if slots == 0 {
                    assert(old_indptr[0] == n);
                }
            }
            if slots - 1 > 0 {
                assert(old_indptr[0] < old_indptr[slots - 1]);
            }
            assert(old_indptr[slots - 1] < old_indptr[slots]);
            assert(in_slot(old_indptr, slots - 1, n - 1));
            lemma_slot_of(old_indptr, slots - 1, n - 1);
            assert(before.entries().last() == (
                before.outer_inds@[slots - 1] as int,
                before.inner_inds@[n - 1] as int,
                before.data@[n - 1],
            ));
        } else if slots > 0 {
            assert(old_indptr[0] < old_indptr[slots]);
        }
        assert(offsets_increase(indptr)) by {
            assert forall|a: int, b: int| 0 <= a < b < indptr.len() implies indptr[a]
                < indptr[b] by {
                if b < last {
                    assert(old_indptr[a] < old_indptr[b]);
                } else {
                    if a < old_indptr.len() - 1 {
                        assert(old_indptr[a] < old_indptr[old_indptr.len() - 1]);
                    }
                }
            }
        }
        assert(in_slot(indptr, last - 1, n)) by {
            if !new_slot {
                assert(old_indptr[slots - 1] < old_indptr[slots]);
            }
        }
        lemma_slot_of(indptr, last - 1, n);
        assert forall|k: int| 0 <= k < n implies slot_of(indptr, k) == slot_of(old_indptr, k)
            && 0 <= slot_of(old_indptr, k) < slots by {
            lemma_slot_exists(old_indptr, k, 0);
            let j = slot_of(old_indptr, k);
            assert(in_slot(indptr, j, k));
            lemma_slot_of(indptr, j, k);
        }
        assert(after.entries() =~= before.entries().push((outer as int, inner as int, value)));
        assert(after.inner_ok()) by {
            assert forall|j: int, a: int, b: int|
                #[trigger] in_slot(indptr, j, a) && #[trigger] in_slot(indptr, j, b) && a
                    < b implies after.inner_inds@[a] < after.inner_inds@[b] by {
                if b < n {
                    lemma_slot_of(indptr, j, a);
                    lemma_slot_of(indptr, j, b);
                    lemma_slot_exists(old_indptr, a, 0);
                    lemma_slot_exists(old_indptr, b, 0);
                    assert(in_slot(old_indptr, j, a));
                    assert(in_slot(old_indptr, j, b));
                } else {
                    lemma_slot_of(indptr, j, b);
                    assert(j == last - 1);
                    if new_slot {
                        assert(a == n);
                    } else {
                        if a < n - 1 {
                            assert(in_slot(old_indptr, j, a));
                            assert(in_slot(old_indptr, j, n - 1));
                        }
                    }
                }
            }
        }
        assert(after.outer_ok());
        assert(after.data_ok());
        assert(after.shape_ok());
    }

    /// Tells whether a value for `(outer_ind, inner_ind)` can be appended.
    pub fn can_append(&self, outer_ind: usize, inner_ind: usize) -> (ok: bool)
        requires
            self.wf(),
        ensures
            ok == self.accepts(outer_ind as int, inner_ind as int),
    {
        proof {
            self.lemma_shape();
        }
        if outer_ind >= self.outer_dim || inner_ind >= self.inner_dim {
            return false;
        }
        if outer_ind > u32::MAX as usize || inner_ind > u32::MAX as usize {
            return false;
        }
        let n_slots = self.outer_inds.len();
        let n = self.data.len();
        if n == 0 {
            return true;
        }
        proof {
            if n_slots == 0 {
                assert(self.indptr@[0] == n);
            }
            self.lemma_slot(n_slots - 1);
            assert(in_slot(self.indptr@, n_slots - 1, n - 1));
            self.lemma_entry(n_slots - 1, n - 1);
        }
        let last_outer = self.outer_inds[n_slots - 1] as usize;
        let last_inner = self.inner_inds[n - 1] as usize;
        last_outer < outer_ind || (last_outer == outer_ind && last_inner < inner_ind)
    }

    /// Appends a value to the matrix. A zero value is dropped. Any other value
    /// must come after the last stored one: at a greater outer index, or at the
    /// same outer index and a greater inner index.
    pub fn append_value(&mut self, outer_ind: usize, inner_ind: usize, value: V)
        requires
            old(self).wf(),
            !value.is_zero_spec() ==> old(self).accepts(outer_ind as int, inner_ind as int),
        ensures
            final(self).wf(),
            final(self).outer_dim_spec() == old(self).outer_dim_spec(),
            final(self).inner_dim_spec() == old(self).inner_dim_spec(),
            final(self).entries() == if value.is_zero_spec() {
                old(self).entries()
            } else {
                old(self).entries().push((outer_ind as int, inner_ind as int, value))
            },
    {
        if value.is_zero() {
            return ;
        }
        let outer = outer_ind as u32;
        let inner = inner_ind as u32;
        let n_slots = self.outer_inds.len();
        proof {
            self.lemma_shape();
        }
        let new_slot = n_slots == 0 || self.outer_inds[n_slots - 1] < outer;
        if new_slot {
            self.outer_inds.push(outer);
            self.indptr.push(self.inner_inds.len());
        }
        self.inner_inds.push(inner);
        self.data.push(value);
        let last = self.indptr.len() - 1;
        let count = self.data.len();
        self.indptr.set(last, count);
        proof {
            if new_slot {
                assert(self.indptr@ =~= old(self).indptr@.push(count));
            }
            Self::lemma_appended(old(self), self, outer, inner, value);
        }
    }

    /// Writes the stored values into a dense matrix that is large enough to
    /// hold them, and leaves its other places as they are.
    pub fn assign_to_dense(&self, array: &mut DenseMat<V>)
        requires
            self.wf(),
            old(array).wf(),
            forall|k: int|
                0 <= k < self.entries().len() ==> (#[trigger] self.entries()[k]).0 < old(
                    array).rows_spec() && self.entries()[k].1 < old(array).cols_spec(),
        ensures
            final(array).wf(),
            final(array).rows_spec() == old(array).rows_spec(),
            final(array).cols_spec() == old(array).cols_spec(),
            forall|r: int, c: int|
                0 <= r < old(array).rows_spec() && 0 <= c < old(array).cols_spec() ==> final(
                    array).at(r, c) == match entry_position(self.entries(), r, c) {
                    Some(k) => self.entries()[k].2,
                    None => old(array).at(r, c),
                },
    {
        let ghost entries = self.entries();
        let ghost before = *array;
        proof {
            self.lemma_entries_valid();
            self.lemma_shape();
            assert(entries.take(0) =~= Seq::<(int, int, V)>::empty());
        }
        let mut j: usize = 0;
        while j < self.outer_inds.len()
            invariant
                self.wf(),
                self.shape_ok(),
                entries == self.entries(),
                entries.len() == self.data@.len(),
                entries_ordered(entries),
                before.wf(),
                forall|k: int|
                    0 <= k < entries.len() ==> (#[trigger] entries[k]).0 < before.rows_spec()
                        && entries[k].1 < before.cols_spec(),
                j <= self.outer_inds@.len(),
                array.wf(),
                array.rows_spec() == before.rows_spec(),
                array.cols_spec() == before.cols_spec(),
                forall|r: int, c: int|
                    0 <= r < before.rows_spec() && 0 <= c < before.cols_spec() ==> array.at(r, c)
                        == match entry_position(entries.take(self.indptr@[j as int] as int), r, c) {
                        Some(p) => entries[p].2,
                        None => before.at(r, c),
                    },
            decreases self.outer_inds@.len() - j,
        {
            proof {
                self.lemma_slot(j as int);
            }
            let ind_l = self.indptr[j];
            let ind_r = self.indptr[j + 1];
            let outer_ind = self.outer_inds[j] as usize;
            let mut k: usize = ind_l;
            while k < ind_r
                invariant
                    self.wf(),
                    self.shape_ok(),
                    entries == self.entries(),
                    entries.len() == self.data@.len(),
                    entries_ordered(entries),
                    before.wf(),
                    forall|k: int|
                        0 <= k < entries.len() ==> (#[trigger] entries[k]).0 < before.rows_spec()
                            && entries[k].1 < before.cols_spec(),
                    j < self.outer_inds@.len(),
                    ind_l == self.indptr@[j as int],
                    ind_r == self.indptr@[j + 1],
                    ind_r <= entries.len(),
                    outer_ind == self.outer_inds@[j as int],
                    ind_l <= k <= ind_r,
                    array.wf(),
                    array.rows_spec() == before.rows_spec(),
                    array.cols_spec() == before.cols_spec(),
                    forall|r: int, c: int|
                        0 <= r < before.rows_spec() && 0 <= c < before.cols_spec() ==> array.at(
                            r,
                            c,
                        ) == match entry_position(entries.take(k as int), r, c) {
                            Some(p) => entries[p].2,
                            None => before.at(r, c),
                        },
                decreases ind_r - k,
            {
                let inner_ind = self.inner_inds[k] as usize;
                let value = self.data[k];
                proof {
                    assert(in_slot(self.indptr@, j as int, k as int));
                    self.lemma_entry(j as int, k as int);
                    assert(entries[k as int] == (outer_ind as int, inner_ind as int, value));
                }
                array.set(outer_ind, inner_ind, value);
                proof {
                    assert forall|r: int, c: int|
                        0 <= r < before.rows_spec() && 0 <= c < before.cols_spec() implies array.at(
                        r,
                        c,
                    ) == match entry_position(entries.take(k + 1), r, c) {
                        Some(p) => entries[p].2,
                        None => before.at(r, c),
                    } by {
                        lemma_entry_position_extended(entries, k as int, r, c);
                    }
                }
                k += 1;
            }
            j += 1;
        }
        proof {
            assert(entries.take(self.indptr@[j as int] as int) =~= entries);
        }
    }

    /// The entries of the slots from `from` up to `to` carry outer indices that
    /// the vector does not hold: they lie strictly between `below` and `above`,
    /// two neighbours among the indices of the vector.
    proof fn lemma_slots_absent(
        &self,
        vec_indices: Seq<int>,
        from: int,
        to: int,
        p: int,
    )
        requires
            self.wf(),
            0 <= from <= to <= self.outer_inds@.len(),
            0 <= p <= vec_indices.len(),
            forall|a: int, b: int|
                0 <= a < b < vec_indices.len() ==> vec_indices[a] < vec_indices[b],
            p > 0 ==> forall|j: int|
                from <= j < self.outer_inds@.len() ==> vec_indices[p - 1] < self.outer_inds@[j],
            p < vec_indices.len() ==> forall|j: int|
                from <= j < to ==> self.outer_inds@[j] < vec_indices[p],
        ensures
            self.indptr@[from] <= self.indptr@[to] <= self.entries().len(),
            forall|k: int|
                self.indptr@[from] <= k < self.indptr@[to] ==> position_of(
                    vec_indices,
                    (#[trigger] self.entries()[k]).0,
                ) is None,
    {
        reveal(LilMat::wf);
        let indptr = self.indptr@;
        if from < to {
            assert(indptr[from] < indptr[to]);
        }
        if to < indptr.len() - 1 {
            assert(indptr[to] < indptr[indptr.len() - 1]);
        }
        assert forall|k: int| indptr[from] <= k < indptr[to] implies position_of(
            vec_indices,
            (#[trigger] self.entries()[k]).0,
        ) is None by {
            lemma_slot_exists(indptr, k, from);
            let slot = slot_of(indptr, k);
            if to <= slot {
                if to < slot {
                    assert(indptr[to] < indptr[slot]);
                }
            }
            let outer = self.outer_inds@[slot] as int;
            if exists|q: int| 0 <= q < vec_indices.len() && vec_indices[q] == outer {
                let q = choose|q: int| 0 <= q < vec_indices.len() && vec_indices[q] == outer;
                if q < p {
                    if q < p - 1 {
                        assert(vec_indices[q] < vec_indices[p - 1]);
                    }
                } else {
                    if p < q {
                        assert(vec_indices[p] < vec_indices[q]);
                    }
                }
            }
        }
    }

    /// Computes the product of the transposed matrix with a sparse vector.
    ///
    /// The outer indices of the matrix are searched for each index of the
    /// vector in turn, each search starting where the last one ended.
    pub fn t_dot_csvec(&self, vec: &SparseVec<V>) -> (out: Vec<V>)
        requires
            self.wf(),
            vec.wf(),
            vec.dim_spec() == self.outer_dim_spec(),
        ensures
            out@.len() == self.inner_dim_spec(),
            forall|c: int|
                0 <= c < self.inner_dim_spec() ==> out@[c] == t_dot_fold(
                    self.entries(),
                    vec.index_seq(),
                    vec.value_seq(),
                    c,
                ),
    {
        let ghost entries = self.entries();
        let ghost vi = vec.index_seq();
        let ghost vv = vec.value_seq();
        let mut out: Vec<V> = Vec::new();
        let mut c: usize = 0;
        while c < self.inner_dim
            invariant
                c <= self.inner_dim,
                out@.len() == c,
                forall|j: int| 0 <= j < c ==> out@[j] == V::zero_value(),
            decreases self.inner_dim - c,
        {
            out.push(V::zero());
            c += 1;
        }
        proof {
            self.lemma_entries_valid();
            self.lemma_shape();
            reveal(LilMat::wf);
            assert(entries.take(0) =~= Seq::<(int, int, V)>::empty());
        }
        let vec_indices = vec.indices();
        let vec_data = vec.data();
        let n = vec_indices.len();
        let n_slots = self.outer_inds.len();
        let mut i: usize = 0;
        let mut p: usize = 0;
        while p < n
            invariant
                self.wf(),
                self.shape_ok(),
                self.outer_ok(),
                vec.wf(),
                entries == self.entries(),
                entries.len() == self.data@.len(),
                valid_entries(entries, self.outer_dim as int, self.inner_dim as int),
                vi == vec.index_seq(),
                vv == vec.value_seq(),
                vec_data@ == vv,
                n == vi.len(),
                n == vec_indices@.len(),
                forall|q: int| 0 <= q < n ==> vec_indices@[q] as int == vi[q],
                p <= n,
                n_slots == self.outer_inds@.len(),
                i <= self.outer_inds@.len(),
                p > 0 ==> forall|j: int|
                    i <= j < self.outer_inds@.len() ==> vi[p - 1] < self.outer_inds@[j],
                out@.len() == self.inner_dim,
                forall|c: int|
                    0 <= c < self.inner_dim ==> out@[c] == t_dot_fold(
                        entries.take(self.indptr@[i as int] as int),
                        vi,
                        vv,
                        c,
                    ),
            decreases n - p,
        {
            let target = vec_indices[p];
            let val1 = vec_data[p];
            let (at, found) = search_from(&self.outer_inds, i, target);
            proof {
                self.lemma_slots_absent(vi, i as int, at as int, p as int);
                assert forall|c: int| 0 <= c < self.inner_dim implies out@[c] == t_dot_fold(
                    entries.take(self.indptr@[at as int] as int),
                    vi,
                    vv,
                    c,
                ) by {
                    lemma_t_dot_fold_skip(
                        entries,
                        vi,
                        vv,
                        c,
                        self.indptr@[i as int] as int,
                        self.indptr@[at as int] as int,
                    );
                }
            }
            i = at;
            if found {
                proof {
                    self.lemma_slot(i as int);
                    lemma_position_of_unique(vi, p as int);
                }
                let ind_l = self.indptr[i];
                let ind_r = self.indptr[i + 1];
                let mut k: usize = ind_l;
                while k < ind_r
                    invariant
                        self.wf(),
                        entries == self.entries(),
                        entries.len() == self.data@.len(),
                        self.shape_ok(),
                        vv.len() == n,
                        p < n,
                        valid_entries(entries, self.outer_dim as int, self.inner_dim as int),
                        i < self.outer_inds@.len(),
                        self.outer_inds@[i as int] == target,
                        position_of(vi, target as int) == Some(p as int),
                        val1 == vv[p as int],
                        ind_l == self.indptr@[i as int],
                        ind_r == self.indptr@[i + 1],
                        ind_r <= entries.len(),
                        ind_l <= k <= ind_r,
                        out@.len() == self.inner_dim,
                        forall|c: int|
                            0 <= c < self.inner_dim ==> out@[c] == t_dot_fold(
                                entries.take(k as int),
                                vi,
                                vv,
                                c,
                            ),
                    decreases ind_r - k,
                {
                    proof {
                        assert(in_slot(self.indptr@, i as int, k as int));
                        self.lemma_entry(i as int, k as int);
                        assert(entries[k as int].1 < self.inner_dim);
                    }
                    let inner_idx = self.inner_inds[k] as usize;
                    let val2 = self.data[k];
                    let sum = out[inner_idx].plus(val1.times(val2));
                    out.set(inner_idx, sum);
                    proof {
                        assert forall|c: int| 0 <= c < self.inner_dim implies out@[c]
                            == t_dot_fold(entries.take(k + 1), vi, vv, c) by {
                            lemma_t_dot_fold_step(entries, vi, vv, c, k as int);
                        }
                    }
                    k += 1;
                }
                i += 1;
            }
            p += 1;
        }
        proof {
            let slots = self.outer_inds@.len() as int;
            self.lemma_slots_absent(vi, i as int, slots, p as int);
            assert forall|c: int| 0 <= c < self.inner_dim implies out@[c] == t_dot_fold(
                entries,
                vi,
                vv,
                c,
            ) by {
                lemma_t_dot_fold_skip(
                    entries,
                    vi,
                    vv,
                    c,
                    self.indptr@[i as int] as int,
                    self.indptr@[slots] as int,
                );
                assert(entries.take(self.indptr@[slots] as int) =~= entries);
            }
        }
        out
    }

    /// The density of the matrix: the number of stored values divided by the
    /// number of places. A matrix without rows and without columns has no
    /// density, and the result is the value that stands for an undefined
    /// quotient.
    pub fn density<R: Real>(&self) -> (d: R)
        requires
            self.outer_dim_spec() * self.inner_dim_spec() <= usize::MAX,
        ensures
            d == density_of::<R>(
                self.entries().len(),
                self.outer_dim_spec() as nat,
                self.inner_dim_spec() as nat,
            ),
    {
        if self.outer_dim == 0 && self.inner_dim == 0 {
            R::nan()
        } else {
            R::from_count(self.data.len()).div(R::from_count(self.outer_dim * self.inner_dim))
        }
    }

    /// The size in memory of the four parts, in bytes, or `None` when it does
    /// not fit the machine word.
    pub fn mem_size_checked(&self) -> (r: Option<usize>)
        requires
            self.wf(),
        ensures
            r == if self.mem_size_spec() <= usize::MAX {
                Some(self.mem_size_spec() as usize)
            } else {
                None
            },
    {
        proof {
            self.lemma_shape();
        }
        let word = core::mem::size_of::<usize>();
        let index = core::mem::size_of::<u32>();
        let value = core::mem::size_of::<V>();
        let a = match self.indptr.len().checked_mul(word) {
            Some(a) => a,
            None => {
                return None;
            },
        };
        let b = match self.outer_inds.len().checked_mul(index) {
            Some(b) => b,
            None => {
                return None;
            },
        };
        let c = match self.inner_inds.len().checked_mul(index) {
            Some(c) => c,
            None => {
                return None;
            },
        };
        let d = match self.data.len().checked_mul(value) {
            Some(d) => d,
            None => {
                return None;
            },
        };
        let ab = match a.checked_add(b) {
            Some(ab) => ab,
            None => {
                return None;
            },
        };
        let abc = match ab.checked_add(c) {
            Some(abc) => abc,
            None => {
                return None;
            },
        };
        abc.checked_add(d)
    }

    /// The size in memory of the four parts, in bytes.
    pub fn mem_size(&self) -> (n: usize)
        requires
            self.wf(),
            self.mem_size_spec() <= usize::MAX,
        ensures
            n == self.mem_size_spec(),
    {
        match self.mem_size_checked() {
            Some(n) => n,
            None => 0,
        }
    }

    /// Tells whether the parts of the matrix fit together as the layout asks.
    pub fn check(&self) -> (ok: bool)
        ensures
            ok == self.wf(),
    {
        proof {
            reveal(LilMat::wf);
        }
        let n_slots = self.outer_inds.len();
        let nnz = self.data.len();
        if self.indptr.len() == 0 || self.indptr.len() - 1 != n_slots {
            return false;
        }
        if self.indptr[0] != 0 || self.indptr[n_slots] != nnz || self.inner_inds.len() != nnz {
            return false;
        }
        let ghost indptr = self.indptr@;
        let mut j: usize = 0;
        while j < n_slots
            invariant
                self.shape_ok(),
                indptr == self.indptr@,
                n_slots == self.outer_inds@.len(),
                nnz == self.data@.len(),
                j <= n_slots,
                forall|a: int, b: int| 0 <= a < b <= j ==> indptr[a] < indptr[b],
                indptr[j as int] <= nnz,
                forall|a: int, b: int|
                    0 <= a < b < j ==> self.outer_inds@[a] < self.outer_inds@[b],
                forall|a: int| 0 <= a < j ==> (#[trigger] self.outer_inds@[a]) < self.outer_dim,
                forall|k: int|
                    0 <= k < indptr[j as int] ==> (#[trigger] self.inner_inds@[k]) < self.inner_dim,
                forall|k: int|
                    0 <= k < indptr[j as int] ==> !(#[trigger] self.data@[k]).is_zero_spec(),
                forall|s: int, a: int, b: int|
                    s < j && #[trigger] in_slot(indptr, s, a) && #[trigger] in_slot(indptr, s, b)
                        && a < b ==> self.inner_inds@[a] < self.inner_inds@[b],
            decreases n_slots - j,
        {
            proof {
                reveal(LilMat::wf);
            }
            let from = self.indptr[j];
            let to = self.indptr[j + 1];
            if from >= to || to > nnz {
                proof {
                    if self.wf() {
                        assert(indptr[j as int] < indptr[j + 1]);
                        if j + 1 < n_slots {
                            assert(indptr[j + 1] < indptr[n_slots as int]);
                        }
                        assert(false);
                    }
                }
                return false;
            }
            if self.outer_inds[j] as usize >= self.outer_dim {
                return false;
            }
            if j > 0 && self.outer_inds[j - 1] >= self.outer_inds[j] {
                proof {
                    if self.wf() {
                        assert(self.outer_inds@[j - 1] < self.outer_inds@[j as int]);
                    }
                }
                return false;
            }
            let mut k: usize = from;
            while k < to
                invariant
                    from <= k <= to,
                    to <= nnz,
                    nnz == self.data@.len(),
                    self.inner_inds@.len() == nnz,
                    indptr == self.indptr@,
                    j < n_slots,
                    n_slots + 1 == indptr.len(),
                    from == indptr[j as int],
                    to == indptr[j + 1],
                    forall|i: int| 0 <= i < k ==> (#[trigger] self.inner_inds@[i]) < self.inner_dim,
                    forall|i: int| 0 <= i < k ==> !(#[trigger] self.data@[i]).is_zero_spec(),
                    forall|a: int, b: int|
                        from <= a < b < k ==> self.inner_inds@[a] < self.inner_inds@[b],
                decreases to - k,
            {
                proof {
                    reveal(LilMat::wf);
                }
                if self.inner_inds[k] as usize >= self.inner_dim {
                    return false;
                }
                if self.data[k].is_zero() {
                    return false;
                }
                if k > from && self.inner_inds[k - 1] >= self.inner_inds[k] {
                    proof {
                        if self.wf() {
                            assert(in_slot(indptr, j as int, k - 1));
                            assert(in_slot(indptr, j as int, k as int));
                        }
                    }
                    return false;
                }
                proof {
                    assert forall|a: int, b: int| from <= a < b < k + 1 implies self.inner_inds@[a]
                        < self.inner_inds@[b] by {
                        if b == k && a < k - 1 {
                            assert(self.inner_inds@[a] < self.inner_inds@[k - 1]);
                        }
                    }
                }
                k += 1;
            }
            proof {
                assert forall|a: int, b: int| 0 <= a < b <= j + 1 implies indptr[a] < indptr[b] by {
                    if b == j + 1 && a < j {
                        assert(indptr[a] < indptr[j as int]);
                    }
                }
                assert forall|a: int, b: int| 0 <= a < b < j + 1 implies self.outer_inds@[a]
                    < self.outer_inds@[b] by {
                    if b == j && a < j - 1 {
                        assert(self.outer_inds@[a] < self.outer_inds@[j - 1]);
                    }
                }
                assert forall|s: int, a: int, b: int|
                    s < j + 1 && #[trigger] in_slot(indptr, s, a) && #[trigger] in_slot(
                        indptr,
                        s,
                        b,
                    ) && a < b implies self.inner_inds@[a] < self.inner_inds@[b] by {
                    if s == j {
                        assert(from <= a < b < to);
                    }
                }
            }
            j += 1;
        }
        proof {
            reveal(LilMat::wf);
            assert(offsets_increase(indptr));
            assert(self.outer_ok());
            assert(self.inner_ok());
            assert(self.data_ok());
        }
        true
    }

    /// The matrix with the given parts, whether they fit together or not.
    pub closed spec fn assembled(
        shape: (usize, usize),
        indptr: Vec<usize>,
        outer_inds: Vec<u32>,
        inner_inds: Vec<u32>,
        data: Vec<V>,
    ) -> Self {
        LilMat { outer_dim: shape.0, inner_dim: shape.1, indptr, outer_inds, inner_inds, data }
    }

    /// Builds a matrix from the parts of its layout, if they fit together:
    /// there is one offset more than there are outer indices; the offsets
    /// start at zero, strictly increase and end at the number of values; the
    /// outer indices strictly increase; the inner indices strictly increase
    /// between two offsets; every index lies inside the shape; and no value is
    /// zero.
    pub fn from_raw_parts(
        shape: (usize, usize),
        indptr: Vec<usize>,
        outer_inds: Vec<u32>,
        inner_inds: Vec<u32>,
        data: Vec<V>,
    ) -> (r: Option<Self>)
        ensures
            r is Some <==> Self::assembled(shape, indptr, outer_inds, inner_inds, data).wf(),
            r matches Some(m) ==> m == Self::assembled(shape, indptr, outer_inds, inner_inds, data)
                && m.outer_dim_spec() == shape.0 && m.inner_dim_spec() == shape.1,
    {
        let m = LilMat { outer_dim: shape.0, inner_dim: shape.1, indptr, outer_inds, inner_inds, data };
        if m.check() {
            Some(m)
        } else {
            None
        }
    }

    /// The parts of the layout: the offsets of the slots, their outer indices,
    /// the inner indices, and the values.
    pub fn into_raw_parts(self) -> (r: (Vec<usize>, Vec<u32>, Vec<u32>, Vec<V>))
        ensures
            Self::assembled(
                (self.outer_dim_spec(), self.inner_dim_spec()),
                r.0,
                r.1,
                r.2,
                r.3,
            ) == self,
            r.3@.len() == self.entries().len(),
    {
        (self.indptr, self.outer_inds, self.inner_inds, self.data)
    }

    /// The stored entries as triplets of outer index, inner index and value.
    pub fn triplets(&self) -> (r: Vec<(usize, usize, V)>)
        requires
            self.wf(),
        ensures
            r@.len() == self.entries().len(),
            forall|k: int|
                0 <= k < r@.len() ==> (#[trigger] r@[k]).0 == self.entries()[k].0 && r@[k].1
                    == self.entries()[k].1 && r@[k].2 == self.entries()[k].2,
    {
        let mut out: Vec<(usize, usize, V)> = Vec::new();
        proof {
            self.lemma_shape();
            reveal(LilMat::wf);
        }
        let mut j: usize = 0;
        while j < self.outer_inds.len()
            invariant
                self.wf(),
                self.shape_ok(),
                self.entries().len() == self.data@.len(),
                j <= self.outer_inds@.len(),
                out@.len() == self.indptr@[j as int],
                forall|k: int|
                    0 <= k < out@.len() ==> (#[trigger] out@[k]).0 == self.entries()[k].0
                        && out@[k].1 == self.entries()[k].1 && out@[k].2 == self.entries()[k].2,
            decreases self.outer_inds@.len() - j,
        {
            proof {
                self.lemma_slot(j as int);
            }
            let to = self.indptr[j + 1];
            let outer = self.outer_inds[j] as usize;
            let mut k: usize = self.indptr[j];
            while k < to
                invariant
                    self.wf(),
                    self.shape_ok(),
                    self.entries().len() == self.data@.len(),
                    j < self.outer_inds@.len(),
                    outer == self.outer_inds@[j as int],
                    self.indptr@[j as int] <= k <= to,
                    to == self.indptr@[j + 1],
                    to <= self.data@.len(),
                    out@.len() == k,
                    forall|i: int|
                        0 <= i < out@.len() ==> (#[trigger] out@[i]).0 == self.entries()[i].0
                            && out@[i].1 == self.entries()[i].1 && out@[i].2
                            == self.entries()[i].2,
                decreases to - k,
            {
                proof {
                    assert(in_slot(self.indptr@, j as int, k as int));
                    self.lemma_entry(j as int, k as int);
                }
                out.push((outer, self.inner_inds[k] as usize, self.data[k]));
                k += 1;
            }
            j += 1;
        }
        out
    }

    /// The matrix written out in full.
    pub fn to_dense(&self) -> (dense: DenseMat<V>)
        requires
            self.wf(),
            self.outer_dim_spec() * self.inner_dim_spec() <= usize::MAX,
        ensures
            dense_form_of(dense, *self),
    {
        let mut dense_mat = DenseMat::<V>::zeros(self.outer_dim, self.inner_dim);
        proof {
            self.lemma_entries_valid();
            assert forall|r: int, c: int|
                0 <= r < self.outer_dim && 0 <= c < self.inner_dim implies dense_mat.at(r, c)
                == V::zero_value() by {
                crate::dense_mat::lemma_flat_index_in_range(
                    r,
                    c,
                    self.outer_dim as int,
                    self.inner_dim as int,
                );
            }
        }
        self.assign_to_dense(&mut dense_mat);
        dense_mat
    }
}

/// Whether a dense matrix holds what a sparse one holds.
pub open spec fn dense_form_of<V: Scalar>(d: DenseMat<V>, m: LilMat<V>) -> bool {
    &&& d.wf()
    &&& d.rows_spec() == m.outer_dim_spec()
    &&& d.cols_spec() == m.inner_dim_spec()
    &&& forall|r: int, c: int|
        0 <= r < m.outer_dim_spec() && 0 <= c < m.inner_dim_spec() ==> d.at(r, c) == m.value_at(
            r,
            c,
        )
}

} // verus!
