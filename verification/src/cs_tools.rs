//! Selecting lanes of a compressed matrix, and renumbering its inner indices.

use vstd::prelude::*;
use crate::cs_mat::{compressed_ok, lane_of, lane_valid, lemma_lane_prefix, CsMat};
use crate::index_set::{index_set_view, IndexSet};
use crate::sorting::{key_le, sort_unstable_by_key, SortKey};

verus! {

/// The inner indices of a matrix, each sent through `mapping`.
pub open spec fn mapped_indices(indices: Seq<u32>, mapping: Seq<u32>) -> Seq<u32> {
    Seq::new(indices.len(), |k: int| mapping[indices[k] as int])
}

/// Whether the inner indices of `m` can be sent through `mapping` into a
/// matrix with `new_inner` as its inner dimension: the mapping covers every
/// stored index, and the new indices of each lane strictly increase and stay
/// below `new_inner`.
pub open spec fn remap_allowed<V>(m: CsMat<V>, mapping: Seq<u32>, new_inner: usize) -> bool {
    &&& forall|k: int|
        0 <= k < m.indices_spec().len() ==> (#[trigger] m.indices_spec()[k]) < mapping.len()
    &&& compressed_ok(
        m.outer_dims_spec() as int,
        new_inner as int,
        m.indptr_spec(),
        mapped_indices(m.indices_spec(), mapping),
        m.data_spec().len() as int,
    )
}

/// Whether `after` is `before` with its inner indices sent through `mapping`
/// and `new_inner` as its inner dimension. Orientation, lanes and values stay.
pub open spec fn remapped<V>(
    before: CsMat<V>,
    mapping: Seq<u32>,
    new_inner: usize,
    after: CsMat<V>,
) -> bool {
    &&& after.is_csr_spec() == before.is_csr_spec()
    &&& after.outer_dims_spec() == before.outer_dims_spec()
    &&& after.inner_dims_spec() == new_inner
    &&& after.indptr_spec() == before.indptr_spec()
    &&& after.data_spec() == before.data_spec()
    &&& after.indices_spec() == mapped_indices(before.indices_spec(), mapping)
}

/// Whether a sequence of indices strictly increases.
pub open spec fn strictly_increasing(s: Seq<u32>) -> bool {
    forall|a: int, b: int| 0 <= a < b < s.len() ==> s[a] < s[b]
}

/// Whether `after` is `before` with its inner indices renumbered to leave no
/// gaps, and `new_to_old` tells the old index of each new one: it lists the
/// inner indices that `before` uses, each once, in increasing order.
pub open spec fn shrunk<V>(before: CsMat<V>, after: CsMat<V>, new_to_old: Seq<u32>) -> bool {
    &&& strictly_increasing(new_to_old)
    &&& forall|x: u32| new_to_old.contains(x) <==> before.indices_spec().contains(x)
    &&& after.is_csr_spec() == before.is_csr_spec()
    &&& after.outer_dims_spec() == before.outer_dims_spec()
    &&& after.inner_dims_spec() == new_to_old.len()
    &&& after.indptr_spec() == before.indptr_spec()
    &&& after.data_spec() == before.data_spec()
    &&& after.indices_spec().len() == before.indices_spec().len()
    &&& forall|k: int|
        0 <= k < after.indices_spec().len() ==> (#[trigger] after.indices_spec()[k])
            < new_to_old.len() && new_to_old[after.indices_spec()[k] as int]
            == before.indices_spec()[k]
}

/// Whether `after` holds the lanes of `before` that `selection` names, in the
/// order of the selection. A selected lane that `before` does not have is
/// empty in `after`.
pub open spec fn selects<V>(before: CsMat<V>, selection: Seq<usize>, after: CsMat<V>) -> bool {
    &&& after.is_csr_spec()
    &&& after.outer_dims_spec() == selection.len()
    &&& after.inner_dims_spec() == before.inner_dims_spec()
    &&& forall|j: int|
        0 <= j < selection.len() ==> #[trigger] after.lane(j) == if selection[j]
            < before.outer_dims_spec() {
            before.lane(selection[j] as int)
        } else {
            Seq::<(u32, V)>::empty()
        }
}

/// Copying lanes out of a compressed matrix.
pub trait CsMatBaseTools<DataT>: Sized {
    /// The matrix itself.
    spec fn this(&self) -> CsMat<DataT>;

    /// Builds a row-major matrix from the lanes that `indices` names, in that
    /// order. A lane may be named more than once, or not at all.
    fn copy_outer_dims(&self, indices: &[usize]) -> (m: CsMat<DataT>)
        requires
            self.this().wf(),
        ensures
            m.wf(),
            selects(self.this(), indices@, m),
    ;
}

/// Renumbering the inner indices of a compressed matrix.
pub trait CsMatITools<DataT: Copy>: Sized {
    /// The matrix itself.
    spec fn mat(&self) -> CsMat<DataT>;

    /// Renumbers the inner indices so that they leave no gaps. Returns the
    /// matrix in the smaller index space, and for each new index the old one.
    fn shrink_inner_indices(self) -> (r: (Self, Vec<u32>))
        requires
            self.mat().wf(),
        ensures
            r.0.mat().wf(),
            shrunk(self.mat(), r.0.mat(), r.1@),
    ;

    /// Sends every inner index through `old_index_to_new`, and makes
    /// `new_inner_dims` the inner dimension.
    fn remap_inner_indices(self, old_index_to_new: &[u32], new_inner_dims: usize) -> (r: Self)
        requires
            self.mat().wf(),
            remap_allowed(self.mat(), old_index_to_new@, new_inner_dims),
        ensures
            r.mat().wf(),
            remapped(self.mat(), old_index_to_new@, new_inner_dims, r.mat()),
    ;
}

impl<V: Copy> CsMatBaseTools<V> for CsMat<V> {
    open spec fn this(&self) -> CsMat<V> {
        *self
    }

    fn copy_outer_dims(&self, indices: &[usize]) -> (m: CsMat<V>) {
        let n = indices.len();
        let mut iptr: Vec<usize> = Vec::with_capacity(n.saturating_add(1));
        let mut ind: Vec<u32> = Vec::with_capacity(n.saturating_add(n));
        let mut data: Vec<V> = Vec::with_capacity(n.saturating_add(n));
        let src_ptr = self.indptr();
        let src_ind = self.indices();
        let src_data = self.data();
        let outer = self.outer_dims();
        let ghost inner = self.inner_dims_spec() as int;

        iptr.push(0);
        let mut j: usize = 0;
        while j < n
            invariant
                self.wf(),
                n == indices@.len(),
                outer == self.outer_dims_spec(),
                inner == self.inner_dims_spec(),
                src_ptr@ == self.indptr_spec(),
                src_ind@ == self.indices_spec(),
                src_data@ == self.data_spec(),
                j <= n,
                iptr@.len() == j + 1,
                iptr@[0] == 0,
                iptr@[j as int] == ind@.len(),
                ind@.len() == data@.len(),
                forall|i: int| 0 <= i < j ==> #[trigger] lane_valid(iptr@, ind@, i, inner),
                forall|i: int|
                    0 <= i < j ==> #[trigger] lane_of(iptr@, ind@, data@, i) == if indices@[i]
                        < outer {
                        self.lane(indices@[i] as int)
                    } else {
                        Seq::<(u32, V)>::empty()
                    },
            decreases n - j,
        {
            let i = indices[j];
            let ghost start = ind@.len();
            let ghost iptr0 = iptr@;
            let ghost ind0 = ind@;
            let ghost data0 = data@;
            if i < outer {
                assert(lane_valid(src_ptr@, src_ind@, i as int, inner));
                let from = src_ptr[i];
                let to = src_ptr[i + 1];
                let mut k: usize = from;
                while k < to
                    invariant
                        from <= k <= to,
                        to <= src_ind@.len(),
                        src_ind@.len() == src_data@.len(),
                        ind@.len() == start + (k - from),
                        data@.len() == start + (k - from),
                        ind0.len() == start,
                        data0.len() == start,
                        forall|t: int| 0 <= t < start ==> ind@[t] == ind0[t],
                        forall|t: int| 0 <= t < start ==> data@[t] == data0[t],
                        forall|t: int|
                            0 <= t < k - from ==> (#[trigger] ind@[start + t]) == src_ind@[from + t]
                                && data@[start + t] == src_data@[from + t],
                    decreases to - k,
                {
                    ind.push(src_ind[k]);
                    data.push(src_data[k]);
                    k += 1;
                }
            }
            iptr.push(ind.len());
            proof {
                assert forall|t: int| 0 <= t < j implies #[trigger] lane_valid(
                    iptr@,
                    ind@,
                    t,
                    inner,
                ) by {
                    assert(lane_valid(iptr0, ind0, t, inner));
                    lemma_lane_prefix(iptr0, ind0, data0, iptr@, ind@, data@, t, inner);
                }
                assert forall|t: int| 0 <= t < j implies #[trigger] lane_of(iptr@, ind@, data@, t)
                    == if indices@[t] < outer {
                    self.lane(indices@[t] as int)
                } else {
                    Seq::<(u32, V)>::empty()
                } by {
                    assert(lane_valid(iptr0, ind0, t, inner));
                    assert(lane_of(iptr0, ind0, data0, t) == if indices@[t] < outer {
                        self.lane(indices@[t] as int)
                    } else {
                        Seq::<(u32, V)>::empty()
                    });
                    lemma_lane_prefix(iptr0, ind0, data0, iptr@, ind@, data@, t, inner);
                }
                if i < outer {
                    let from = src_ptr@[i as int] as int;
                    assert(lane_of(iptr@, ind@, data@, j as int) =~= self.lane(i as int)) by {
                        assert forall|t: int| 0 <= t < src_ptr@[i + 1] - from implies lane_of(
                            iptr@,
                            ind@,
                            data@,
                            j as int,
                        )[t] == self.lane(i as int)[t] by {
                            assert(ind@[start + t] == src_ind@[from + t]);
                        }
                    }
                    assert(lane_valid(iptr@, ind@, j as int, inner)) by {
                        assert forall|a: int| iptr@[j as int] <= a < iptr@[j + 1] implies (
                        #[trigger] ind@[a]) < inner by {
                            assert(ind@[start + (a - start)] == src_ind@[from + (a - start)]);
                        }
                        assert forall|a: int, b: int|
                            iptr@[j as int] <= a < b < iptr@[j + 1] implies (#[trigger] ind@[a]) < (
                        #[trigger] ind@[b]) by {
                            assert(ind@[start + (a - start)] == src_ind@[from + (a - start)]);
                            assert(ind@[start + (b - start)] == src_ind@[from + (b - start)]);
                        }
                    }
                } else {
                    assert(lane_of(iptr@, ind@, data@, j as int) =~= Seq::<(u32, V)>::empty());
                    assert(lane_valid(iptr@, ind@, j as int, inner));
                }
            }
            j += 1;
        }
        CsMat::new((n, self.inner_dims()), iptr, ind, data)
    }
}

/// Every position of a compressed layout lies in a lane, so every stored
/// index is below the inner dimension.
pub proof fn lemma_index_in_lane(
    outer: int,
    inner: int,
    indptr: Seq<usize>,
    indices: Seq<u32>,
    k: int,
    from: int,
) -> (lane: int)
    requires
        compressed_ok(outer, inner, indptr, indices, indices.len() as int),
        0 <= from < outer,
        indptr[from] <= k < indices.len(),
    ensures
        from <= lane < outer,
        indptr[lane] <= k < indptr[lane + 1],
        indices[k] < inner,
    decreases outer - from,
{
    assert(lane_valid(indptr, indices, from, inner));
    if k < indptr[from + 1] {
        from
    } else {
        lemma_index_in_lane(outer, inner, indptr, indices, k, from + 1)
    }
}

/// The element at a place of a strictly increasing sequence of indices is at
/// least the place, so the sequence is no longer than there are indices.
pub proof fn lemma_increasing_at_least_place(s: Seq<u32>, i: int)
    requires
        strictly_increasing(s),
        0 <= i < s.len(),
    ensures
        s[i] >= i,
    decreases i,
{
    if i > 0 {
        lemma_increasing_at_least_place(s, i - 1);
        assert(s[i - 1] < s[i]);
    }
}

/// Distinct indices, sorted, strictly increase, and are the indices of before.
proof fn lemma_sorted_distinct(before: Seq<u32>, after: Seq<u32>)
    requires
        before.no_duplicates(),
        after.to_multiset() == before.to_multiset(),
        forall|i: int, j: int|
            0 <= i < j < after.len() ==> key_le(after[i].key_spec(), after[j].key_spec()),
    ensures
        strictly_increasing(after),
        forall|x: u32| after.contains(x) <==> before.contains(x),
{
    before.lemma_multiset_has_no_duplicates();
    after.lemma_multiset_has_no_duplicates_conv();
    assert forall|x: u32| after.contains(x) <==> before.contains(x) by {
        vstd::seq_lib::to_multiset_contains(after, x);
        vstd::seq_lib::to_multiset_contains(before, x);
    }
    assert forall|a: int, b: int| 0 <= a < b < after.len() implies after[a] < after[b] by {
        assert(key_le(after[a].key_spec(), after[b].key_spec()));
        assert(after[a] != after[b]);
    }
}

/// The inner indices that a matrix uses, each once, in the order in which
/// they first occur.
fn distinct_indices(src: &Vec<u32>, capacity: usize) -> (found: Vec<u32>)
    ensures
        found@.no_duplicates(),
        forall|x: u32| found@.contains(x) <==> src@.contains(x),
{
    let mut found: Vec<u32> = Vec::with_capacity(capacity);
    let mut index_set = IndexSet::new();
    let n = src.len();
    let mut k: usize = 0;
    while k < n
        invariant
            n == src@.len(),
            k <= n,
            found@.no_duplicates(),
            forall|j: int|
                0 <= j < found@.len() ==> index_set_view(index_set).contains(
                    (#[trigger] found@[j]) as usize,
                ),
            forall|x: usize| #[trigger]
                index_set_view(index_set).contains(x) ==> x <= u32::MAX && found@.contains(x as u32),
            forall|j: int| 0 <= j < k ==> found@.contains(#[trigger] src@[j]),
            forall|j: int|
                0 <= j < found@.len() ==> src@.take(k as int).contains(#[trigger] found@[j]),
        decreases n - k,
    {
        let i = src[k];
        let ghost before = found@;
        let ghost view0 = index_set_view(index_set);
        let fresh = index_set.insert(i as usize);
        if fresh {
            found.push(i);
            proof {
                assert(!before.contains(i)) by {
                    if before.contains(i) {
                        let j = choose|j: int| 0 <= j < before.len() && before[j] == i;
                        assert(view0.contains(before[j] as usize));
                    }
                }
                assert(found@[before.len() as int] == i);
                assert forall|x: usize| #[trigger]
                    index_set_view(index_set).contains(x) implies x <= u32::MAX && found@.contains(
                    x as u32,
                ) by {
                    if x == i as usize {
                        assert(found@[before.len() as int] == x as u32);
                    } else {
                        assert(view0.contains(x));
                        let j = choose|j: int| 0 <= j < before.len() && before[j] == x as u32;
                        assert(found@[j] == x as u32);
                    }
                }
            }
        } else {
            proof {
                assert(view0.contains(i as usize));
                assert(before.contains(i));
            }
        }
        proof {
            assert forall|j: int| 0 <= j < k + 1 implies found@.contains(#[trigger] src@[j]) by {
                if j < k {
                    assert(before.contains(src@[j]));
                    let t = choose|t: int| 0 <= t < before.len() && before[t] == src@[j];
                    assert(found@[t] == src@[j]);
                } else {
                    if fresh {
                        assert(found@[before.len() as int] == src@[j]);
                    } else {
                        let t = choose|t: int| 0 <= t < before.len() && before[t] == i;
                        assert(found@[t] == src@[j]);
                    }
                }
            }
            assert forall|j: int| 0 <= j < found@.len() implies src@.take(k + 1).contains(
                #[trigger] found@[j],
            ) by {
                if j < before.len() {
                    assert(src@.take(k as int).contains(before[j]));
                    let t = choose|t: int|
                        0 <= t < src@.take(k as int).len() && src@.take(k as int)[t] == before[j];
                    assert(src@.take(k + 1)[t] == found@[j]);
                } else {
                    assert(src@.take(k + 1)[k as int] == found@[j]);
                }
            }
        }
        k += 1;
    }
    proof {
        assert(src@.take(n as int) =~= src@);
        assert forall|x: u32| found@.contains(x) <==> src@.contains(x) by {
            if found@.contains(x) {
                let j = choose|j: int| 0 <= j < found@.len() && found@[j] == x;
                assert(src@.take(n as int).contains(found@[j]));
            }
            if src@.contains(x) {
                let j = choose|j: int| 0 <= j < src@.len() && src@[j] == x;
                assert(found@.contains(src@[j]));
            }
        }
    }
    found
}

/// The table that gives each old index in `new_to_old` its place there, and
/// zero to every other index below `inner_dims`.
fn lookup_table(new_to_old: &Vec<u32>, inner_dims: usize) -> (lookup: Vec<u32>)
    requires
        strictly_increasing(new_to_old@),
        forall|j: int| 0 <= j < new_to_old@.len() ==> (#[trigger] new_to_old@[j]) < inner_dims,
    ensures
        lookup@.len() == inner_dims,
        forall|j: int| 0 <= j < new_to_old@.len() ==> lookup@[(#[trigger] new_to_old@[j]) as int] == j,
{
    let mut lookup: Vec<u32> = vec![0u32; inner_dims];
    let n = new_to_old.len();
    let mut new_index: usize = 0;
    while new_index < n
        invariant
            n == new_to_old@.len(),
            new_index <= n,
            strictly_increasing(new_to_old@),
            forall|j: int| 0 <= j < new_to_old@.len() ==> (#[trigger] new_to_old@[j]) < inner_dims,
            lookup@.len() == inner_dims,
            forall|j: int|
                0 <= j < new_index ==> lookup@[(#[trigger] new_to_old@[j]) as int] == j,
        decreases n - new_index,
    {
        let old_index = new_to_old[new_index];
        proof {
            lemma_increasing_at_least_place(new_to_old@, new_index as int);
        }
        let ghost before = lookup@;
        lookup.set(old_index as usize, new_index as u32);
        proof {
            assert forall|j: int| 0 <= j < new_index + 1 implies lookup@[(
            #[trigger] new_to_old@[j]) as int] == j by {
                if j < new_index {
                    assert(new_to_old@[j] < new_to_old@[new_index as int]);
                    assert(before[new_to_old@[j] as int] == j);
                }
            }
        }
        new_index += 1;
    }
    lookup
}

impl<V: Copy> CsMatITools<V> for CsMat<V> {
    open spec fn mat(&self) -> CsMat<V> {
        *self
    }

    fn shrink_inner_indices(self) -> (r: (Self, Vec<u32>)) {
        let ghost src = self.indices_spec();
        let ghost outer = self.outer_dims_spec() as int;
        let ghost inner = self.inner_dims_spec() as int;
        let ghost indptr = self.indptr_spec();
        let mut new_index_to_old = distinct_indices(self.indices(), self.inner_dims());
        let ghost unsorted = new_index_to_old@;
        sort_unstable_by_key(&mut new_index_to_old);
        let ghost sorted = new_index_to_old@;
        proof {
            lemma_sorted_distinct(unsorted, sorted);
            assert forall|j: int| 0 <= j < sorted.len() implies (#[trigger] sorted[j]) < inner by {
                assert(sorted.contains(sorted[j]));
                assert(src.contains(sorted[j]));
                let k = choose|k: int| 0 <= k < src.len() && src[k] == sorted[j];
                if outer > 0 {
                    lemma_index_in_lane(outer, inner, indptr, src, k, 0);
                }
            }
        }
        let old_index_to_new = lookup_table(&new_index_to_old, self.inner_dims());
        let ghost lookup = old_index_to_new@;
        let n_new = new_index_to_old.len();
        proof {
            let mapped = mapped_indices(src, lookup);
            assert forall|k: int| 0 <= k < src.len() implies (#[trigger] src[k]) < lookup.len()
                && sorted[lookup[src[k] as int] as int] == src[k] && lookup[src[k] as int]
                < sorted.len() by {
                if outer > 0 {
                    lemma_index_in_lane(outer, inner, indptr, src, k, 0);
                }
                assert(src.contains(src[k]));
                assert(sorted.contains(src[k]));
                let j = choose|j: int| 0 <= j < sorted.len() && sorted[j] == src[k];
                assert(lookup[sorted[j] as int] == j);
            }
            assert forall|i: int| 0 <= i < outer implies #[trigger] lane_valid(
                indptr,
                mapped,
                i,
                n_new as int,
            ) by {
                assert(lane_valid(indptr, src, i, inner));
                assert forall|a: int| indptr[i] <= a < indptr[i + 1] implies (#[trigger] mapped[a])
                    < n_new by {
                    assert(src[a] < lookup.len());
                }
                assert forall|a: int, b: int| indptr[i] <= a < b < indptr[i + 1] implies (
                #[trigger] mapped[a]) < (#[trigger] mapped[b]) by {
                    assert(src[a] < src[b]);
                    assert(src[a] < lookup.len());
                    assert(src[b] < lookup.len());
                    let ja = lookup[src[a] as int] as int;
                    let jb = lookup[src[b] as int] as int;
                    if ja > jb {
                        assert(sorted[jb] < sorted[ja]);
                    }
                }
            }
        }
        let mat = self.remap_inner_indices(old_index_to_new.as_slice(), n_new);
        proof {
            assert forall|k: int| 0 <= k < mat.indices_spec().len() implies (
            #[trigger] mat.indices_spec()[k]) < sorted.len() && sorted[mat.indices_spec()[k] as int]
                == src[k] by {
                assert(src[k] < lookup.len());
            }
        }
        (mat, new_index_to_old)
    }

    fn remap_inner_indices(self, old_index_to_new: &[u32], new_inner_dims: usize) -> (r: Self) {
        let outer_dims = self.outer_dims();
        let is_csr = self.is_csr();
        let ghost before = self.indices_spec();
        let ghost mapping = old_index_to_new@;

        let (indptr, mut indices, data) = self.into_raw_storage();
        let n = indices.len();
        let mut k: usize = 0;
        while k < n
            invariant
                n == before.len(),
                indices@.len() == n,
                mapping == old_index_to_new@,
                k <= n,
                forall|j: int| 0 <= j < n ==> (#[trigger] before[j]) < mapping.len(),
                forall|j: int| 0 <= j < k ==> indices@[j] == mapping[before[j] as int],
                forall|j: int| k <= j < n ==> indices@[j] == before[j],
            decreases n - k,
        {
            let index = indices[k];
            assert(before[k as int] < mapping.len());
            indices.set(k, old_index_to_new[index as usize]);
            k += 1;
        }
        proof {
            assert(indices@ =~= mapped_indices(before, mapping));
        }
        let new_mat = CsMat::new((outer_dims, new_inner_dims), indptr, indices, data);
        if is_csr {
            new_mat
        } else {
            new_mat.transpose_into()
        }
    }
}

/// Shrinking the inner indices of a matrix, and then sending them back
/// through the mapping that the shrinking returned, gives the matrix that was
/// there at first, whether its lanes are rows or columns. The mapping is one
/// that `remap_inner_indices` accepts.
pub proof fn lemma_shrink_then_remap_restores<V>(
    first: CsMat<V>,
    small: CsMat<V>,
    new_to_old: Seq<u32>,
    restored: CsMat<V>,
)
    requires
        first.wf(),
        shrunk(first, small, new_to_old),
        remapped(small, new_to_old, first.inner_dims_spec(), restored),
    ensures
        remap_allowed(small, new_to_old, first.inner_dims_spec()),
        restored.same_as(&first),
{
    let mapped = mapped_indices(small.indices_spec(), new_to_old);
    assert(mapped =~= first.indices_spec());
}

} // verus!
