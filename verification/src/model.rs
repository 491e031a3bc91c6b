//! A forest of trees, and the ranking that it gives a feature vector.

use vstd::prelude::*;
use crate::index_set::{label_slots_view, LabelSlots};
use crate::pairs::{is_valid_index_seq, l2_normalized, sum_of_squares, IndexValuePairs};
use crate::ranking::{all_comparable, scores_comparable, sort_by_score_desc, sorted_desc};
use crate::scalar::{Real, Scalar};
use crate::sparse_vec::{scattered, SparseVec};
use crate::tree::{PredictError, Tree};
use crate::weight_mat::{Features, SparseDenseVec};

verus! {

/// The place of a label in a list of totals.
pub open spec fn label_position<V>(totals: Seq<(u32, V)>, label: u32) -> Option<int> {
    if exists|i: int| 0 <= i < totals.len() && totals[i].0 == label {
        Some(choose|i: int| 0 <= i < totals.len() && totals[i].0 == label)
    } else {
        None
    }
}

/// Totals with one more score taken in: the score is added to the total of
/// its label, or to zero at the end of the list when the label is new.
pub open spec fn accumulated<V: Scalar>(totals: Seq<(u32, V)>, item: (u32, V)) -> Seq<(u32, V)> {
    match label_position(totals, item.0) {
        Some(i) => totals.update(i, (item.0, totals[i].1.plus_spec(item.1))),
        None => totals.push((item.0, V::zero_value().plus_spec(item.1))),
    }
}

/// Totals with a list of scores taken in, from the first to the last.
pub open spec fn sum_into<V: Scalar>(totals: Seq<(u32, V)>, items: Seq<(u32, V)>) -> Seq<(u32, V)>
    decreases items.len(),
{
    if items.len() == 0 {
        totals
    } else {
        accumulated(sum_into(totals, items.drop_last()), items.last())
    }
}

/// The total score of each label over several lists of scores. The labels
/// stand in the order in which they first occur.
pub open spec fn sum_all<V: Scalar>(lists: Seq<Seq<(u32, V)>>) -> Seq<(u32, V)>
    decreases lists.len(),
{
    if lists.len() == 0 {
        Seq::empty()
    } else {
        sum_into(sum_all(lists.drop_last()), lists.last())
    }
}

/// Totals divided by a count.
pub open spec fn averaged<V: Real>(totals: Seq<(u32, V)>, count: usize) -> Seq<(u32, V)> {
    Seq::new(
        totals.len(),
        |i: int| (totals[i].0, totals[i].1.div_spec(V::from_count_spec(count))),
    )
}

/// Scores ordered from the best to the worst. Two scores or more cannot be
/// ordered when one of them cannot be compared.
pub open spec fn ranked<V: Scalar>(items: Seq<(u32, V)>) -> Option<Seq<(u32, V)>> {
    if items.len() >= 2 && !all_comparable(items) {
        None
    } else {
        Some(sorted_desc(items))
    }
}

/// The ranking that the predictions of several trees give: for each label
/// the sum of its scores divided by the number of trees, a tree that did not
/// reach the label counting as zero; the labels ordered from the best average
/// to the worst.
pub open spec fn aggregated<V: Real>(lists: Seq<Seq<(u32, V)>>) -> Option<Seq<(u32, V)>> {
    ranked(averaged(sum_all(lists), lists.len() as usize))
}

/// What a raw feature vector becomes before prediction: its values divided by
/// their Euclidean norm, unless their squares sum to zero, and one more feature
/// at the index `n_features` with the value one.
pub open spec fn prepared_features<V: Real>(pairs: Seq<(u32, V)>, n_features: usize) -> Features<V> {
    let values = l2_normalized(Seq::new(pairs.len(), |i: int| pairs[i].1));
    let indices = Seq::new(
        pairs.len() + 1,
        |i: int|
            if i < pairs.len() {
                pairs[i].0 as int
            } else {
                n_features as int
            },
    );
    let scaled = values.push(V::from_count_spec(1));
    Features { indices, values: scaled, dense: scattered(indices, scaled, (n_features + 1) as nat) }
}

/// The lists behind a vector of vectors.
pub open spec fn lists_of<V>(lists: Seq<Vec<(u32, V)>>) -> Seq<Seq<(u32, V)>> {
    Seq::new(lists.len(), |i: int| lists[i]@)
}

/// Whether no label occurs twice in a list of totals.
pub open spec fn labels_distinct<V>(totals: Seq<(u32, V)>) -> bool {
    forall|a: int, b: int| 0 <= a < b < totals.len() ==> totals[a].0 != totals[b].0
}

/// Computes the ranking that the predictions of several trees give. Fails
/// when the averages cannot be ordered.
pub fn aggregate<V: Real>(tree_predictions: &Vec<Vec<(u32, V)>>) -> (r: Result<
    Vec<(u32, V)>,
    PredictError,
>)
    ensures
        match r {
            Ok(pairs) => aggregated(lists_of(tree_predictions@)) == Some(pairs@),
            Err(_) => aggregated(lists_of(tree_predictions@)) is None,
        },
{
    let ghost lists = lists_of(tree_predictions@);
    let n_trees = tree_predictions.len();
    let mut totals: Vec<(u32, V)> = Vec::new();
    let mut slots = LabelSlots::new();
    let mut t: usize = 0;
    proof {
        assert(lists.take(0) =~= Seq::<Seq<(u32, V)>>::empty());
    }
    while t < n_trees
        invariant
            lists == lists_of(tree_predictions@),
            n_trees == tree_predictions@.len(),
            t <= n_trees,
            totals@ == sum_all(lists.take(t as int)),
            labels_distinct(totals@),
            forall|i: int|
                0 <= i < totals@.len() ==> label_slots_view(slots).contains_key(
                    (#[trigger] totals@[i]).0,
                ) && label_slots_view(slots)[totals@[i].0] == i,
            forall|label: u32| #[trigger]
                label_slots_view(slots).contains_key(label) ==> label_slots_view(slots)[label]
                    < totals@.len() && totals@[label_slots_view(slots)[label] as int].0 == label,
        decreases n_trees - t,
    {
        let label_score_pairs = &tree_predictions[t];
        let ghost items = label_score_pairs@;
        let ghost base = totals@;
        let n = label_score_pairs.len();
        let mut k: usize = 0;
        proof {
            assert(lists[t as int] == items);
            assert(lists.take(t + 1).drop_last() =~= lists.take(t as int));
            assert(lists.take(t + 1).last() == items);
            assert(items.take(0) =~= Seq::<(u32, V)>::empty());
        }
        while k < n
            invariant
                items == label_score_pairs@,
                n == items.len(),
                k <= n,
                totals@ == sum_into(base, items.take(k as int)),
                labels_distinct(totals@),
                forall|i: int|
                    0 <= i < totals@.len() ==> label_slots_view(slots).contains_key(
                        (#[trigger] totals@[i]).0,
                    ) && label_slots_view(slots)[totals@[i].0] == i,
                forall|label: u32| #[trigger]
                    label_slots_view(slots).contains_key(label) ==> label_slots_view(slots)[label]
                        < totals@.len() && totals@[label_slots_view(slots)[label] as int].0
                        == label,
            decreases n - k,
        {
            let (label, score) = label_score_pairs[k];
            let ghost before = totals@;
            let ghost view0 = label_slots_view(slots);
            proof {
                assert(items.take(k + 1).drop_last() =~= items.take(k as int));
                assert(items.take(k + 1).last() == (label, score));
            }
            match slots.get(label) {
                Some(slot) => {
                    proof {
                        assert(before[slot as int].0 == label);
                        let found = label_position(before, label).unwrap();
                        if found < slot {
                            assert(before[found].0 != before[slot as int].0);
                        } else if slot < found {
                            assert(before[slot as int].0 != before[found].0);
                        }
                    }
                    let total = totals[slot].1.plus(score);
                    totals.set(slot, (label, total));
                    proof {
                        assert(totals@ == accumulated(before, (label, score)));
                        assert forall|i: int| 0 <= i < totals@.len() implies view0.contains_key(
                            (#[trigger] totals@[i]).0,
                        ) && view0[totals@[i].0] == i by {
                            assert(totals@[i].0 == before[i].0);
                        }
                        assert forall|a: int, b: int| 0 <= a < b < totals@.len() implies totals@[a].0
                            != totals@[b].0 by {
                            assert(before[a].0 != before[b].0);
                        }
                    }
                },
                None => {
                    proof {
                        assert(label_position(before, label) is None) by {
                            if exists|i: int| 0 <= i < before.len() && before[i].0 == label {
                                let i = choose|i: int| 0 <= i < before.len() && before[i].0 == label;
                                assert(view0.contains_key(before[i].0));
                            }
                        }
                    }
                    let place = totals.len();
                    totals.push((label, V::zero().plus(score)));
                    let _ = slots.insert(label, place);
                    proof {
                        assert(totals@ == accumulated(before, (label, score)));
                        assert forall|a: int, b: int| 0 <= a < b < totals@.len() implies totals@[a].0
                            != totals@[b].0 by {
                            if b < before.len() {
                                assert(before[a].0 != before[b].0);
                            } else {
                                assert(view0.contains_key(before[a].0));
                            }
                        }
                        assert forall|i: int|
                            0 <= i < totals@.len() implies label_slots_view(slots).contains_key(
                            (#[trigger] totals@[i]).0,
                        ) && label_slots_view(slots)[totals@[i].0] == i by {
                            if i < before.len() {
                                assert(view0.contains_key(before[i].0));
                                assert(before[i].0 != label);
                            }
                        }
                        assert forall|other: u32| #[trigger]
                            label_slots_view(slots).contains_key(other) implies label_slots_view(
                            slots,
                        )[other] < totals@.len() && totals@[label_slots_view(slots)[other] as int].0
                            == other by {
                            if other != label {
                                assert(view0.contains_key(other));
                            }
                        }
                    }
                },
            }
            k += 1;
        }
        proof {
            assert(items.take(k as int) =~= items);
        }
        t += 1;
    }
    proof {
        assert(lists.take(t as int) =~= lists);
    }

    let ghost sums = totals@;
    let divisor = V::from_count(n_trees);
    let mut label_score_pairs: Vec<(u32, V)> = Vec::new();
    let mut i: usize = 0;
    while i < totals.len()
        invariant
            sums == totals@,
            divisor == V::from_count_spec(n_trees),
            i <= totals@.len(),
            label_score_pairs@.len() == i,
            forall|j: int|
                0 <= j < i ==> label_score_pairs@[j] == (
                    sums[j].0,
                    sums[j].1.div_spec(V::from_count_spec(n_trees)),
                ),
        decreases totals@.len() - i,
    {
        let (label, total_score) = totals[i];
        label_score_pairs.push((label, total_score.div(divisor)));
        i += 1;
    }
    proof {
        assert(label_score_pairs@ =~= averaged(sums, n_trees));
    }
    if label_score_pairs.len() >= 2 && !scores_comparable(&label_score_pairs) {
        return Err(PredictError::NotComparable);
    }
    sort_by_score_desc(&mut label_score_pairs);
    Ok(label_score_pairs)
}

/// A model: a forest of trees over feature vectors of one width.
#[derive(Debug)]
pub struct Model<V> {
    trees: Vec<Tree<V>>,
    n_features: usize,
}

impl<V: Real> Model<V> {
    /// The trees of the forest.
    pub closed spec fn trees_spec(&self) -> Seq<Tree<V>> {
        self.trees@
    }

    /// The number of features of the vectors that the model ranks.
    pub closed spec fn n_features_spec(&self) -> usize {
        self.n_features
    }

    /// Whether a forest can be a model for `n_features` features: the number
    /// of features fits the index type, and every tree is a complete hierarchy
    /// for vectors with one feature more, the bias.
    pub open spec fn valid_parts(trees: Seq<Tree<V>>, n_features: usize) -> bool {
        &&& n_features <= u32::MAX
        &&& n_features < usize::MAX
        &&& forall|i: int|
            0 <= i < trees.len() ==> (#[trigger] trees[i]).wf((n_features + 1) as usize)
    }

    /// The invariant of the type.
    pub open spec fn wf(&self) -> bool {
        Self::valid_parts(self.trees_spec(), self.n_features_spec())
    }

    /// What each tree predicts for the prepared feature vector `x`, or `None`
    /// when one of the trees cannot rank its scores.
    pub open spec fn tree_predictions(&self, x: Features<V>, beam: nat) -> Option<
        Seq<Seq<(u32, V)>>,
    > {
        if forall|i: int|
            0 <= i < self.trees_spec().len() ==> (#[trigger] self.trees_spec()[i]).predict_spec(
                x,
                beam,
            ) is Some {
            Some(
                Seq::new(
                    self.trees_spec().len(),
                    |i: int| self.trees_spec()[i].predict_spec(x, beam).unwrap(),
                ),
            )
        } else {
            None
        }
    }

    /// The ranking that the model gives a raw feature vector.
    pub open spec fn predict_spec(&self, pairs: Seq<(u32, V)>, beam: nat) -> Option<Seq<(u32, V)>> {
        match self.tree_predictions(prepared_features(pairs, self.n_features_spec()), beam) {
            Some(lists) => aggregated(lists),
            None => None,
        }
    }

    /// Puts a forest and the number of features together.
    pub fn new(trees: Vec<Tree<V>>, n_features: usize) -> (model: Self)
        requires
            Self::valid_parts(trees@, n_features),
        ensures
            model.wf(),
            model.trees_spec() == trees@,
            model.n_features_spec() == n_features,
    {
        Model { trees, n_features }
    }

    /// Puts a forest and the number of features together, if every tree is a
    /// complete hierarchy for vectors of that many features and the bias.
    pub fn try_new(trees: Vec<Tree<V>>, n_features: usize) -> (r: Option<Self>)
        ensures
            r is Some <==> Self::valid_parts(trees@, n_features),
            r matches Some(model) ==> model.wf() && model.trees_spec() == trees@
                && model.n_features_spec() == n_features,
    {
        if n_features > u32::MAX as usize || n_features == usize::MAX {
            return None;
        }
        let mut i: usize = 0;
        while i < trees.len()
            invariant
                n_features < usize::MAX,
                i <= trees@.len(),
                forall|k: int| 0 <= k < i ==> (#[trigger] trees@[k]).wf((n_features + 1) as usize),
            decreases trees@.len() - i,
        {
            if !trees[i].check(n_features + 1) {
                return None;
            }
            i += 1;
        }
        Some(Model { trees, n_features })
    }

    /// The trees of the forest.
    pub fn trees(&self) -> (r: &Vec<Tree<V>>)
        ensures
            r@ == self.trees_spec(),
    {
        &self.trees
    }

    /// The number of features.
    pub fn n_features(&self) -> (n: usize)
        ensures
            n == self.n_features_spec(),
    {
        self.n_features
    }

    /// Prepares a feature vector in both sparse and dense forms: divides its
    /// values by their norm, unless that is zero, and appends the bias feature.
    pub fn prepare_feature_vec(&self, sparse_vec: &Vec<(u32, V)>) -> (x: SparseDenseVec<V>)
        requires
            self.wf(),
            is_valid_index_seq(sparse_vec.index_seq(), self.n_features_spec() as int),
        ensures
            x.wf(),
            x@ == prepared_features(sparse_vec@, self.n_features_spec()),
            x@.dense.len() == self.n_features_spec() + 1,
    {
        let total = sum_of_squares(sparse_vec);
        let scale = !total.is_zero();
        let norm = total.sqrt();
        let ghost given_values = Seq::new(sparse_vec@.len(), |i: int| sparse_vec@[i].1);
        let ghost target = prepared_features(sparse_vec@, self.n_features);
        proof {
            assert(sparse_vec.value_seq() =~= given_values);
        }
        let mut indices: Vec<u32> = Vec::new();
        let mut data: Vec<V> = Vec::new();
        let n = sparse_vec.len();
        let mut i: usize = 0;
        while i < n
            invariant
                n == sparse_vec@.len(),
                i <= n,
                indices@.len() == i,
                data@.len() == i,
                forall|k: int| 0 <= k < i ==> indices@[k] == sparse_vec@[k].0,
                forall|k: int|
                    0 <= k < i ==> data@[k] == if scale {
                        sparse_vec@[k].1.div_spec(norm)
                    } else {
                        sparse_vec@[k].1
                    },
            decreases n - i,
        {
            let (index, value) = sparse_vec[i];
            indices.push(index);
            if scale {
                data.push(value.div(norm));
            } else {
                data.push(value);
            }
            i += 1;
        }
        proof {
            assert(data@ =~= l2_normalized(given_values));
        }
        indices.push(self.n_features as u32);
        data.push(V::from_count(1));
        proof {
            let ints = Seq::new(indices@.len(), |k: int| indices@[k] as int);
            assert(ints =~= target.indices);
            assert(data@ =~= target.values);
            let given = sparse_vec.index_seq();
            assert forall|k: int| 0 <= k < ints.len() implies 0 <= #[trigger] ints[k]
                < self.n_features + 1 by {
                if k < n {
                    assert(ints[k] == given[k]);
                }
            }
            assert forall|a: int, b: int| 0 <= a < b < ints.len() implies ints[a] < ints[b] by {
                assert(ints[a] == given[a]);
                if b < n {
                    assert(ints[b] == given[b]);
                }
            }
        }
        let sparse = SparseVec::new(self.n_features + 1, indices, data);
        let x = SparseDenseVec::from_sparse(sparse);
        proof {
            assert(x@.indices == target.indices);
            assert(x@.values == target.values);
            assert(x@ == target);
        }
        x
    }

    /// Returns a ranked list of predictions for the given input example.
    ///
    /// `feature_vec` is ordered by index, without repeated or out-of-range
    /// indices. `beam_size` is the width of the beam search in each tree.
    pub fn predict(&self, feature_vec: &Vec<(u32, V)>, beam_size: usize) -> (r: Result<
        Vec<(u32, V)>,
        PredictError,
    >)
        requires
            self.wf(),
            beam_size > 0,
            is_valid_index_seq(feature_vec.index_seq(), self.n_features_spec() as int),
        ensures
            match r {
                Ok(pairs) => self.predict_spec(feature_vec@, beam_size as nat) == Some(pairs@),
                Err(_) => self.predict_spec(feature_vec@, beam_size as nat) is None,
            },
    {
        let x = self.prepare_feature_vec(feature_vec);
        let ghost beam = beam_size as nat;
        let mut tree_predictions: Vec<Vec<(u32, V)>> = Vec::new();
        let mut t: usize = 0;
        while t < self.trees.len()
            invariant
                self.wf(),
                x.wf(),
                x@ == prepared_features(feature_vec@, self.n_features_spec()),
                x@.dense.len() == self.n_features_spec() + 1,
                beam == beam_size,
                beam_size > 0,
                t <= self.trees@.len(),
                tree_predictions@.len() == t,
                forall|i: int|
                    0 <= i < t ==> (#[trigger] self.trees@[i]).predict_spec(x@, beam) == Some(
                        tree_predictions@[i]@,
                    ),
            decreases self.trees@.len() - t,
        {
            proof {
                assert(self.trees_spec()[t as int].wf((self.n_features + 1) as usize));
            }
            match self.trees[t].predict(&x, beam_size) {
                Ok(pairs) => {
                    tree_predictions.push(pairs);
                },
                Err(e) => {
                    proof {
                        assert(self.trees_spec()[t as int].predict_spec(x@, beam) is None);
                    }
                    return Err(e);
                },
            }
            t += 1;
        }
        proof {
            let lists = self.tree_predictions(x@, beam);
            assert(lists is Some);
            assert(lists.unwrap() =~= lists_of(tree_predictions@));
        }
        aggregate(&tree_predictions)
    }
}

} // verus!
