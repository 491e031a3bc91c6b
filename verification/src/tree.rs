//! A tree of classifier groups, and the beam search that ranks its labels.
//!
//! A branch holds one classifier for each of its children, a leaf one for
//! each of its labels. A search keeps a frontier of nodes with the scores of
//! the paths that lead to them. Level by level it cuts the frontier down to
//! the best nodes and replaces them by their children, until it reaches the
//! leaves.

use vstd::prelude::*;
use crate::ranking::{
    all_comparable, inserted_desc, lemma_sorted_len, scores_comparable, sort_by_score_desc,
    sorted_desc,
};
use crate::scalar::{lt_spec, Real, Scalar};
use crate::weight_mat::{group_scores, Features, SparseDenseVec, WeightMat};

verus! {

/// Why a prediction could not be made.
#[derive(Clone, Copy, Debug, PartialEq, Eq)]
pub enum PredictError {
    /// A score that had to be ranked cannot be compared, not even with itself.
    NotComparable,
}

/// A node of a tree.
#[derive(Debug)]
pub enum TreeNode<V> {
    /// An inner node, with one column of weights for each child.
    BranchNode { weight_matrix: WeightMat<V>, children: Vec<TreeNode<V>> },
    /// A leaf, with one column of weights for each label.
    LeafNode { weight_matrix: WeightMat<V>, labels: Vec<u32> },
}

/// A tree of classifier groups.
#[derive(Debug)]
pub struct Tree<V> {
    pub root: TreeNode<V>,
}

/// The nodes that a search holds at one level, each with the score of its path.
pub type Frontier<V> = Seq<(TreeNode<V>, V)>;

impl<V: Scalar> TreeNode<V> {
    /// Whether the node is the root of a complete hierarchy of the given
    /// depth, for feature vectors of dimension `n_inputs`: every leaf lies
    /// `depth` levels below the node, every branch has a child, and every
    /// weight matrix has one row for each input and one column for each child
    /// or label.
    pub open spec fn well_formed(&self, n_inputs: usize, depth: nat) -> bool
        decreases depth,
    {
        match self {
            TreeNode::LeafNode { weight_matrix, labels } => {
                &&& depth == 0
                &&& weight_matrix.wf()
                &&& weight_matrix.shape_spec() == (n_inputs, labels@.len() as usize)
            },
            TreeNode::BranchNode { weight_matrix, children } => {
                &&& depth > 0
                &&& weight_matrix.wf()
                &&& weight_matrix.shape_spec() == (n_inputs, children@.len() as usize)
                &&& children@.len() > 0
                &&& forall|i: int|
                    0 <= i < children@.len() ==> (#[trigger] children@[i]).well_formed(
                        n_inputs,
                        (depth - 1) as nat,
                    )
            },
        }
    }

    /// The depth of the complete hierarchy that the node is the root of, or
    /// `None` when it is the root of none whose depth fits a machine word.
    pub fn complete_depth(&self, n_inputs: usize) -> (r: Option<usize>)
        ensures
            r matches Some(d) ==> self.well_formed(n_inputs, d as nat),
            r is None ==> forall|depth: nat|
                depth <= usize::MAX ==> !self.well_formed(n_inputs, depth),
        decreases self,
    {
        match self {
            TreeNode::LeafNode { weight_matrix, labels } => {
                if !weight_matrix.check() {
                    return None;
                }
                let (rows, cols) = weight_matrix.shape();
                if rows == n_inputs && cols == labels.len() {
                    Some(0)
                } else {
                    None
                }
            },
            TreeNode::BranchNode { weight_matrix, children } => {
                if !weight_matrix.check() {
                    return None;
                }
                let (rows, cols) = weight_matrix.shape();
                if rows != n_inputs || cols != children.len() || children.len() == 0 {
                    return None;
                }
                let below = match children[0].complete_depth(n_inputs) {
                    Some(below) => below,
                    None => {
                        proof {
                            assert forall|depth: nat| depth <= usize::MAX implies !self.well_formed(
                                n_inputs,
                                depth,
                            ) by {
                                if self.well_formed(n_inputs, depth) {
                                    assert(children@[0].well_formed(n_inputs, (depth - 1) as nat));
                                }
                            }
                        }
                        return None;
                    },
                };
                let mut i: usize = 1;
                while i < children.len()
                    invariant
                        1 <= i <= children@.len(),
                        *self == (TreeNode::BranchNode {
                            weight_matrix: *weight_matrix,
                            children: *children,
                        }),
                        forall|k: int|
                            0 <= k < i ==> (#[trigger] children@[k]).well_formed(
                                n_inputs,
                                below as nat,
                            ),
                    decreases children@.len() - i,
                {
                    proof {
                        assert(self->BranchNode_children == *children);
                        assert(decreases_to!(self => children@[i as int]));
                    }
                    let found = children[i].complete_depth(n_inputs);
                    let same = match found {
                        Some(other) => other == below,
                        None => false,
                    };
                    if !same {
                        proof {
                            assert forall|depth: nat| depth <= usize::MAX implies !self.well_formed(
                                n_inputs,
                                depth,
                            ) by {
                                if self.well_formed(n_inputs, depth) {
                                    let under = (depth - 1) as nat;
                                    assert(children@[0].well_formed(n_inputs, under));
                                    assert(children@[i as int].well_formed(n_inputs, under));
                                    lemma_depth_unique(children@[0], n_inputs, under, below as nat);
                                    match found {
                                        Some(other) => {
                                            lemma_depth_unique(
                                                children@[i as int],
                                                n_inputs,
                                                under,
                                                other as nat,
                                            );
                                        },
                                        None => {},
                                    }
                                }
                            }
                        }
                        return None;
                    }
                    i += 1;
                }
                match below.checked_add(1) {
                    Some(depth) => Some(depth),
                    None => {
                        proof {
                            assert forall|depth: nat| depth <= usize::MAX implies !self.well_formed(
                                n_inputs,
                                depth,
                            ) by {
                                if self.well_formed(n_inputs, depth) {
                                    assert(children@[0].well_formed(n_inputs, (depth - 1) as nat));
                                    lemma_depth_unique(
                                        children@[0],
                                        n_inputs,
                                        (depth - 1) as nat,
                                        below as nat,
                                    );
                                }
                            }
                        }
                        None
                    },
                }
            },
        }
    }

    /// Whether the node is a leaf.
    pub fn is_leaf(&self) -> (b: bool)
        ensures
            b == (*self is LeafNode),
    {
        match self {
            TreeNode::LeafNode { .. } => true,
            TreeNode::BranchNode { .. } => false,
        }
    }
}

/// Whether every node of a frontier is the root of a complete hierarchy of
/// the given depth.
pub open spec fn frontier_well_formed<V: Scalar>(
    frontier: Frontier<V>,
    n_inputs: usize,
    depth: nat,
) -> bool {
    forall|i: int|
        0 <= i < frontier.len() ==> (#[trigger] frontier[i]).0.well_formed(n_inputs, depth)
}

/// The children of a branch, each with the score of the path to it: the score
/// that the classifier of the branch gives the child, plus the score of the
/// path to the branch. A leaf has no children.
pub open spec fn children_scored<V: Scalar>(
    node: TreeNode<V>,
    score: V,
    x: Features<V>,
) -> Frontier<V> {
    match node {
        TreeNode::BranchNode { weight_matrix, children } => Seq::new(
            children@.len(),
            |i: int| (children@[i], group_scores(x, weight_matrix)[i].plus_spec(score)),
        ),
        TreeNode::LeafNode { .. } => Seq::empty(),
    }
}

/// The labels of a leaf, each with its score: the exponential of the score
/// that the classifier of the leaf gives the label, plus the score of the
/// path to the leaf. A branch has no labels.
pub open spec fn leaf_output<V: Real>(node: TreeNode<V>, score: V, x: Features<V>) -> Seq<
    (u32, V),
> {
    match node {
        TreeNode::LeafNode { weight_matrix, labels } => Seq::new(
            labels@.len(),
            |i: int| (labels@[i], group_scores(x, weight_matrix)[i].plus_spec(score).exp_spec()),
        ),
        TreeNode::BranchNode { .. } => Seq::empty(),
    }
}

/// The next frontier: the children of every node, in the order of the nodes.
pub open spec fn expanded<V: Scalar>(frontier: Frontier<V>, x: Features<V>) -> Frontier<V>
    decreases frontier.len(),
{
    if frontier.len() == 0 {
        Seq::empty()
    } else {
        expanded(frontier.drop_last(), x) + children_scored(
            frontier.last().0,
            frontier.last().1,
            x,
        )
    }
}

/// The labels of every leaf of a frontier, in the order of the leaves.
pub open spec fn leaf_outputs<V: Real>(frontier: Frontier<V>, x: Features<V>) -> Seq<
    (u32, V),
>
    decreases frontier.len(),
{
    if frontier.len() == 0 {
        Seq::empty()
    } else {
        leaf_outputs(frontier.drop_last(), x) + leaf_output(
            frontier.last().0,
            frontier.last().1,
            x,
        )
    }
}

/// A frontier cut down to the beam. A frontier that fits the beam stays as it
/// is. A larger one is ordered from the best score to the worst and loses
/// what lies beyond the beam; that cannot be done when one of its scores
/// cannot be compared.
pub open spec fn trimmed<V: Scalar>(frontier: Frontier<V>, beam: nat) -> Option<Frontier<V>> {
    if frontier.len() > beam {
        if all_comparable(frontier) {
            Some(sorted_desc(frontier).take(beam as int))
        } else {
            None
        }
    } else {
        Some(frontier)
    }
}

/// What a beam search returns that starts from a frontier of nodes, all of
/// them `depth` levels above the leaves.
pub open spec fn beam_search<V: Real>(
    frontier: Frontier<V>,
    x: Features<V>,
    beam: nat,
    depth: nat,
) -> Option<Seq<(u32, V)>>
    decreases depth,
{
    match trimmed(frontier, beam) {
        None => None,
        Some(kept) => if depth == 0 {
            Some(leaf_outputs(kept, x))
        } else {
            beam_search(expanded(kept, x), x, beam, (depth - 1) as nat)
        },
    }
}

/// The nodes behind the references that the search holds.
pub open spec fn nodes_of<V>(held: Seq<(&TreeNode<V>, V)>) -> Frontier<V> {
    Seq::new(held.len(), |i: int| (*held[i].0, held[i].1))
}

/// Putting a reference into an ordered list of references puts the node
/// behind it into the list of the nodes.
proof fn lemma_inserted_nodes<V: Scalar>(held: Seq<(&TreeNode<V>, V)>, item: (&TreeNode<V>, V))
    ensures
        nodes_of(inserted_desc(held, item)) == inserted_desc(nodes_of(held), (*item.0, item.1)),
    decreases held.len(),
{
    let nodes = nodes_of(held);
    if held.len() == 0 {
        assert(nodes_of(inserted_desc(held, item)) =~= inserted_desc(nodes, (*item.0, item.1)));
    } else if lt_spec(held.last().1, item.1) {
        lemma_inserted_nodes(held.drop_last(), item);
        assert(nodes.drop_last() =~= nodes_of(held.drop_last()));
        assert(nodes_of(inserted_desc(held.drop_last(), item).push(held.last())) =~= nodes_of(
            inserted_desc(held.drop_last(), item),
        ).push(nodes.last()));
    } else {
        assert(nodes_of(held.push(item)) =~= nodes.push((*item.0, item.1)));
    }
}

/// Ordering references orders the nodes behind them.
proof fn lemma_sorted_nodes<V: Scalar>(held: Seq<(&TreeNode<V>, V)>)
    ensures
        nodes_of(sorted_desc(held)) == sorted_desc(nodes_of(held)),
    decreases held.len(),
{
    if held.len() == 0 {
        assert(nodes_of(sorted_desc(held)) =~= sorted_desc(nodes_of(held)));
    } else {
        lemma_sorted_nodes(held.drop_last());
        lemma_inserted_nodes(sorted_desc(held.drop_last()), held.last());
        assert(nodes_of(held).drop_last() =~= nodes_of(held.drop_last()));
    }
}

/// Ordering a frontier keeps its nodes, so it keeps what holds of each node.
pub proof fn lemma_sorted_keeps_well_formed<V: Scalar>(
    frontier: Frontier<V>,
    n_inputs: usize,
    depth: nat,
)
    requires
        frontier_well_formed(frontier, n_inputs, depth),
    ensures
        frontier_well_formed(sorted_desc(frontier), n_inputs, depth),
{
    let sorted = sorted_desc(frontier);
    crate::ranking::lemma_sorted_permutes(frontier);
    assert forall|i: int| 0 <= i < sorted.len() implies (#[trigger] sorted[i]).0.well_formed(
        n_inputs,
        depth,
    ) by {
        assert(sorted.contains(sorted[i]));
        vstd::seq_lib::to_multiset_contains(sorted, sorted[i]);
        vstd::seq_lib::to_multiset_contains(frontier, sorted[i]);
        let j = choose|j: int| 0 <= j < frontier.len() && frontier[j] == sorted[i];
        assert(frontier[j].0.well_formed(n_inputs, depth));
    }
}

/// A complete hierarchy has one depth only.
pub proof fn lemma_depth_unique<V: Scalar>(node: TreeNode<V>, n_inputs: usize, d1: nat, d2: nat)
    requires
        node.well_formed(n_inputs, d1),
        node.well_formed(n_inputs, d2),
    ensures
        d1 == d2,
    decreases d1,
{
    match node {
        TreeNode::LeafNode { .. } => {},
        TreeNode::BranchNode { weight_matrix, children } => {
            lemma_depth_unique(children@[0], n_inputs, (d1 - 1) as nat, (d2 - 1) as nat);
        },
    }
}

/// The next frontier of one more node.
proof fn lemma_expanded_step<V: Scalar>(frontier: Frontier<V>, x: Features<V>, k: int)
    requires
        0 <= k < frontier.len(),
    ensures
        expanded(frontier.take(k + 1), x) == expanded(frontier.take(k), x) + children_scored(
            frontier[k].0,
            frontier[k].1,
            x,
        ),
{
    assert(frontier.take(k + 1).drop_last() =~= frontier.take(k));
}

/// The labels of one more leaf.
proof fn lemma_leaf_outputs_step<V: Real>(frontier: Frontier<V>, x: Features<V>, k: int)
    requires
        0 <= k < frontier.len(),
    ensures
        leaf_outputs(frontier.take(k + 1), x) == leaf_outputs(frontier.take(k), x) + leaf_output(
            frontier[k].0,
            frontier[k].1,
            x,
        ),
{
    assert(frontier.take(k + 1).drop_last() =~= frontier.take(k));
}

impl<V: Real> Tree<V> {
    /// Whether the tree is a complete hierarchy for feature vectors of
    /// dimension `n_inputs`.
    pub open spec fn wf(&self, n_inputs: usize) -> bool {
        exists|depth: nat| depth <= usize::MAX && self.root.well_formed(n_inputs, depth)
    }

    /// The number of levels between the root and the leaves.
    pub open spec fn depth(&self, n_inputs: usize) -> nat {
        choose|depth: nat| depth <= usize::MAX && self.root.well_formed(n_inputs, depth)
    }

    /// Tells whether the tree is a complete hierarchy for feature vectors of
    /// dimension `n_inputs`.
    pub fn check(&self, n_inputs: usize) -> (ok: bool)
        ensures
            ok == self.wf(n_inputs),
    {
        self.root.complete_depth(n_inputs).is_some()
    }

    /// What a beam search from the root returns for the feature vector `x`.
    pub open spec fn predict_spec(&self, x: Features<V>, beam: nat) -> Option<Seq<(u32, V)>> {
        beam_search(
            seq![(self.root, V::zero_value())],
            x,
            beam,
            self.depth(x.dense.len() as usize),
        )
    }

    /// Ranks the labels of the tree for a feature vector by a beam search of
    /// the given width, and returns each label that the search reaches with
    /// its score. Fails when scores that must be ranked cannot be compared.
    pub fn predict(&self, feature_vec: &SparseDenseVec<V>, beam_size: usize) -> (r: Result<
        Vec<(u32, V)>,
        PredictError,
    >)
        requires
            beam_size > 0,
            feature_vec.wf(),
            self.wf(feature_vec@.dense.len() as usize),
        ensures
            match r {
                Ok(pairs) => self.predict_spec(feature_vec@, beam_size as nat) == Some(pairs@),
                Err(_) => self.predict_spec(feature_vec@, beam_size as nat) is None,
            },
    {
        let ghost x = feature_vec@;
        let ghost n_inputs = x.dense.len() as usize;
        let ghost beam = beam_size as nat;
        let ghost mut depth: nat = self.depth(n_inputs);
        let ghost goal = self.predict_spec(x, beam);

        let mut curr_level: Vec<(&TreeNode<V>, V)> = Vec::new();
        curr_level.push((&self.root, V::zero()));
        proof {
            assert(nodes_of(curr_level@) =~= seq![(self.root, V::zero_value())]);
        }
        loop
            invariant_except_break
                goal == self.predict_spec(feature_vec@, beam_size as nat),
                beam == beam_size,
                beam_size > 0,
                x == feature_vec@,
                n_inputs == x.dense.len(),
                feature_vec.wf(),
                curr_level@.len() > 0,
                frontier_well_formed(nodes_of(curr_level@), n_inputs, depth),
                goal == beam_search(nodes_of(curr_level@), x, beam, depth),
            ensures
                x == feature_vec@,
                n_inputs == x.dense.len(),
                feature_vec.wf(),
                frontier_well_formed(nodes_of(curr_level@), n_inputs, 0),
                goal == Some(leaf_outputs(nodes_of(curr_level@), x)),
            decreases depth,
        {
            let ghost before = nodes_of(curr_level@);
            if curr_level.len() > beam_size {
                let comparable = scores_comparable(&curr_level);
                proof {
                    assert(comparable == all_comparable(before)) by {
                        if all_comparable(curr_level@) {
                            assert forall|i: int| 0 <= i < before.len() implies (
                            #[trigger] before[i]).1.le_spec(before[i].1) by {
                                assert(curr_level@[i].1.le_spec(curr_level@[i].1));
                            }
                        } else {
                            let i = choose|i: int|
                                0 <= i < curr_level@.len() && !(
                                #[trigger] curr_level@[i]).1.le_spec(curr_level@[i].1);
                            assert(!before[i].1.le_spec(before[i].1));
                        }
                    }
                }
                if !comparable {
                    proof {
                        assert(trimmed(before, beam) is None);
                        assert(goal is None);
                    }
                    return Err(PredictError::NotComparable);
                }
                let ghost held = curr_level@;
                sort_by_score_desc(&mut curr_level);
                curr_level.truncate(beam_size);
                proof {
                    lemma_sorted_nodes(held);
                    lemma_sorted_len(held);
                    lemma_sorted_len(before);
                    assert(nodes_of(curr_level@) =~= sorted_desc(before).take(beam as int));
                    lemma_sorted_keeps_well_formed(before, n_inputs, depth);
                }
            }
            let ghost kept = nodes_of(curr_level@);
            proof {
                assert(trimmed(before, beam) == Some(kept));
                assert(frontier_well_formed(kept, n_inputs, depth));
                assert(kept[0].0.well_formed(n_inputs, depth));
                assert(kept[0].0 == *curr_level@[0].0);
            }
            if curr_level[0].0.is_leaf() {
                proof {
                    assert(depth == 0);
                }
                break ;
            }
            proof {
                assert(depth > 0);
            }
            let mut next_level: Vec<(&TreeNode<V>, V)> = Vec::new();
            let mut k: usize = 0;
            while k < curr_level.len()
                invariant
                    x == feature_vec@,
                    n_inputs == x.dense.len(),
                    feature_vec.wf(),
                    depth > 0,
                    kept == nodes_of(curr_level@),
                    frontier_well_formed(kept, n_inputs, depth),
                    k <= curr_level@.len(),
                    nodes_of(next_level@) == expanded(kept.take(k as int), x),
                    frontier_well_formed(nodes_of(next_level@), n_inputs, (depth - 1) as nat),
                    k > 0 ==> next_level@.len() > 0,
                decreases curr_level@.len() - k,
            {
                let (node, node_score) = curr_level[k];
                proof {
                    assert(kept[k as int] == (*node, node_score));
                    assert(kept[k as int].0.well_formed(n_inputs, depth));
                    lemma_expanded_step(kept, x, k as int);
                }
                match node {
                    TreeNode::BranchNode { weight_matrix, children } => {
                        let child_scores = feature_vec.dot(weight_matrix);
                        let ghost base = nodes_of(next_level@);
                        let ghost scored = children_scored(*node, node_score, x);
                        let mut i: usize = 0;
                        while i < children.len()
                            invariant
                                *node == (TreeNode::BranchNode {
                                    weight_matrix: *weight_matrix,
                                    children: *children,
                                }),
                                node.well_formed(n_inputs, depth),
                                depth > 0,
                                child_scores@ == group_scores(x, *weight_matrix),
                                scored == children_scored(*node, node_score, x),
                                i <= children@.len(),
                                nodes_of(next_level@) == base + scored.take(i as int),
                                frontier_well_formed(
                                    nodes_of(next_level@),
                                    n_inputs,
                                    (depth - 1) as nat,
                                ),
                            decreases children@.len() - i,
                        {
                            let ghost held = next_level@;
                            next_level.push((&children[i], child_scores[i].plus(node_score)));
                            proof {
                                assert(nodes_of(next_level@) =~= nodes_of(held).push(
                                    scored[i as int],
                                ));
                                assert(base + scored.take(i + 1) =~= (base + scored.take(
                                    i as int,
                                )).push(scored[i as int]));
                                assert(children@[i as int].well_formed(
                                    n_inputs,
                                    (depth - 1) as nat,
                                ));
                            }
                            i += 1;
                        }
                        proof {
                            assert(scored.take(i as int) =~= scored);
                        }
                    },
                    TreeNode::LeafNode { .. } => {
                        proof {
                            assert(false);
                        }
                    },
                }
                k += 1;
            }
            proof {
                assert(kept.take(k as int) =~= kept);
                depth = (depth - 1) as nat;
            }
            curr_level = next_level;
        }

        let ghost leaves = nodes_of(curr_level@);
        let mut out: Vec<(u32, V)> = Vec::new();
        let mut k: usize = 0;
        while k < curr_level.len()
            invariant
                x == feature_vec@,
                n_inputs == x.dense.len(),
                feature_vec.wf(),
                leaves == nodes_of(curr_level@),
                frontier_well_formed(leaves, n_inputs, 0),
                k <= curr_level@.len(),
                out@ == leaf_outputs(leaves.take(k as int), x),
            decreases curr_level@.len() - k,
        {
            let (leaf, leaf_score) = curr_level[k];
            proof {
                assert(leaves[k as int] == (*leaf, leaf_score));
                assert(leaves[k as int].0.well_formed(n_inputs, 0));
                lemma_leaf_outputs_step(leaves, x, k as int);
            }
            match leaf {
                TreeNode::LeafNode { weight_matrix, labels } => {
                    let label_scores = feature_vec.dot(weight_matrix);
                    let ghost base = out@;
                    let ghost scored = leaf_output(*leaf, leaf_score, x);
                    let mut i: usize = 0;
                    while i < labels.len()
                        invariant
                            *leaf == (TreeNode::LeafNode {
                                weight_matrix: *weight_matrix,
                                labels: *labels,
                            }),
                            leaf.well_formed(n_inputs, 0),
                            label_scores@ == group_scores(x, *weight_matrix),
                            scored == leaf_output(*leaf, leaf_score, x),
                            i <= labels@.len(),
                            out@ == base + scored.take(i as int),
                        decreases labels@.len() - i,
                    {
                        out.push((labels[i], label_scores[i].plus(leaf_score).exp()));
                        proof {
                            assert(base + scored.take(i + 1) =~= (base + scored.take(i as int)).push(
                                scored[i as int],
                            ));
                        }
                        i += 1;
                    }
                    proof {
                        assert(scored.take(i as int) =~= scored);
                    }
                },
                TreeNode::BranchNode { .. } => {
                    proof {
                        assert(false);
                    }
                },
            }
            k += 1;
        }
        proof {
            assert(leaves.take(k as int) =~= leaves);
        }
        Ok(out)
    }
}

} // verus!
