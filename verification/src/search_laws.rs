//! What holds of a beam search at the two ends of the beam: a beam that is
//! wide enough searches the whole tree, and a beam of one follows a single
//! path.

use vstd::prelude::*;
use crate::ranking::{all_comparable, sorted_desc};
use crate::scalar::{Real, Scalar};
use crate::tree::{
    beam_search, children_scored, expanded, frontier_well_formed, leaf_output, leaf_outputs,
    trimmed, Frontier, Tree, TreeNode,
};
use crate::weight_mat::Features;

verus! {

/// The number of leaves below a node that lies `depth` levels above them.
pub open spec fn leaves_below<V>(node: TreeNode<V>, depth: nat) -> nat
    decreases depth, 0nat,
{
    match node {
        TreeNode::LeafNode { .. } => 1,
        TreeNode::BranchNode { children, .. } => if depth == 0 {
            0
        } else {
            leaves_in(children@, (depth - 1) as nat)
        },
    }
}

/// The number of leaves below the given nodes.
pub open spec fn leaves_in<V>(nodes: Seq<TreeNode<V>>, depth: nat) -> nat
    decreases depth, nodes.len() + 1,
{
    if nodes.len() == 0 {
        0
    } else {
        leaves_in(nodes.drop_last(), depth) + leaves_below(nodes.last(), depth)
    }
}

/// The nodes of a frontier, without their scores.
pub open spec fn nodes_only<V>(frontier: Frontier<V>) -> Seq<TreeNode<V>> {
    Seq::new(frontier.len(), |i: int| frontier[i].0)
}

/// The labels of every leaf below a frontier, each with its score: what a
/// search returns that never drops a node.
pub open spec fn exhaustive<V: Real>(frontier: Frontier<V>, x: Features<V>, depth: nat) -> Seq<
    (u32, V),
>
    decreases depth,
{
    if depth == 0 {
        leaf_outputs(frontier, x)
    } else {
        exhaustive(expanded(frontier, x), x, (depth - 1) as nat)
    }
}

/// What a search returns that keeps the best child only, level after level.
pub open spec fn greedy<V: Real>(node: TreeNode<V>, score: V, x: Features<V>, depth: nat) -> Option<
    Seq<(u32, V)>,
>
    decreases depth,
{
    if depth == 0 {
        Some(leaf_output(node, score, x))
    } else {
        let children = children_scored(node, score, x);
        if children.len() > 1 && !all_comparable(children) {
            None
        } else {
            let best = sorted_desc(children)[0];
            greedy(best.0, best.1, x, (depth - 1) as nat)
        }
    }
}

/// The leaves below two lists of nodes are those below the one and those
/// below the other.
pub proof fn lemma_leaves_in_concat<V>(a: Seq<TreeNode<V>>, b: Seq<TreeNode<V>>, depth: nat)
    ensures
        leaves_in(a + b, depth) == leaves_in(a, depth) + leaves_in(b, depth),
    decreases b.len(),
{
    if b.len() == 0 {
        assert(a + b =~= a);
    } else {
        lemma_leaves_in_concat(a, b.drop_last(), depth);
        assert((a + b).drop_last() =~= a + b.drop_last());
        assert((a + b).last() == b.last());
    }
}

/// A complete hierarchy has a leaf.
pub proof fn lemma_has_leaf<V: Scalar>(node: TreeNode<V>, n_inputs: usize, depth: nat)
    requires
        node.well_formed(n_inputs, depth),
    ensures
        leaves_below(node, depth) >= 1,
    decreases depth,
{
    match node {
        TreeNode::LeafNode { .. } => {},
        TreeNode::BranchNode { weight_matrix, children } => {
            let first = children@[0];
            lemma_has_leaf(first, n_inputs, (depth - 1) as nat);
            assert(children@ =~= seq![first] + children@.subrange(1, children@.len() as int));
            lemma_leaves_in_concat(
                seq![first],
                children@.subrange(1, children@.len() as int),
                (depth - 1) as nat,
            );
            assert(seq![first].drop_last() =~= Seq::<TreeNode<V>>::empty());
            assert(leaves_in(Seq::<TreeNode<V>>::empty(), (depth - 1) as nat) == 0);
            assert(leaves_in(seq![first], (depth - 1) as nat) == leaves_below(
                first,
                (depth - 1) as nat,
            ));
        },
    }
}

/// A frontier of complete hierarchies has no more nodes than leaves below it.
pub proof fn lemma_frontier_within_leaves<V: Scalar>(
    frontier: Frontier<V>,
    n_inputs: usize,
    depth: nat,
)
    requires
        frontier_well_formed(frontier, n_inputs, depth),
    ensures
        frontier.len() <= leaves_in(nodes_only(frontier), depth),
    decreases frontier.len(),
{
    if frontier.len() > 0 {
        let head = frontier.drop_last();
        assert forall|i: int| 0 <= i < head.len() implies (#[trigger] head[i]).0.well_formed(
            n_inputs,
            depth,
        ) by {
            assert(head[i] == frontier[i]);
        }
        lemma_frontier_within_leaves(head, n_inputs, depth);
        assert(nodes_only(frontier).drop_last() =~= nodes_only(head));
        assert(frontier[frontier.len() - 1].0.well_formed(n_inputs, depth));
        lemma_has_leaf(frontier.last().0, n_inputs, depth);
    }
}

/// The next frontier of a frontier of branches lies above the same leaves,
/// and is a frontier of complete hierarchies, one level down.
pub proof fn lemma_expanded_keeps_leaves<V: Scalar>(
    frontier: Frontier<V>,
    x: Features<V>,
    n_inputs: usize,
    depth: nat,
)
    requires
        depth > 0,
        frontier_well_formed(frontier, n_inputs, depth),
    ensures
        frontier_well_formed(expanded(frontier, x), n_inputs, (depth - 1) as nat),
        leaves_in(nodes_only(expanded(frontier, x)), (depth - 1) as nat) == leaves_in(
            nodes_only(frontier),
            depth,
        ),
    decreases frontier.len(),
{
    let below = (depth - 1) as nat;
    if frontier.len() == 0 {
        assert(nodes_only(expanded(frontier, x)) =~= Seq::<TreeNode<V>>::empty());
        assert(nodes_only(frontier) =~= Seq::<TreeNode<V>>::empty());
    } else {
        let head = frontier.drop_last();
        let last = frontier.last();
        assert forall|i: int| 0 <= i < head.len() implies (#[trigger] head[i]).0.well_formed(
            n_inputs,
            depth,
        ) by {
            assert(head[i] == frontier[i]);
        }
        lemma_expanded_keeps_leaves(head, x, n_inputs, depth);
        assert(frontier[frontier.len() - 1].0.well_formed(n_inputs, depth));
        let scored = children_scored(last.0, last.1, x);
        match last.0 {
            TreeNode::LeafNode { .. } => {},
            TreeNode::BranchNode { weight_matrix, children } => {
                assert(nodes_only(scored) =~= children@);
                assert(leaves_below(last.0, depth) == leaves_in(children@, below));
                assert forall|i: int| 0 <= i < scored.len() implies (
                #[trigger] scored[i]).0.well_formed(n_inputs, below) by {
                    assert(children@[i].well_formed(n_inputs, below));
                }
            },
        }
        let next = expanded(frontier, x);
        assert(next == expanded(head, x) + scored);
        assert forall|i: int| 0 <= i < next.len() implies (#[trigger] next[i]).0.well_formed(
            n_inputs,
            below,
        ) by {
            if i < expanded(head, x).len() {
                assert(next[i] == expanded(head, x)[i]);
            } else {
                let at = i - expanded(head, x).len();
                assert(0 <= at < scored.len());
                assert(next[i] == scored[at]);
            }
        }
        assert(nodes_only(next) =~= nodes_only(expanded(head, x)) + nodes_only(scored));
        lemma_leaves_in_concat(nodes_only(expanded(head, x)), nodes_only(scored), below);
        assert(nodes_only(frontier).drop_last() =~= nodes_only(head));
        assert(nodes_only(frontier).last() == last.0);
        assert(leaves_in(nodes_only(frontier), depth) == leaves_in(nodes_only(head), depth)
            + leaves_below(last.0, depth));
    }
}

/// A beam search whose beam is at least as wide as there are leaves below its
/// frontier drops no node: it returns the labels of every leaf, each with its
/// score, in the order of the leaves.
pub proof fn lemma_wide_beam_is_exhaustive<V: Real>(
    frontier: Frontier<V>,
    x: Features<V>,
    beam: nat,
    n_inputs: usize,
    depth: nat,
)
    requires
        frontier_well_formed(frontier, n_inputs, depth),
        leaves_in(nodes_only(frontier), depth) <= beam,
    ensures
        beam_search(frontier, x, beam, depth) == Some(exhaustive(frontier, x, depth)),
    decreases depth,
{
    lemma_frontier_within_leaves(frontier, n_inputs, depth);
    assert(trimmed(frontier, beam) == Some(frontier));
    if depth > 0 {
        lemma_expanded_keeps_leaves(frontier, x, n_inputs, depth);
        lemma_wide_beam_is_exhaustive(expanded(frontier, x), x, beam, n_inputs, (depth - 1) as nat);
    }
}

/// For a tree: a beam at least as wide as the tree has leaves makes the
/// search return what the enumeration of all leaves returns.
pub proof fn lemma_tree_wide_beam_is_exhaustive<V: Real>(tree: Tree<V>, x: Features<V>, beam: nat)
    requires
        x.dense.len() <= usize::MAX,
        tree.wf(x.dense.len() as usize),
        leaves_below(tree.root, tree.depth(x.dense.len() as usize)) <= beam,
    ensures
        tree.predict_spec(x, beam) == Some(
            exhaustive(
                seq![(tree.root, V::zero_value())],
                x,
                tree.depth(x.dense.len() as usize),
            ),
        ),
{
    let n_inputs = x.dense.len() as usize;
    let depth = tree.depth(n_inputs);
    let frontier = seq![(tree.root, V::zero_value())];
    assert(nodes_only(frontier) =~= seq![tree.root]);
    assert(seq![tree.root].drop_last() =~= Seq::<TreeNode<V>>::empty());
    assert(leaves_in(Seq::<TreeNode<V>>::empty(), depth) == 0);
    assert(leaves_in(seq![tree.root], depth) == leaves_below(tree.root, depth));
    lemma_wide_beam_is_exhaustive(frontier, x, beam, n_inputs, depth);
}

/// A beam search of width one that starts from a single node follows one
/// path: at each branch it goes on with the best child alone, and it returns
/// the labels of the one leaf that it reaches.
pub proof fn lemma_beam_of_one_is_greedy<V: Real>(
    node: TreeNode<V>,
    score: V,
    x: Features<V>,
    n_inputs: usize,
    depth: nat,
)
    requires
        node.well_formed(n_inputs, depth),
    ensures
        beam_search(seq![(node, score)], x, 1, depth) == greedy(node, score, x, depth),
    decreases depth,
{
    let frontier = seq![(node, score)];
    assert(trimmed(frontier, 1) == Some(frontier));
    let nothing = Seq::<(TreeNode<V>, V)>::empty();
    assert(frontier.drop_last() =~= nothing);
    if depth == 0 {
        assert(leaf_outputs(nothing, x) =~= Seq::<(u32, V)>::empty());
        assert(leaf_outputs(frontier, x) =~= leaf_output(node, score, x));
    } else {
        let children = children_scored(node, score, x);
        assert(expanded(nothing, x) =~= nothing);
        assert(expanded(frontier, x) =~= children);
        match node {
            TreeNode::LeafNode { .. } => {},
            TreeNode::BranchNode { weight_matrix, children: below } => {
                assert(children.len() == below@.len());
                assert forall|i: int| 0 <= i < children.len() implies (
                #[trigger] children[i]).0.well_formed(n_inputs, (depth - 1) as nat) by {
                    assert(below@[i].well_formed(n_inputs, (depth - 1) as nat));
                }
            },
        }
        assert(frontier_well_formed(children, n_inputs, (depth - 1) as nat));
        assert(beam_search(frontier, x, 1, depth) == beam_search(
            children,
            x,
            1,
            (depth - 1) as nat,
        ));
        crate::ranking::lemma_sorted_len(children);
        crate::tree::lemma_sorted_keeps_well_formed(children, n_inputs, (depth - 1) as nat);
        if children.len() > 1 {
            if all_comparable(children) {
                let best = sorted_desc(children)[0];
                let kept = sorted_desc(children).take(1);
                assert(kept =~= seq![best]);
                assert(trimmed(children, 1) == Some(kept));
                assert(best.0.well_formed(n_inputs, (depth - 1) as nat));
                lemma_beam_of_one_is_greedy(best.0, best.1, x, n_inputs, (depth - 1) as nat);
                lemma_first_trim_is_idle(kept, children, x, (depth - 1) as nat);
                assert(seq![(best.0, best.1)] =~= kept);
            } else {
                assert(trimmed(children, 1) is None);
            }
        } else {
            let best = sorted_desc(children)[0];
            assert(children.drop_last() =~= nothing);
            assert(sorted_desc(nothing) =~= nothing);
            assert(crate::ranking::inserted_desc(nothing, children[0]) =~= seq![children[0]]);
            assert(sorted_desc(children) =~= seq![children[0]]);
            assert(children =~= seq![(best.0, best.1)]);
            assert(best.0.well_formed(n_inputs, (depth - 1) as nat));
            lemma_beam_of_one_is_greedy(best.0, best.1, x, n_inputs, (depth - 1) as nat);
        }
    }
}

/// A search that starts from a frontier of more than one node, with a beam of
/// one, goes on as the search that starts from the best node alone.
proof fn lemma_first_trim_is_idle<V: Real>(
    kept: Frontier<V>,
    frontier: Frontier<V>,
    x: Features<V>,
    depth: nat,
)
    requires
        trimmed(frontier, 1) == Some(kept),
        kept.len() == 1,
    ensures
        beam_search(frontier, x, 1, depth) == beam_search(kept, x, 1, depth),
{
    assert(trimmed(kept, 1) == Some(kept));
}

} // verus!
