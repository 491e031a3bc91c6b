use sparse_forest::ranking::{scores_comparable, sort_by_score_desc};
use sparse_forest::{
    aggregate, DenseMat, LilMat, Model, PredictError, Real, Scalar, SparseDenseVec, SparseVec,
    Tree, TreeNode, WeightMat,
};

#[derive(Clone, Copy, Debug, PartialEq)]
struct F(f32);

impl Scalar for F {
    fn zero_value() -> Self {
        F(0.0)
    }

    fn is_zero_spec(self) -> bool {
        self.0 == 0.0
    }

    fn plus_spec(self, rhs: Self) -> Self {
        F(self.0 + rhs.0)
    }

    fn times_spec(self, rhs: Self) -> Self {
        F(self.0 * rhs.0)
    }

    fn abs_spec(self) -> Self {
        F(self.0.abs())
    }

    fn le_spec(self, rhs: Self) -> bool {
        self.0 <= rhs.0
    }

    fn zero() -> Self {
        F(0.0)
    }

    fn is_zero(self) -> bool {
        self.0 == 0.0
    }

    fn plus(self, rhs: Self) -> Self {
        F(self.0 + rhs.0)
    }

    fn times(self, rhs: Self) -> Self {
        F(self.0 * rhs.0)
    }

    fn abs(self) -> Self {
        F(self.0.abs())
    }

    fn le(self, rhs: Self) -> bool {
        self.0 <= rhs.0
    }
}

impl Real for F {
    fn from_count_spec(n: usize) -> Self {
        F(n as f32)
    }

    fn nan_value() -> Self {
        F(f32::NAN)
    }

    fn div_spec(self, rhs: Self) -> Self {
        F(self.0 / rhs.0)
    }

    fn sqrt_spec(self) -> Self {
        F(self.0.sqrt())
    }

    fn exp_spec(self) -> Self {
        F(self.0.exp())
    }

    fn from_count(n: usize) -> Self {
        F(n as f32)
    }

    fn nan() -> Self {
        F(f32::NAN)
    }

    fn div(self, rhs: Self) -> Self {
        F(self.0 / rhs.0)
    }

    fn sqrt(self) -> Self {
        F(self.0.sqrt())
    }

    fn exp(self) -> Self {
        F(self.0.exp())
    }
}

fn fs(values: Vec<f32>) -> Vec<F> {
    values.into_iter().map(F).collect()
}

fn pairs(values: Vec<(u32, f32)>) -> Vec<(u32, F)> {
    values.into_iter().map(|(i, v)| (i, F(v))).collect()
}

fn dense(rows: usize, cols: usize, values: Vec<f32>) -> WeightMat<F> {
    WeightMat::Dense(DenseMat::from_vec(rows, cols, fs(values)).unwrap())
}

fn leaf_a() -> TreeNode<F> {
    TreeNode::LeafNode {
        weight_matrix: dense(3, 2, vec![1., 0., 0., 0., 0., 1.]),
        labels: vec![10, 11],
    }
}

fn leaf_b() -> TreeNode<F> {
    TreeNode::LeafNode {
        weight_matrix: dense(3, 1, vec![0., 1., 0.]),
        labels: vec![20],
    }
}

fn two_leaf_tree() -> Tree<F> {
    Tree {
        root: TreeNode::BranchNode {
            weight_matrix: dense(3, 2, vec![1., 0., 0., 1., 0., 0.]),
            children: vec![leaf_a(), leaf_b()],
        },
    }
}

fn single_leaf_tree() -> Tree<F> {
    Tree {
        root: TreeNode::LeafNode {
            weight_matrix: dense(3, 2, vec![0., 0., 0., 0., 0., 1.]),
            labels: vec![10, 30],
        },
    }
}

fn features() -> SparseDenseVec<F> {
    let x0 = 3.0f32 / 5.0;
    let x1 = 4.0f32 / 5.0;
    SparseDenseVec::from_sparse(SparseVec::new(3, vec![0, 1, 2], fs(vec![x0, x1, 1.0])))
}

#[test]
fn test_beam_as_wide_as_the_leaves_reaches_every_label() {
    let x0 = 3.0f32 / 5.0;
    let x1 = 4.0f32 / 5.0;
    let tree = two_leaf_tree();
    let expected = pairs(vec![
        (10, (x0 + (x0 + 0.0)).exp()),
        (11, (1.0 + (x0 + 0.0)).exp()),
        (20, (x1 + (x1 + 0.0)).exp()),
    ]);
    assert_eq!(Ok(expected.clone()), tree.predict(&features(), 2));
    assert_eq!(Ok(expected), tree.predict(&features(), 50));
}

#[test]
fn test_beam_of_one_follows_the_best_child() {
    let x1 = 4.0f32 / 5.0;
    let tree = two_leaf_tree();
    assert_eq!(
        Ok(pairs(vec![(20, (x1 + (x1 + 0.0)).exp())])),
        tree.predict(&features(), 1)
    );
}

#[test]
fn test_tree_that_is_a_leaf() {
    let tree = single_leaf_tree();
    assert_eq!(
        Ok(pairs(vec![(10, 0.0f32.exp()), (30, 1.0f32.exp())])),
        tree.predict(&features(), 1)
    );
    assert!(tree.check(3));
    assert!(!tree.check(4));
}

#[test]
fn test_sparse_and_dense_weights_give_the_same_scores() {
    let columns = vec![
        SparseVec::new(3, vec![0], fs(vec![2.])),
        SparseVec::new(3, vec![1, 2], fs(vec![3., 5.])),
    ];
    let sparse = WeightMat::Sparse(LilMat::from_columns(&columns));
    let full = dense(3, 2, vec![2., 0., 0., 3., 0., 5.]);
    let x = SparseDenseVec::from_sparse(SparseVec::new(3, vec![0, 2], fs(vec![7., 11.])));
    assert_eq!(fs(vec![14., 55.]), x.dot(&sparse));
    assert_eq!(fs(vec![14., 55.]), x.dot(&full));
    assert_eq!(&fs(vec![7., 0., 11.]), x.dense());
    assert_eq!(&vec![0, 2], x.sparse().indices());
}

#[test]
fn test_deeper_tree_keeps_the_best_nodes_of_each_level() {
    let pick = |first: f32, second: f32| dense(3, 2, vec![0., 0., 0., 0., first, second]);
    let leaf = |label: u32| TreeNode::LeafNode {
        weight_matrix: dense(3, 1, vec![0., 0., 0.]),
        labels: vec![label],
    };
    let tree = Tree {
        root: TreeNode::BranchNode {
            weight_matrix: pick(1., 2.),
            children: vec![
                TreeNode::BranchNode {
                    weight_matrix: pick(8., 0.),
                    children: vec![leaf(1), leaf(2)],
                },
                TreeNode::BranchNode {
                    weight_matrix: pick(3., 4.),
                    children: vec![leaf(3), leaf(4)],
                },
            ],
        },
    };
    assert!(tree.check(3));
    assert_eq!(Some(2), tree.root.complete_depth(3));
    let score = |path: f32| (0.0f32 + path).exp();
    assert_eq!(
        Ok(pairs(vec![(1, score(9.)), (2, score(1.)), (3, score(5.)), (4, score(6.))])),
        tree.predict(&features(), 4)
    );
    assert_eq!(
        Ok(pairs(vec![(1, score(9.)), (4, score(6.))])),
        tree.predict(&features(), 2)
    );
    assert_eq!(Ok(pairs(vec![(4, score(6.))])), tree.predict(&features(), 1));
    assert_eq!(
        Ok(pairs(vec![(1, score(9.)), (4, score(6.)), (3, score(5.))])),
        tree.predict(&features(), 3)
    );
}

#[test]
fn test_scores_that_cannot_be_compared_stop_the_search() {
    let tree = Tree {
        root: TreeNode::BranchNode {
            weight_matrix: dense(3, 2, vec![0., 0., 0., 0., f32::NAN, 1.]),
            children: vec![leaf_a(), leaf_b()],
        },
    };
    assert_eq!(Err(PredictError::NotComparable), tree.predict(&features(), 1));
    let all = tree.predict(&features(), 2).unwrap();
    assert_eq!(vec![10, 11, 20], all.iter().map(|p| p.0).collect::<Vec<u32>>());
    assert!(all[0].1 .0.is_nan());
}

#[test]
fn test_complete_depth_tells_hierarchies_apart() {
    assert_eq!(Some(0), leaf_a().complete_depth(3));
    assert_eq!(None, leaf_a().complete_depth(2));
    assert_eq!(Some(1), two_leaf_tree().root.complete_depth(3));

    let uneven = TreeNode::BranchNode {
        weight_matrix: dense(3, 2, vec![1., 0., 0., 1., 0., 0.]),
        children: vec![leaf_a(), two_leaf_tree().root],
    };
    assert_eq!(None, uneven.complete_depth(3));

    let childless = TreeNode::BranchNode::<F> {
        weight_matrix: dense(3, 0, vec![]),
        children: vec![],
    };
    assert_eq!(None, childless.complete_depth(3));

    let wrong_columns = TreeNode::BranchNode {
        weight_matrix: dense(3, 1, vec![1., 0., 0.]),
        children: vec![leaf_a(), leaf_b()],
    };
    assert_eq!(None, wrong_columns.complete_depth(3));
    assert!(leaf_a().is_leaf());
    assert!(!wrong_columns.is_leaf());
}

#[test]
fn test_average_counts_a_tree_that_misses_a_label_as_zero() {
    let per_tree = vec![pairs(vec![(7, 0.8)]), pairs(vec![])];
    assert_eq!(Ok(pairs(vec![(7, 0.4)])), aggregate(&per_tree));
}

#[test]
fn test_aggregate_sums_by_label_and_ranks() {
    let per_tree = vec![
        pairs(vec![(3, 1.0), (5, 4.0), (9, 2.0)]),
        pairs(vec![(5, 1.0), (4, 8.0)]),
        pairs(vec![(9, 2.5), (3, 0.5), (5, 1.0)]),
    ];
    assert_eq!(
        Ok(pairs(vec![
            (4, 8.0 / 3.0),
            (5, 6.0 / 3.0),
            (9, 4.5 / 3.0),
            (3, 1.5 / 3.0),
        ])),
        aggregate(&per_tree)
    );
}

#[test]
fn test_aggregate_keeps_first_seen_order_among_equal_averages() {
    let per_tree = vec![pairs(vec![(8, 1.0), (2, 1.0)]), pairs(vec![(5, 1.0)])];
    assert_eq!(
        Ok(pairs(vec![(8, 0.5), (2, 0.5), (5, 0.5)])),
        aggregate(&per_tree)
    );
    assert_eq!(Ok(pairs(vec![])), aggregate::<F>(&vec![]));
    assert_eq!(Ok(pairs(vec![])), aggregate::<F>(&vec![vec![], vec![]]));
}

#[test]
fn test_aggregate_fails_on_averages_that_cannot_be_compared() {
    let per_tree = vec![pairs(vec![(1, f32::NAN), (2, 1.0)])];
    assert_eq!(Err(PredictError::NotComparable), aggregate(&per_tree));
    let single = aggregate(&vec![pairs(vec![(1, f32::NAN)])]).unwrap();
    assert_eq!(1, single.len());
    assert!(single[0].1 .0.is_nan());
}

#[test]
fn test_prepare_feature_vec_normalizes_and_appends_bias() {
    let model = Model::new(vec![two_leaf_tree()], 2);
    let x = model.prepare_feature_vec(&pairs(vec![(0, 3.0), (1, 4.0)]));
    assert_eq!(3, x.sparse().dim());
    assert_eq!(&vec![0, 1, 2], x.sparse().indices());
    assert_eq!(&fs(vec![3.0 / 5.0, 4.0 / 5.0, 1.0]), x.sparse().data());
    assert_eq!(&fs(vec![3.0 / 5.0, 4.0 / 5.0, 1.0]), x.dense());

    let x = model.prepare_feature_vec(&pairs(vec![(1, -2.0)]));
    assert_eq!(&vec![1, 2], x.sparse().indices());
    assert_eq!(&fs(vec![0.0, -1.0, 1.0]), x.dense());

    let x = model.prepare_feature_vec(&pairs(vec![(0, 0.0)]));
    assert_eq!(&fs(vec![0.0, 1.0]), x.sparse().data());
    let x = model.prepare_feature_vec(&pairs(vec![]));
    assert_eq!(&fs(vec![0.0, 0.0, 1.0]), x.dense());
}

#[test]
fn test_model_predict_averages_over_the_forest() {
    let x0 = 3.0f32 / 5.0;
    let x1 = 4.0f32 / 5.0;
    let model = Model::new(vec![two_leaf_tree(), single_leaf_tree()], 2);
    assert_eq!(2, model.n_features());
    assert_eq!(2, model.trees().len());
    let got = model.predict(&pairs(vec![(0, 3.0), (1, 4.0)]), 2);
    let e10 = ((0.0 + (x0 + (x0 + 0.0)).exp()) + 0.0f32.exp()) / 2.0;
    let e11 = (0.0 + (1.0 + (x0 + 0.0)).exp()) / 2.0;
    let e20 = (0.0 + (x1 + (x1 + 0.0)).exp()) / 2.0;
    let e30 = (0.0 + 1.0f32.exp()) / 2.0;
    assert_eq!(Ok(pairs(vec![(11, e11), (20, e20), (10, e10), (30, e30)])), got);

    let narrow = model.predict(&pairs(vec![(0, 3.0), (1, 4.0)]), 1);
    let n10 = (0.0 + 0.0f32.exp()) / 2.0;
    assert_eq!(Ok(pairs(vec![(20, e20), (30, e30), (10, n10)])), narrow);
}

#[test]
fn test_model_without_trees_predicts_nothing() {
    let model = Model::<F>::new(vec![], 2);
    assert_eq!(Ok(pairs(vec![])), model.predict(&pairs(vec![(0, 1.0)]), 3));
}

#[test]
fn test_model_try_new_checks_every_tree() {
    assert!(Model::try_new(vec![two_leaf_tree(), single_leaf_tree()], 2).is_some());
    assert!(Model::try_new(vec![two_leaf_tree()], 3).is_none());
    assert!(Model::<F>::try_new(vec![], usize::MAX).is_none());
    assert!(Model::<F>::try_new(vec![], 7).is_some());
}

#[test]
fn test_sort_by_score_desc_keeps_order_of_equal_scores() {
    let mut items = vec![('a', 2), ('b', 5), ('c', 2), ('d', 9), ('e', 5)];
    sort_by_score_desc(&mut items);
    assert_eq!(vec![('d', 9), ('b', 5), ('e', 5), ('a', 2), ('c', 2)], items);
    assert!(scores_comparable(&items));
    assert!(!scores_comparable(&pairs(vec![(1, 1.0), (2, f32::NAN)])));
    let mut none: Vec<(u32, i32)> = vec![];
    sort_by_score_desc(&mut none);
    assert!(none.is_empty());
}
