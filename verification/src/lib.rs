//! Ranking a large label space with a forest of one-vs-all classifier trees.
//!
//! The crate holds the sparse vector and matrix kernels that store classifier
//! weights, the tree of classifier groups, and the beam search that turns a
//! feature vector into ranked labels.

pub mod cs_mat;
pub mod cs_tools;
pub mod dense_mat;
pub mod index_set;
pub mod lil_build;
pub mod lil_mat;
pub mod model;
pub mod pairs;
pub mod ranking;
pub mod scalar;
pub mod search_laws;
pub mod sorting;
pub mod sparse_vec;
pub mod tree;
pub mod weight_mat;

pub use cs_mat::{csrmat_from_index_value_pair_lists, CsMat};
pub use cs_tools::{CsMatBaseTools, CsMatITools};
pub use dense_mat::DenseMat;
pub use lil_mat::LilMat;
pub use model::{aggregate, Model};
pub use pairs::{Index, IndexValuePairs, IndexValuePairsMut, IndexValueVec, OwnedIndexValuePairs};
pub use scalar::{Real, Scalar};
pub use sparse_vec::{
    csvec_dot_self, dense_add_assign_csvec, dense_add_assign_csvec_mul_scalar,
    dense_vec_l2_normalize, find_max, DenseVec, SparseVec,
};
pub use tree::{PredictError, Tree, TreeNode};
pub use weight_mat::{Features, SparseDenseVec, WeightMat};
