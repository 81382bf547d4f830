//! Merkle trees over allocation records, with inclusion proofs that an outside verifier folds
//! back to the published root.
pub mod allocation;
pub mod felt;
pub mod merkle_tree;
pub mod model;
pub mod node;
