//! Sparse vectors: vectors of very many dimensions of which only a few hold
//! a weight, stored as an ascending list of (dimension, weight) pairs, with
//! lookup by bisection and a scalar product and cosine similarity that merge
//! two such lists in one pass.
//!
//! - `sp_vec`: the vector and its operations.
//! - `entries`: the entry list, what it stands for, and its normal form.
//! - `join`: the merge of two entry lists by dimension.
//! - `arith`: what is asked of a weight type, and the sums formed of weights.
//! - `sparse_iter`, `dim_iter`, `weight_iter`: passes over a vector.
//! - `laws`: what holds of the operations taken together.
pub mod arith;
pub mod dim_iter;
pub mod entries;
pub mod join;
pub mod laws;
pub mod sp_vec;
pub mod sparse_iter;
pub mod weight_iter;

pub use sp_vec::SpVector;
