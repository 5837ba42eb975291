//! A fixed-depth incremental Merkle tree over an arbitrary element type.
//!
//! The tree keeps every layer of hashes, pads missing right siblings with a
//! per-level default value, and recomputes only the ancestor chain of a leaf
//! when that leaf changes.

pub mod error;
pub mod hasher;
pub mod lemmas;
pub mod model;
pub mod theorems;
pub mod tree;
