//! A hash-committed prefix trie over 32-byte addresses.
//!
//! Every entry is a leaf that holds an address and a payload. A branch has one
//! slot for each value of a byte; two leaves that meet in one slot are moved
//! one layer down, under a fork. Leaves, forks and branches carry a SHA-256
//! digest of what lies below them, and the root carries one over all of it.
//!
//! - [`hash`]: SHA-256, and the trait of a digest function.
//! - [`layer`]: the depth of a branch.
//! - [`payload`]: what can be stored, and how it is turned into bytes.
//! - [`model`]: the trie as a mathematical value, which the contracts speak of.
//! - [`node`]: leaves, forks, branches, the root, and the walks over leaves.
//! - [`trie`]: the trie itself.
//! - [`laws`]: what holds of every trie, proved over the model.

pub mod hash;
pub mod laws;
pub mod layer;
pub mod model;
pub mod node;
pub mod payload;
pub mod trie;
