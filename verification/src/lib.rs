//! Merkle-tree audit protocol: a client commits an ordered sequence of items to
//! a server and later checks, from a short list of sibling digests, that the
//! server still holds the committed data and that an update was applied
//! honestly.
//!
//! - [`hasher`]: the digest function.
//! - [`items`]: from the submitted text to its words and their digests.
//! - [`tree`]: the tree over the leaves and its root.
//! - [`audit_proof`]: audit proofs, their verification and their bytes.
//! - [`path`]: the sides of a leaf's siblings on the way to the root.
//! - [`recompute`]: the root that follows from a changed leaf.
//! - [`wire`] and [`indices`]: the messages as bytes.
//! - [`session`]: the server's answers and the client's state machine.
//! - [`error`]: the failures.

pub mod audit_proof;
pub mod error;
pub mod hasher;
pub mod indices;
pub mod items;
pub mod path;
pub mod recompute;
pub mod session;
pub mod tree;
pub mod wire;
