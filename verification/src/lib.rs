//! A dynamic, array-packed Merkle tree.
//!
//! The tree is kept as one contiguous array of digests: the root at index 0,
//! the children of index `i` at `2*i + 1` and `2*i + 2`, and the current
//! leaves always occupying the trailing positions.  Single leaves can be
//! inserted and deleted without a full rebuild, inclusion proofs can be
//! produced and checked, and a replica that knows only the root digest and
//! the leaf count can absorb verified fragments leaf by leaf.

pub mod hash;
pub mod keymap;
pub mod laws;
pub mod merkle;
pub mod model;

