//! A condensed fork-choice tree over an append-only, possibly forking chain
//! of blocks, together with the auxiliary indexes that make tree maintenance
//! and ancestor queries efficient: a skip-pointer ancestor index, a least
//! common ancestor search built on it, and an incremental insertion algorithm
//! that materializes tree nodes only for the root, branch points and leaves.

pub mod sorted;
pub mod store;
pub mod ancestor;
pub mod tree;
