//! An authenticated, hash-addressed key-value store: a reference-counted blob
//! store, a balanced tree whose nodes live in that store under their own hash,
//! a wrapper that hashes application keys before they reach the tree, and the
//! frame codec used on the wire.
pub mod avl;
pub mod bytes;
pub mod fatdb;
pub mod hash;
pub mod keymap;
pub mod memorydb;
pub mod node;
pub mod protocol;
