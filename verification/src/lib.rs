//! Ledger core of a single-node blockchain: a hash-chained sequence of blocks
//! whose payload lives in a partially-prunable, partially-restorable Merkle
//! tree, secured by a proof-of-work nonce search.
//!
//! Payload items are byte sequences. Whatever payload type a deployment
//! stores — transactions, say — serializes deterministically to bytes before
//! it enters a tree, and equal items serialize to equal bytes; hashing and
//! the forget/restore matching both work on that serialized form.

pub mod hash;
pub mod merkle_tree;
pub mod block;
pub mod blockchain;
pub mod xml;
