//! A binary hash tree over a list of addresses, with inclusion proofs.
//!
//! Leaves are the SHA3-256 digests of the decoded addresses. Every layer of
//! odd length is padded with an all-zero digest before its pairs are hashed
//! into the next layer, until a single digest, the root, remains. An
//! inclusion proof lists the sibling digests on the path from one leaf to the
//! root, and is checked against the root alone.
//!
//! - [`address`]: addresses, their payloads and their leaf digests.
//! - [`digest`]: the hash, the zero digest, and the digest of a pair.
//! - [`tree`]: the layers of a tree and how they are built.
//! - [`inclusion`]: inclusion proofs, made from a tree and replayed without it.
//! - [`laws`]: what holds of these operations together.
//! - [`error`]: the inputs that are refused.

pub mod address;
pub mod digest;
pub mod error;
pub mod inclusion;
pub mod laws;
pub mod tree;
