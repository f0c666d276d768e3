//! A sparse Merkle tree over the Pallas scalar field, hashed with Poseidon,
//! together with the step functions that rebuild a root from a leaf and its
//! sibling path.

pub mod merkle_tree;
