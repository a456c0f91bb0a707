//! A simplified Merkle Patricia trie: nibble paths, hex-prefix encoding,
//! node hashing and membership proofs.
pub mod hash;
pub mod nibbles;
pub mod node;
pub mod trie;
pub mod merkle_proof;
