//! A single-instrument limit-order matching engine with an index-linked order
//! store, plus a small Merkle Patricia trie and market-data helper types.
pub mod address;
pub mod bytes;
pub mod market;
pub mod messaging;
pub mod mpt;
pub mod orderbook;
pub mod text;
