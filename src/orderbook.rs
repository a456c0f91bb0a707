//! Limit-order book: types, the order arena and the matching engine.
pub mod arena;
pub mod engine;
pub mod types;
