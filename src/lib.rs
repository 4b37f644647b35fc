//! An in-memory nearest-neighbour search over a corpus of text strings,
//! with an order-sensitive and an order-insensitive similarity.
pub mod tokenizer;
pub mod similarity;
pub mod select;
pub mod engine;
pub mod laws;
