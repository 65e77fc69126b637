//! Succinct bit-vector primitives: bit stores viewed as bits or as blocks,
//! rank and select queries over them, and universal codes for positive
//! integers.
//!
//! Every executable function carries a contract over a mathematical model:
//! a bit store is a `Seq<bool>`, rank is a count of set bits in a prefix,
//! select is the position at which that count first reaches a value, and a
//! code family is a prefix-free map from integers to bit patterns.

pub mod coding;
pub mod rank;
pub mod select;
pub mod storage;
pub mod stream;
