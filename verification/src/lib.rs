//! A compact, value-semantic set of consecutive natural numbers `1..=N`.
//!
//! A `Bitset<N>` stores a subset of `{1, 2, ..., N}` in a single `u64`
//! word: bit `i - 1` of the word flags membership of the integer `i`.
//! All set algebra (union, intersection, difference, symmetric
//! difference, subset ordering) is a word-level bitwise operation, and
//! every operation carries a contract over the set of members it
//! represents.

pub mod bits;
pub mod errors;
pub mod laws;
pub mod natbitset;
pub mod render;

pub use errors::ConversionError;
pub use errors::EmptiedBitsetError;
pub use errors::RemoveError;
pub use natbitset::Bitset;
pub use natbitset::BitsetIterator;
