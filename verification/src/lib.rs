//! A memory- and compute-hard proof-of-work kernel.
//!
//! A 64x64 matrix of 4-bit values is drawn from a seed digest, accepted once
//! it has full rank, and then multiplied against the nibbles of a block
//! digest before a final cryptographic hash.

pub mod arrays;
pub mod binary64;
pub mod generation;
pub mod generator;
pub mod matrix;
pub mod order;
pub mod rank;
pub mod rounding;
pub mod transform;

pub use arrays::array_from_fn;
pub use matrix::Matrix;
