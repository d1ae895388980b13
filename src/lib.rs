//! Shamir's secret sharing over GF(2^8).
use vstd::prelude::*;

pub mod combine;
pub mod error;
pub mod field;
pub mod interpolation;
pub mod polynomial;
pub mod split;

pub use combine::{combine, CombineSecret};
pub use error::ShamirError;
pub use split::{split, split_with_randomness, Secret};
