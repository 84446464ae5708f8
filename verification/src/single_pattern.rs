//! Algorithms matching a single pattern on a text.

pub mod bits;
pub mod bndm;
pub mod horspool;
pub mod naive;
pub mod occurrences;
pub mod shift_and;
