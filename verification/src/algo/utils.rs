//! Helpers of the algorithms.
pub mod color;
