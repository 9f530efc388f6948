//! Graph algorithms, each animated on a graph of its own.
pub mod coloration;
pub mod compare;
pub mod connectivity;
pub mod eulerian;
pub mod tree;
pub mod sequence;
pub mod transform;
pub mod utils;
