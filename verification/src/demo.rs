//! Helpers of the demonstrations: node names, combinations, random draws and color palettes.
pub mod combination;
pub mod names;
pub mod random;
pub mod colors;
