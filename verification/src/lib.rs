//! Graph structures whose every change is rendered as an animated SVG (SMIL) picture, and
//! graph algorithms animated on them.
pub mod text;
pub mod keymap;
pub mod config;
pub mod graph;
pub mod algo;
pub mod demo;
