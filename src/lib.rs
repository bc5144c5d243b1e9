//! A binary-space-partition tiling engine: a tree of screen regions, each
//! either a tile bound to one window or a split dividing its rectangle in two.

pub mod geometry;
pub mod tiling;
pub mod input;
