//! Core algorithms for a tile-based world: a 2D integer position type, a
//! generic dense grid, a Bresenham line rasterizer, a symmetric recursive
//! shadowcasting visibility engine, and a wave-function-collapse solver.

pub mod arith;
pub mod entropy_queue;
pub mod grid;
pub mod map;
pub mod position;
pub mod raycast;
pub mod shadow;
pub mod tile;
pub mod tower;
pub mod wfc;
pub mod wfc_cell;
