//! A deterministic, integer-only 2D lighting and shadow-casting engine.
//!
//! - [`arctan`]: fixed-point arctangent, degrees and an approximate norm.
//! - [`ray`]: one step along a Bresenham line.
//! - [`bresenham`]: the walk along a segment that the occlusion tests follow.
//! - [`constants`]: the dimensions of the tile world.
//! - [`block_map`]: the tile world and the blocked edges of its cells.
//! - [`map_grid`]: room connectivity, ray rejection, room boundaries and
//!   pathfinding.
//! - [`collision`]: the occlusion tiers and the collision system.
//! - [`lighting`]: the ray table and the rendering of lights.
//!
//! The functions are verified against the contracts that they carry. The
//! contracts of the two functions in [`ray`] that call the crate
//! `num_traits` are taken on trust.

pub mod arctan;
pub mod block_map;
pub mod bresenham;
pub mod collision;
pub mod constants;
pub mod lighting;
pub mod map_grid;
pub mod ray;

pub use crate::block_map::CellDetails;
pub use crate::constants::{
    cell_index, cell_to_tile_coords, tile_index, tile_to_cell_coords, CELLS_PER_ROW,
    CELLS_PER_TILE, CELLS_TOTAL, TILES_PER_ROW, TILES_TOTAL,
};
pub use crate::lighting::Color;
