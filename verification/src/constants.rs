//! Dimensions of the world: tiles, and the finer cells inside each tile.

use vstd::prelude::*;

verus! {

/// Number of cells along one edge of a tile.
pub const CELLS_PER_TILE: usize = 6;

/// Number of tiles along one edge of the world.
pub const TILES_PER_ROW: usize = 30;

/// Number of cells along one edge of the world.
pub const CELLS_PER_ROW: usize = 180;

/// Number of cells in the world.
pub const CELLS_TOTAL: usize = 32400;

/// Number of tiles in the world.
pub const TILES_TOTAL: usize = 900;

/// The derived dimensions are the products of the basic ones.
pub proof fn lemma_constants_consistent()
    ensures
        CELLS_PER_ROW == CELLS_PER_TILE * TILES_PER_ROW,
        CELLS_TOTAL == CELLS_PER_ROW * CELLS_PER_ROW,
        TILES_TOTAL == TILES_PER_ROW * TILES_PER_ROW,
        CELLS_PER_TILE > 0,
        TILES_PER_ROW > 0,
{
}

/// The first (top-left) cell of a tile.
pub fn tile_to_cell_coords(tile_x: usize, tile_y: usize) -> (cell: (usize, usize))
    requires
        tile_x * CELLS_PER_TILE <= usize::MAX,
        tile_y * CELLS_PER_TILE <= usize::MAX,
    ensures
        cell.0 == tile_x * CELLS_PER_TILE,
        cell.1 == tile_y * CELLS_PER_TILE,
{
    (tile_x * CELLS_PER_TILE, tile_y * CELLS_PER_TILE)
}

/// The tile that holds a cell.
pub fn cell_to_tile_coords(cell_x: usize, cell_y: usize) -> (tile: (usize, usize))
    ensures
        tile.0 == cell_x / CELLS_PER_TILE,
        tile.1 == cell_y / CELLS_PER_TILE,
{
    (cell_x / CELLS_PER_TILE, cell_y / CELLS_PER_TILE)
}

/// Row-major index of a tile in the flat tile array.
pub fn tile_index(tile_x: usize, tile_y: usize) -> (index: usize)
    requires
        tile_y * TILES_PER_ROW + tile_x <= usize::MAX,
    ensures
        index == tile_y * TILES_PER_ROW + tile_x,
{
    tile_y * TILES_PER_ROW + tile_x
}

/// Row-major index of a cell in the flat cell array.
pub fn cell_index(cell_x: usize, cell_y: usize) -> (index: usize)
    requires
        cell_y * CELLS_PER_ROW + cell_x <= usize::MAX,
    ensures
        index == cell_y * CELLS_PER_ROW + cell_x,
{
    cell_y * CELLS_PER_ROW + cell_x
}

/// Going from a tile to its first cell and back gives the tile again.
pub proof fn lemma_tile_cell_round_trip(tile_x: int, tile_y: int)
    requires
        0 <= tile_x,
        0 <= tile_y,
    ensures
        (tile_x * CELLS_PER_TILE) / (CELLS_PER_TILE as int) == tile_x,
        (tile_y * CELLS_PER_TILE) / (CELLS_PER_TILE as int) == tile_y,
{
}

} // verus!
