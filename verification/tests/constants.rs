use bresenham_lighting_engine::constants::{
    cell_index, cell_to_tile_coords, tile_index, tile_to_cell_coords, CELLS_PER_ROW,
    CELLS_PER_TILE, CELLS_TOTAL, TILES_PER_ROW, TILES_TOTAL,
};

#[test]
fn test_coordinate_conversions() {
    // Test tile to cell conversion
    let (cell_x, cell_y) = tile_to_cell_coords(2, 3);
    assert_eq!(cell_x, 12);
    assert_eq!(cell_y, 18);

    // Test cell to tile conversion
    let (tile_x, tile_y) = cell_to_tile_coords(14, 20);
    assert_eq!(tile_x, 2);
    assert_eq!(tile_y, 3);

    // Test round-trip conversion
    let first_tile = (5, 7);
    let (cell_x, cell_y) = tile_to_cell_coords(first_tile.0, first_tile.1);
    let recovered_tile = cell_to_tile_coords(cell_x, cell_y);
    assert_eq!(first_tile, recovered_tile);
}

#[test]
fn test_index_calculations() {
    // Test tile indexing
    let index = tile_index(2, 3);
    assert_eq!(index, 3 * TILES_PER_ROW + 2);

    // Test cell indexing
    let index = cell_index(14, 20);
    assert_eq!(index, 20 * CELLS_PER_ROW + 14);

    // Test boundary conditions
    let max_tile_index = tile_index(TILES_PER_ROW - 1, TILES_PER_ROW - 1);
    assert_eq!(max_tile_index, TILES_TOTAL - 1);

    let max_cell_index = cell_index(CELLS_PER_ROW - 1, CELLS_PER_ROW - 1);
    assert_eq!(max_cell_index, CELLS_TOTAL - 1);
}

#[test]
fn test_constants_consistency() {
    // Verify that our derived constants are calculated correctly
    assert_eq!(CELLS_PER_ROW, CELLS_PER_TILE * TILES_PER_ROW);
    assert_eq!(CELLS_TOTAL, CELLS_PER_ROW * CELLS_PER_ROW);
    assert_eq!(TILES_TOTAL, TILES_PER_ROW * TILES_PER_ROW);
}

#[test]
fn constants_have_their_values() {
    assert_eq!(CELLS_PER_TILE, 6);
    assert_eq!(TILES_PER_ROW, 30);
    assert_eq!(CELLS_PER_ROW, 180);
    assert_eq!(CELLS_TOTAL, 32400);
    assert_eq!(TILES_TOTAL, 900);
    assert_eq!(tile_index(2, 3), 92);
    assert_eq!(cell_index(14, 20), 3614);
    assert_eq!(tile_to_cell_coords(0, 29), (0, 174));
    assert_eq!(cell_to_tile_coords(179, 5), (29, 0));
}
