use bresenham_lighting_engine::block_map::{
    get_blockmap, get_tiles, get_tiles_vec_i32, set_tile, BlockMap, CellDetails,
};
use bresenham_lighting_engine::constants::{CELLS_PER_ROW, CELLS_TOTAL, TILES_PER_ROW, TILES_TOTAL};

fn edges(cell: &CellDetails) -> (bool, bool, bool, bool) {
    (cell.n_blocked, cell.e_blocked, cell.s_blocked, cell.w_blocked)
}

#[test]
fn test_set_tile_updates_blocking() {
    let mut world = BlockMap::new();
    // Set up a simple test case
    set_tile(&mut world, 0, 0, 1);
    set_tile(&mut world, 1, 0, 2);

    // The cells on the border between these tiles should be blocked
    let blockmap = get_blockmap(&world);
    assert!(!blockmap.is_empty());
    assert!(blockmap[5].e_blocked);
    assert!(blockmap[6].w_blocked);
}

#[test]
fn test_tile_coordinates_validation() {
    let mut world = BlockMap::new();
    // This should not panic or cause issues
    set_tile(&mut world, 1000, 1000, 1);

    // Normal coordinates should work
    set_tile(&mut world, 0, 0, 1);
    set_tile(&mut world, TILES_PER_ROW as u32 - 1, TILES_PER_ROW as u32 - 1, 2);
    assert_eq!(get_tiles(&world)[0], 1);
    assert_eq!(get_tiles(&world)[TILES_TOTAL - 1], 2);
}

#[test]
fn test_get_functions_return_valid_pointers() {
    let world = BlockMap::new();
    let tiles = get_tiles(&world);
    let cells = get_blockmap(&world);

    assert!(!tiles.is_empty());
    assert!(!cells.is_empty());
    assert_eq!(tiles.len(), TILES_TOTAL);
    assert_eq!(cells.len(), CELLS_TOTAL);
}

#[test]
fn test_tile_operations() {
    let mut world = BlockMap::new();
    // Test tile setting with valid coordinates
    set_tile(&mut world, 0, 0, 1);
    set_tile(&mut world, TILES_PER_ROW as u32 - 1, TILES_PER_ROW as u32 - 1, 2);

    // Test tile setting with invalid coordinates (should not panic)
    set_tile(&mut world, 1000, 1000, 1);
    let tiles = get_tiles(&world);
    assert_eq!(tiles.iter().filter(|&&t| t != 0).count(), 2);
}

#[test]
fn test_data_access() {
    let world = BlockMap::new();

    // Test that data accessor functions return the data of the world
    let tiles = get_tiles(&world);
    let cells = get_blockmap(&world);

    assert_eq!(tiles.len(), TILES_TOTAL);
    assert_eq!(cells.len(), CELLS_TOTAL);
}

#[test]
fn a_new_world_has_no_blocked_edge() {
    let world = BlockMap::new();
    assert!(get_tiles(&world).iter().all(|&t| t == 0));
    assert!(get_blockmap(&world).iter().all(|c| edges(c) == (false, false, false, false)));
    assert_eq!(get_tiles_vec_i32(&world), vec![0i32; TILES_TOTAL]);
    let fresh = CellDetails::default();
    assert_eq!(edges(&fresh), (false, false, false, false));
}

#[test]
fn edges_are_blocked_where_tile_types_differ() {
    let mut world = BlockMap::new();
    set_tile(&mut world, 2, 3, 7);
    let cells = get_blockmap(&world);
    // Tile (2, 3) covers the cells 12..=17 by 18..=23.
    for y in 18..24usize {
        for x in 12..18usize {
            let cell = &cells[y * CELLS_PER_ROW + x];
            assert_eq!(edges(cell), (y == 18, x == 17, y == 23, x == 12));
        }
    }
    // The neighbours see the other side of the same boundary.
    assert_eq!(edges(&cells[18 * CELLS_PER_ROW + 11]), (false, true, false, false));
    assert_eq!(edges(&cells[18 * CELLS_PER_ROW + 18]), (false, false, false, true));
    assert_eq!(edges(&cells[17 * CELLS_PER_ROW + 12]), (false, false, true, false));
    assert_eq!(edges(&cells[24 * CELLS_PER_ROW + 12]), (true, false, false, false));
    // Away from the tile nothing is blocked.
    assert_eq!(edges(&cells[0]), (false, false, false, false));
    assert_eq!(edges(&cells[16 * CELLS_PER_ROW + 12]), (false, false, false, false));
    let blocked = cells.iter().filter(|c| c.n_blocked || c.e_blocked || c.s_blocked || c.w_blocked);
    assert_eq!(blocked.count(), 20 + 24);
}

#[test]
fn tiles_beside_the_edge_of_the_world_face_type_zero() {
    let mut world = BlockMap::new();
    set_tile(&mut world, 0, 0, 1);
    let cells = get_blockmap(&world);
    assert_eq!(edges(&cells[0]), (true, false, false, true));
    assert_eq!(edges(&cells[5]), (true, true, false, false));
    assert_eq!(edges(&cells[5 * CELLS_PER_ROW]), (false, false, true, true));
    assert_eq!(edges(&cells[5 * CELLS_PER_ROW + 5]), (false, true, true, false));
    // Equal neighbours do not block.
    set_tile(&mut world, 1, 0, 1);
    let cells = get_blockmap(&world);
    assert_eq!(edges(&cells[5]), (true, false, false, false));
    assert_eq!(edges(&cells[6]), (true, false, false, false));
    // Back to type 0: nothing is blocked any more around tile (0, 0).
    set_tile(&mut world, 0, 0, 0);
    let cells = get_blockmap(&world);
    assert_eq!(edges(&cells[0]), (false, false, false, false));
    assert_eq!(edges(&cells[5]), (false, true, false, false));
}

#[test]
fn coordinates_outside_the_world_are_ignored() {
    let mut world = BlockMap::new();
    set_tile(&mut world, 30, 0, 9);
    set_tile(&mut world, 0, 30, 9);
    set_tile(&mut world, 35, 2, 9);
    set_tile(&mut world, u32::MAX, u32::MAX, 9);
    assert!(get_tiles(&world).iter().all(|&t| t == 0));
    set_tile(&mut world, 29, 29, 9);
    assert_eq!(get_tiles(&world)[899], 9);
    assert_eq!(get_tiles_vec_i32(&world)[899], 9);
    assert_eq!(get_tiles_vec_i32(&world).len(), 900);
}
