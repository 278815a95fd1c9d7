use bresenham_lighting_engine::block_map::BlockMap;
use bresenham_lighting_engine::collision::{
    clear_collisions, decode_pixel_batch, is_blocked, set_pixel, set_pixel_batch,
    update_map_data, CollisionDetector, CollisionMode, CollisionSystem, HybridCollisionMap,
    Occlusion, PixelCollisionMap, TileCollisionMap,
};

#[test]
fn test_pixel_collision_map_basic() {
    let mut map = PixelCollisionMap::new(10, 10);

    // Initially all pixels should be unblocked
    assert!(!map.get_pixel(5, 5));

    // Set a pixel as blocked
    map.set_pixel(5, 5, true);
    assert!(map.get_pixel(5, 5));

    // Clear the pixel
    map.set_pixel(5, 5, false);
    assert!(!map.get_pixel(5, 5));
}

#[test]
fn test_pixel_collision_map_line_blocking() {
    let mut map = PixelCollisionMap::new(10, 10);

    // Place a blocking pixel in the middle of a line
    map.set_pixel(5, 5, true);

    // Line that passes through the blocking pixel should be blocked
    assert!(map.is_blocked(0, 5, 9, 5));

    // Line that doesn't pass through should be clear
    assert!(!map.is_blocked(0, 0, 9, 0));
}

#[test]
fn test_pixel_collision_map_batch_operations() {
    let mut map = PixelCollisionMap::new(10, 10);

    // Set multiple pixels in batch
    let pixels = vec![(1, 1, true), (2, 2, true), (3, 3, true)];
    map.set_pixel_batch(pixels);

    assert!(map.get_pixel(1, 1));
    assert!(map.get_pixel(2, 2));
    assert!(map.get_pixel(3, 3));
    assert!(!map.get_pixel(4, 4));
}

#[test]
fn test_unified_collision_system() {
    let mut system = CollisionSystem::new();
    // Test that the unified system works without mode switching
    clear_collisions(&mut system);
    let _blocked = is_blocked(&system, 0, 0, 10, 10);

    // Test pixel setting
    assert!(set_pixel(&mut system, 5, 5, true));
    assert!(set_pixel(&mut system, 5, 5, false));
}

#[test]
fn test_collision_system_basic() {
    let mut system = CollisionSystem::new();
    // Test that the system doesn't panic with basic usage
    clear_collisions(&mut system);
    let _blocked = is_blocked(&system, 0, 0, 10, 10);
}

#[test]
fn pixels_outside_the_map_are_ignored() {
    let mut map = PixelCollisionMap::new(10, 7);
    map.set_pixel(10, 0, true);
    map.set_pixel(0, 7, true);
    map.set_pixel(u16::MAX, u16::MAX, true);
    for y in 0..8 {
        for x in 0..11 {
            assert!(!map.get_pixel(x, y));
        }
    }
    assert!(!map.get_pixel(u16::MAX, 0));
    map.set_pixel(9, 6, true);
    assert!(map.get_pixel(9, 6));
    assert!(!map.get_pixel(8, 6));
    assert!(!map.get_pixel(9, 5));
}

#[test]
fn every_pixel_has_its_own_bit() {
    let mut map = PixelCollisionMap::new(13, 11);
    for y in 0..11u16 {
        for x in 0..13u16 {
            map.set_pixel(x, y, (x + 2 * y) % 3 == 0);
        }
    }
    for y in 0..11u16 {
        for x in 0..13u16 {
            assert_eq!(map.get_pixel(x, y), (x + 2 * y) % 3 == 0);
        }
    }
    map.set_pixel(3, 0, false);
    assert!(!map.get_pixel(3, 0));
    assert!(map.get_pixel(0, 0));
    assert!(map.get_pixel(6, 0));
    map.clear();
    for y in 0..11u16 {
        for x in 0..13u16 {
            assert!(!map.get_pixel(x, y));
        }
    }
}

#[test]
fn a_batch_is_applied_in_order() {
    let mut map = PixelCollisionMap::new(4, 4);
    map.set_pixel_batch(vec![
        (1, 1, true),
        (1, 1, false),
        (2, 2, false),
        (2, 2, true),
        (9, 9, true),
    ]);
    assert!(!map.get_pixel(1, 1));
    assert!(map.get_pixel(2, 2));
    map.set_pixel_batch(Vec::new());
    assert!(map.get_pixel(2, 2));
}

#[test]
fn the_pixel_walk_follows_the_bresenham_line() {
    let mut map = PixelCollisionMap::new(10, 10);
    // The line from (0, 0) to (6, 3) visits (2, 1) and (4, 2), not (2, 0).
    map.set_pixel(2, 0, true);
    assert!(!map.is_blocked(0, 0, 6, 3));
    map.set_pixel(4, 2, true);
    assert!(map.is_blocked(0, 0, 6, 3));
    assert!(map.is_blocked(6, 3, 0, 0));
    // A segment that ends before the pixel is clear; one that ends on it is not.
    assert!(!map.is_blocked(0, 0, 2, 1));
    assert!(map.is_blocked(4, 2, 4, 2));
    assert!(!map.is_blocked(5, 5, 5, 5));
    // Points outside the map are clear.
    assert!(!map.is_blocked(-5, -5, -1, -1));
    assert!(map.is_blocked(-4, 2, 9, 2));
}

#[test]
fn the_pixel_walk_ends_after_its_limit() {
    let mut map = PixelCollisionMap::new(2000, 1);
    map.set_pixel(1001, 0, true);
    assert!(!map.is_blocked(0, 0, 1999, 0));
    assert!(map.is_blocked(1, 0, 1999, 0));
    map.set_pixel(1001, 0, false);
    map.set_pixel(1000, 0, true);
    assert!(map.is_blocked(0, 0, 1999, 0));
    assert!(!map.is_blocked(i16::MIN, 0, i16::MAX, 0));
}

#[test]
fn the_tile_map_blocks_at_tile_boundaries() {
    let mut map = TileCollisionMap::new();
    assert!(!map.is_blocked(0, 0, 179, 179));
    map.set_tile(2, 0, 1);
    // Cells 12..=17 of the first rows are the tile; its rim and the cells around it block.
    assert!(map.is_blocked(0, 3, 20, 3));
    assert!(map.is_blocked(11, 3, 11, 3));
    assert!(map.is_blocked(12, 3, 12, 3));
    assert!(!map.is_blocked(13, 3, 16, 3));
    assert!(!map.is_blocked(0, 3, 10, 3));
    // A walk that leaves the world before it meets an edge is clear.
    assert!(!map.is_blocked(5, 3, -20, 3));
    assert!(!map.is_blocked(-1, 3, 20, 3));
    assert!(!map.is_blocked(0, 100, 500, 100));
    map.clear();
    assert!(map.is_blocked(0, 3, 20, 3));
    let world = BlockMap::new();
    let other = TileCollisionMap::from_world(world);
    assert!(!other.is_blocked(0, 3, 20, 3));
}

#[test]
fn the_hybrid_map_blocks_between_rooms_and_on_pixels() {
    let map_data = vec![
        1, 1, 0, 2,
        1, 1, 0, 2,
        1, 1, 0, 2,
        1, 1, 2, 2,
    ];
    let mut map = HybridCollisionMap::new(map_data, 4);
    // Inside one room
    assert!(!map.is_blocked(0, 0, 1, 3));
    assert!(!map.is_blocked(3, 0, 3, 3));
    assert!(!map.is_blocked(3, 3, 2, 3));
    // The walk from (3, 0) to (2, 3) passes the wall at (2, 2)
    assert!(map.is_blocked(3, 0, 2, 3));
    // From one room into a wall or into another room
    assert!(map.is_blocked(0, 0, 2, 0));
    assert!(map.is_blocked(0, 0, 3, 0));
    assert!(map.is_blocked(1, 3, 2, 3));
    // A pixel inside a room blocks as well
    map.pixel_map_mut().set_pixel(0, 2, true);
    assert!(map.is_blocked(0, 0, 0, 3));
    assert!(!map.is_blocked(1, 0, 1, 3));
    // Outside the room grid only pixels count
    assert!(!map.is_blocked(-3, -3, -1, -1));
    assert!(!map.is_blocked(1, 1, 1, 9));
    // New rooms, same pixels
    map.update_map_data(vec![1; 16], 4);
    assert!(!map.is_blocked(1, 0, 3, 0));
    assert!(map.is_blocked(0, 0, 0, 3));
    // After clear all cells have the value 0, so that they form one class, and no pixel is set
    map.clear();
    assert!(!map.is_blocked(1, 0, 3, 0));
    assert!(!map.is_blocked(0, 0, 0, 3));
    assert!(!map.is_blocked(2, 2, 2, 2));
    assert!(!map.pixel_map_mut().get_pixel(0, 2));
}

#[test]
fn the_system_starts_open_and_takes_new_rooms() {
    let mut system = CollisionSystem::new();
    assert!(!is_blocked(&system, 0, 0, 179, 179));
    assert!(!is_blocked(&system, 10, 10, 10, 10));
    assert!(set_pixel(&mut system, 50, 50, true));
    assert!(is_blocked(&system, 40, 50, 60, 50));
    assert!(!is_blocked(&system, 40, 51, 60, 51));
    assert!(set_pixel_batch(&mut system, vec![(50, 50, false), (50, 51, true)]));
    assert!(!is_blocked(&system, 40, 50, 60, 50));
    assert!(is_blocked(&system, 40, 51, 60, 51));

    let mut rooms = vec![1; 9];
    rooms[1] = 0;
    rooms[4] = 0;
    rooms[7] = 0;
    update_map_data(&mut system, rooms, 3);
    assert!(is_blocked(&system, 0, 0, 2, 0));
    assert!(!is_blocked(&system, 0, 0, 0, 2));
    assert!(system.detector().is_blocked(0, 1, 2, 1));
    system.update_map_data(vec![5; 4], 2);
    assert!(!system.detector().is_blocked(0, 0, 1, 1));
    system.detector_mut().pixel_map_mut().set_pixel(1, 1, true);
    assert!(is_blocked(&system, 0, 0, 1, 1));

    clear_collisions(&mut system);
    assert!(!is_blocked(&system, 40, 51, 60, 51));
    // All cells of the default grid have the value 0 now and form one class.
    assert!(!is_blocked(&system, 0, 0, 1, 0));
    assert!(!is_blocked(&system, 0, 0, 179, 179));
    assert!(!is_blocked(&system, 7, 7, 7, 7));
}

#[test]
fn batch_payloads_are_decoded_record_by_record() {
    let bytes = [10u8, 0, 20, 0, 1, 11, 0, 21, 0, 1, 12, 0, 22, 0, 0, 0x34, 0x12, 0xff, 0xff, 7];
    let pixels = decode_pixel_batch(&bytes).unwrap();
    assert_eq!(
        pixels,
        vec![(10, 20, true), (11, 21, true), (12, 22, false), (0x1234, 0xffff, true)]
    );
    assert_eq!(decode_pixel_batch(&[]), Some(Vec::new()));
}

#[test]
fn malformed_batch_payloads_are_rejected() {
    assert_eq!(decode_pixel_batch(&[1u8]), None);
    assert_eq!(decode_pixel_batch(&[1u8, 0, 2, 0]), None);
    assert_eq!(decode_pixel_batch(&[1u8, 0, 2, 0, 1, 9]), None);
}

#[test]
fn every_kind_of_tier_answers_through_one_type() {
    let mut pixels = PixelCollisionMap::new(10, 10);
    pixels.set_pixel(5, 5, true);
    let mut tiles = TileCollisionMap::new();
    tiles.set_tile(0, 0, 3);
    let hybrid = HybridCollisionMap::new(vec![1, 0, 1, 1, 0, 1, 1, 1, 1], 3);
    let mut tiers =
        vec![Occlusion::Pixel(pixels), Occlusion::Tile(tiles), Occlusion::Hybrid(hybrid)];

    assert!(tiers[0].is_blocked(0, 5, 9, 5));
    assert!(!tiers[0].is_blocked(0, 0, 9, 0));
    assert!(tiers[1].is_blocked(0, 0, 9, 0));
    assert!(!tiers[1].is_blocked(1, 1, 4, 4));
    assert!(tiers[2].is_blocked(0, 0, 2, 0));
    assert!(!tiers[2].is_blocked(0, 0, 0, 2));

    for tier in tiers.iter_mut() {
        tier.clear();
    }
    assert!(matches!(tiers[0], Occlusion::Pixel(_)));
    assert!(matches!(tiers[1], Occlusion::Tile(_)));
    assert!(matches!(tiers[2], Occlusion::Hybrid(_)));
    // The pixels are gone, the tiles stay, and the rooms have become one class of walls.
    assert!(!tiers[0].is_blocked(0, 5, 9, 5));
    assert!(tiers[1].is_blocked(0, 0, 9, 0));
    assert!(!tiers[2].is_blocked(0, 0, 2, 0));
}

#[test]
fn collision_modes_have_numbers() {
    assert_eq!(CollisionMode::from_code(0), CollisionMode::Tile);
    assert_eq!(CollisionMode::from_code(1), CollisionMode::Pixel);
    assert_eq!(CollisionMode::from_code(2), CollisionMode::Auto);
    assert_eq!(CollisionMode::from_code(3), CollisionMode::Tile);
    assert_eq!(CollisionMode::from_code(255), CollisionMode::Tile);
    for code in 0..3u8 {
        assert_eq!(CollisionMode::from_code(code).code(), code);
    }
}
