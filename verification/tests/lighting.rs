use bresenham_lighting_engine::block_map::{get_blockmap, get_tiles, BlockMap};
use bresenham_lighting_engine::collision::{
    CollisionSystem, Occlusion, PixelCollisionMap, TileCollisionMap,
};
use bresenham_lighting_engine::lighting::{
    clamp_radius, hsv2rgb, update_light_with_color_mode, update_or_add_light,
    update_or_add_light_with_custom_color, update_or_add_light_with_solid_color, Color, ColorMode,
    Light, LightMap, RayTable, ANGLES, MAX_DIST, UNBLOCKED,
};

fn rgba(c: &Color) -> (u8, u8, u8, u8) {
    (c.0, c.1, c.2, c.3)
}

fn lit_pixels(canvas: &[Color]) -> usize {
    canvas.iter().filter(|c| rgba(c) != (0, 0, 0, 0)).count()
}

#[test]
fn a_light_without_obstacles_renders_its_centre() {
    let rays = RayTable::new();
    let detector = PixelCollisionMap::new(20, 20);
    let mut lights = LightMap::new();
    let canvas = update_or_add_light(&mut lights, &rays, &detector, 1, 3, 4, 4);
    assert_eq!(canvas.len(), 49);
    assert_eq!(rgba(&canvas[24]), (255, 0, 0, 255));
    assert_eq!(lit_pixels(canvas), 29);
    let light = lights.get(1).unwrap();
    assert_eq!(light.canvas_size(), 7);
    assert_eq!(light.radius(), 3);
    assert_eq!(light.position(), (4, 4));
    assert_eq!(light.blocked_angles().len(), ANGLES);
    assert!(light.blocked_angles().iter().all(|&d| d == UNBLOCKED));
    assert!(lights.get(2).is_none());
}

#[test]
fn brightness_falls_off_with_the_ring() {
    let rays = RayTable::new();
    let detector = PixelCollisionMap::new(20, 20);
    let mut lights = LightMap::new();
    let canvas = update_or_add_light(&mut lights, &rays, &detector, 1, 3, 4, 4);
    // East of the light: rings 0, 1 and 2 have the values 255, 170 and 85.
    assert_eq!(rgba(&canvas[25]), (255, 0, 0, 255));
    assert_eq!(rgba(&canvas[26]), (170, 0, 0, 255));
    assert_eq!(rgba(&canvas[27]), (85, 0, 0, 255));
    // The hue follows the angle.
    assert_eq!(rgba(&canvas[3 + 2 * 7]), (114, 0, 255, 255));
    assert_eq!(rgba(&canvas[2 + 3 * 7]), (0, 255, 246, 255));
    assert_eq!(rgba(&canvas[3 + 4 * 7]), (135, 255, 0, 255));
    // The corners lie beyond the radius.
    assert_eq!(rgba(&canvas[0]), (0, 0, 0, 0));
    assert_eq!(rgba(&canvas[48]), (0, 0, 0, 0));
}

#[test]
fn an_obstacle_casts_a_shadow() {
    let rays = RayTable::new();
    let mut detector = PixelCollisionMap::new(20, 20);
    detector.set_pixel(6, 4, true);
    let mut lights = LightMap::new();
    let canvas = update_or_add_light(&mut lights, &rays, &detector, 1, 3, 4, 4);
    assert_eq!(rgba(&canvas[24]), (255, 0, 0, 255));
    assert_eq!(rgba(&canvas[25]), (255, 0, 0, 255));
    assert_eq!(rgba(&canvas[26]), (0, 0, 0, 0));
    assert_eq!(rgba(&canvas[27]), (0, 0, 0, 0));
    assert_eq!(lit_pixels(canvas), 27);
    let blocked = lights.get(1).unwrap().blocked_angles();
    // The bucket of the obstacle is blocked on ring 1, and so are its two neighbours.
    assert_eq!(blocked[0], 1);
    assert_eq!(blocked[1], 1);
    assert_eq!(blocked[359], 1);
    assert_eq!(blocked.iter().filter(|&&d| d != UNBLOCKED).count(), 3);
}

#[test]
fn color_modes_choose_hue_and_saturation() {
    let rays = RayTable::new();
    let detector = PixelCollisionMap::new(20, 20);
    let mut lights = LightMap::new();
    let canvas =
        update_or_add_light_with_solid_color(&mut lights, &rays, &detector, 1, 3, 4, 4, 85);
    assert_eq!(rgba(&canvas[24]), (3, 255, 0, 255));
    assert_eq!(rgba(&canvas[26]), (2, 170, 0, 255));
    assert_eq!(rgba(&canvas[27]), (1, 85, 0, 255));
    let canvas =
        update_or_add_light_with_custom_color(&mut lights, &rays, &detector, 2, 3, 4, 4, 170, 128);
    assert_eq!(rgba(&canvas[24]), (127, 132, 255, 255));
    assert_eq!(rgba(&canvas[26]), (84, 88, 170, 255));
    assert_eq!(rgba(&canvas[27]), (42, 44, 85, 255));
    let canvas = update_light_with_color_mode(
        &mut lights,
        &rays,
        &detector,
        3,
        3,
        4,
        4,
        Some(ColorMode::Solid(85)),
    );
    assert_eq!(rgba(&canvas[24]), (3, 255, 0, 255));
}

#[test]
fn the_canvas_follows_the_radius() {
    let rays = RayTable::new();
    let detector = PixelCollisionMap::new(20, 20);
    let mut lights = LightMap::new();
    let first = update_or_add_light(&mut lights, &rays, &detector, 1, 3, 4, 4).len();
    let second = update_or_add_light(&mut lights, &rays, &detector, 1, 3, 4, 4).len();
    assert_eq!(first, 49);
    assert_eq!(second, 49);
    let moved = update_or_add_light(&mut lights, &rays, &detector, 1, 3, 9, 2).len();
    assert_eq!(moved, 49);
    let grown = update_or_add_light(&mut lights, &rays, &detector, 1, 5, 4, 4).len();
    assert_eq!(grown, 121);
    assert_eq!(lights.get(1).unwrap().canvas_size(), 11);
    let shrunk = update_or_add_light(&mut lights, &rays, &detector, 1, 1, 4, 4).len();
    assert_eq!(shrunk, 9);
}

#[test]
fn the_radius_is_clamped() {
    assert_eq!(clamp_radius(0), 1);
    assert_eq!(clamp_radius(-5), 1);
    assert_eq!(clamp_radius(i16::MIN), 1);
    assert_eq!(clamp_radius(1), 1);
    assert_eq!(clamp_radius(60), 60);
    assert_eq!(clamp_radius(61), 60);
    assert_eq!(clamp_radius(i16::MAX), 60);
    let rays = RayTable::new();
    let detector = PixelCollisionMap::new(20, 20);
    let mut lights = LightMap::new();
    assert_eq!(update_or_add_light(&mut lights, &rays, &detector, 1, 0, 4, 4).len(), 9);
    assert_eq!(update_or_add_light(&mut lights, &rays, &detector, 2, -7, 4, 4).len(), 9);
    assert_eq!(update_or_add_light(&mut lights, &rays, &detector, 3, 1000, 4, 4).len(), 121 * 121);
    assert_eq!(lights.get(3).unwrap().radius(), MAX_DIST as i16);
    assert_eq!(lit_pixels(lights.get(3).unwrap().canvas()), 10985);
}

#[test]
fn rendering_does_not_depend_on_what_was_there() {
    let rays = RayTable::new();
    let mut detector = PixelCollisionMap::new(20, 20);
    detector.set_pixel(6, 4, true);
    let mut lights = LightMap::new();
    update_or_add_light(&mut lights, &rays, &detector, 1, 3, 4, 4);
    detector.set_pixel(6, 4, false);
    let again: Vec<(u8, u8, u8, u8)> =
        update_or_add_light(&mut lights, &rays, &detector, 1, 3, 4, 4).iter().map(rgba).collect();
    let mut others = LightMap::new();
    let fresh: Vec<(u8, u8, u8, u8)> =
        update_or_add_light(&mut others, &rays, &detector, 9, 3, 4, 4).iter().map(rgba).collect();
    assert_eq!(again, fresh);
    assert!(lights.get(1).unwrap().blocked_angles().iter().all(|&d| d == UNBLOCKED));
    // Updating one light leaves the others alone.
    update_or_add_light(&mut lights, &rays, &detector, 2, 2, 10, 10);
    let kept: Vec<(u8, u8, u8, u8)> = lights.get(1).unwrap().canvas().iter().map(rgba).collect();
    assert_eq!(kept, fresh);
}

#[test]
fn a_light_can_be_rendered_against_the_collision_system() {
    let rays = RayTable::new();
    let mut system = CollisionSystem::new();
    let mut light = Light::new((4, 4), 3, None);
    assert_eq!(light.canvas().len(), 49);
    assert_eq!(lit_pixels(light.canvas()), 0);
    light.update(&rays, system.detector());
    assert_eq!(lit_pixels(light.canvas()), 29);
    system.detector_mut().pixel_map_mut().set_pixel(6, 4, true);
    light.update(&rays, system.detector());
    assert_eq!(lit_pixels(light.canvas()), 27);
    // A light at the rim of the room grid: rays that leave the grid are clear.
    let mut corner = Light::new((0, 0), 2, Some(ColorMode::Custom { hue: 0, saturation: 0 }));
    corner.update(&rays, system.detector());
    assert_eq!(lit_pixels(corner.canvas()), 13);
    assert_eq!(rgba(&corner.canvas()[12]), (255, 255, 255, 255));
}

#[test]
fn pixels_are_lit_one_by_one() {
    let mut light = Light::new((0, 0), 4, None);
    light.render_light_pixel((0, 0), 0, 0);
    assert_eq!(rgba(&light.canvas()[40]), (255, 0, 0, 255));
    light.render_light_pixel((-4, -4), 90, 2);
    // ring 2 of radius 4: value 255 - 510 / 4 = 128; hue 90 * 255 / 359 = 63
    assert_eq!(rgba(&light.canvas()[0]), rgba(&hsv2rgb(63, 255, 128)));
    light.render_light_pixel((5, 0), 0, 0);
    light.render_light_pixel((0, -5), 0, 0);
    assert_eq!(lit_pixels(light.canvas()), 2);
}

#[test]
fn hsv_is_converted_sector_by_sector() {
    assert_eq!(rgba(&hsv2rgb(0, 0, 100)), (100, 100, 100, 255));
    assert_eq!(rgba(&hsv2rgb(0, 255, 255)), (255, 0, 0, 255));
    assert_eq!(rgba(&hsv2rgb(43, 255, 255)), (255, 255, 0, 255));
    assert_eq!(rgba(&hsv2rgb(85, 255, 255)), (3, 255, 0, 255));
    assert_eq!(rgba(&hsv2rgb(128, 255, 10)), (0, 10, 9, 255));
    assert_eq!(rgba(&hsv2rgb(170, 128, 200)), (99, 103, 200, 255));
    assert_eq!(rgba(&hsv2rgb(255, 255, 255)), (255, 0, 15, 255));
    assert_eq!(rgba(&Color::default()), (0, 0, 0, 0));
}

#[test]
fn the_ray_table_files_every_offset_once() {
    let rays = RayTable::new();
    let mut total = 0;
    for d in 0..MAX_DIST {
        for angle in 0..ANGLES {
            total += rays.cells(d, angle).len();
        }
    }
    assert_eq!(total, 10985);
    assert_eq!(rays.cells(0, 0), &vec![(0i16, 0i16), (1, 0)]);
    assert_eq!(rays.cells(0, 90), &vec![(0i16, 1i16)]);
    assert_eq!(rays.cells(0, 180), &vec![(-1i16, 0i16)]);
    assert_eq!(rays.cells(0, 270), &vec![(0i16, -1i16)]);
    assert_eq!(rays.cells(1, 0), &vec![(2i16, 0i16)]);
    assert_eq!(rays.cells(2, 0), &vec![(3i16, 0i16)]);
    assert!(rays.cells(0, 45).is_empty());
}

#[test]
fn test_engine_initialization() {
    // Test that initialization doesn't panic
    let rays = RayTable::new();
    let world = BlockMap::new();
    let system = CollisionSystem::new();
    let lights = LightMap::new();
    assert!(!rays.cells(0, 0).is_empty());
    assert_eq!(get_tiles(&world).len(), 900);
    assert_eq!(get_blockmap(&world).len(), 32400);
    assert!(lights.get(0).is_none());
    let mut light = Light::new((90, 90), 1, None);
    light.update(&rays, system.detector());
    assert_eq!(lit_pixels(light.canvas()), 5);
}

#[test]
fn test_light_operations() {
    let rays = RayTable::new();
    let system = CollisionSystem::new();
    let mut lights = LightMap::new();
    let canvas = update_or_add_light(&mut lights, &rays, system.detector(), 1, 30, 100, 50);
    assert_eq!(canvas.len(), 61 * 61);
    assert_eq!(rgba(&canvas[30 + 30 * 61]), (255, 0, 0, 255));
}

#[test]
fn a_light_takes_any_kind_of_tier() {
    let rays = RayTable::new();
    let mut lights = LightMap::new();
    let mut pixels = PixelCollisionMap::new(20, 20);
    pixels.set_pixel(6, 4, true);
    let tier = Occlusion::Pixel(pixels);
    assert_eq!(lit_pixels(update_or_add_light(&mut lights, &rays, &tier, 1, 3, 4, 4)), 27);
    let tier = Occlusion::Tile(TileCollisionMap::new());
    assert_eq!(lit_pixels(update_or_add_light(&mut lights, &rays, &tier, 1, 3, 4, 4)), 29);
    let mut tiles = TileCollisionMap::new();
    tiles.set_tile(0, 0, 1);
    // The light stands in a cell at the rim of a tile of another type than its neighbours.
    let tier = Occlusion::Tile(tiles);
    assert_eq!(lit_pixels(update_or_add_light(&mut lights, &rays, &tier, 1, 3, 5, 5)), 0);
    // Two of the thirteen offsets of a light inside the tile lie on its rim.
    assert_eq!(lit_pixels(update_or_add_light(&mut lights, &rays, &tier, 1, 2, 2, 2)), 11);
}
