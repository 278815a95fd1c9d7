use bresenham_lighting_engine::collision::PixelCollisionMap;
use bresenham_lighting_engine::lighting::{update_or_add_light, Color, LightMap, RayTable};

/// The points of the line from `(x0, y0)` to `(x1, y1)`.
fn bresenham_line(x0: i16, y0: i16, x1: i16, y1: i16) -> Vec<(i16, i16)> {
    let mut points = Vec::new();
    let mut x0 = x0;
    let mut y0 = y0;
    let dx = (x1 - x0).abs();
    let dy = (y1 - y0).abs();
    let sx = if x0 < x1 { 1 } else { -1 };
    let sy = if y0 < y1 { 1 } else { -1 };
    let mut err = dx - dy;

    loop {
        points.push((x0, y0));

        if x0 == x1 && y0 == y1 {
            break;
        }

        let e2 = 2 * err;
        if e2 > -dy {
            err -= dy;
            x0 += sx;
        }
        if e2 < dx {
            err += dx;
            y0 += sy;
        }
    }

    points
}

/// A scene of 64 by 64 pixels in which the given walls are drawn.
fn scene(walls: &[(i16, i16, i16, i16)]) -> PixelCollisionMap {
    let mut map = PixelCollisionMap::new(64, 64);
    for &(x0, y0, x1, y1) in walls {
        for (x, y) in bresenham_line(x0, y0, x1, y1) {
            map.set_pixel(x as u16, y as u16, true);
        }
    }
    map
}

fn lit_pixels(canvas: &[Color]) -> usize {
    canvas.iter().filter(|c| (c.0, c.1, c.2, c.3) != (0, 0, 0, 0)).count()
}

#[test]
fn test_single_light_output() {
    let rays = RayTable::new();
    let detector = scene(&[]);
    let mut lights = LightMap::new();

    // Create a simple light
    let canvas = update_or_add_light(&mut lights, &rays, &detector, 1, 3, 0, 0);

    let canvas_size = 3 * 2 + 1; // radius * 2 + 1
    assert_eq!(canvas.len(), canvas_size * canvas_size);
    assert_eq!(lit_pixels(canvas), 29);
}

#[test]
fn test_multiple_lights() {
    let rays = RayTable::new();
    let detector = scene(&[]);
    let mut lights = LightMap::new();

    // Create multiple lights
    let light1 = update_or_add_light(&mut lights, &rays, &detector, 1, 2, 5, 5).len();
    let light2 = update_or_add_light(&mut lights, &rays, &detector, 2, 3, 12, 8).len();
    let light3 = update_or_add_light(&mut lights, &rays, &detector, 3, 2, 8, 12).len();

    assert_eq!(light1, (2 * 2 + 1) * (2 * 2 + 1));
    assert_eq!(light2, (3 * 2 + 1) * (3 * 2 + 1));
    assert_eq!(light3, (2 * 2 + 1) * (2 * 2 + 1));
    assert_eq!(lit_pixels(lights.get(1).unwrap().canvas()), 13);
    assert_eq!(lit_pixels(lights.get(2).unwrap().canvas()), 29);
    assert_eq!(lit_pixels(lights.get(3).unwrap().canvas()), 13);
}

#[test]
fn test_lights_with_obstacles() {
    let rays = RayTable::new();
    let mut lights = LightMap::new();

    // Add some obstacles
    let walled = scene(&[
        (2, 2, 6, 2), // Horizontal wall
        (6, 2, 6, 6), // Vertical wall
        (3, 3, 5, 5), // Diagonal wall
    ]);

    // Create a light that will be affected by obstacles: it stands on the diagonal wall
    let canvas = update_or_add_light(&mut lights, &rays, &walled, 1, 3, 4, 4);
    assert_eq!(canvas.len(), 49);
    assert_eq!(lit_pixels(canvas), 0);

    // Create a comparison without obstacles
    let open = scene(&[]);
    let canvas = update_or_add_light(&mut lights, &rays, &open, 2, 3, 4, 4);
    assert_eq!(canvas.len(), 49);
    assert_eq!(lit_pixels(canvas), 29);
}

#[test]
fn test_different_light_sizes() {
    let rays = RayTable::new();
    let detector = scene(&[]);
    let mut lights = LightMap::new();

    let sizes: Vec<i16> = vec![1, 2, 3, 4];
    let lit = [5, 13, 29, 49];

    for (i, &size) in sizes.iter().enumerate() {
        let canvas = update_or_add_light(&mut lights, &rays, &detector, i as u8, size, 0, 0);

        let canvas_size = (size * 2 + 1) as usize;
        assert_eq!(canvas.len(), canvas_size * canvas_size);
        assert_eq!(lit_pixels(canvas), lit[i]);
    }
}

#[test]
fn test_light_movement_sequence() {
    let rays = RayTable::new();
    let detector = scene(&[]);
    let mut lights = LightMap::new();

    // Create a sequence showing light movement
    let positions = vec![(2, 2), (4, 2), (6, 4), (4, 6), (2, 4)];

    for &(x, y) in positions.iter() {
        let canvas = update_or_add_light(&mut lights, &rays, &detector, 1, 2, x, y);

        let canvas_size = 2 * 2 + 1;
        assert_eq!(canvas.len(), canvas_size * canvas_size);
        assert_eq!(lit_pixels(canvas), 13);
        assert_eq!(lights.get(1).unwrap().position(), (x, y));
    }
}

#[test]
fn test_complex_scene() {
    let rays = RayTable::new();
    let mut lights = LightMap::new();

    // Create a complex scene with multiple lights and obstacles
    let detector = scene(&[
        (8, 4, 12, 4),  // Horizontal wall
        (12, 4, 12, 8), // Vertical wall
        (4, 10, 8, 10), // Another horizontal wall
        (6, 6, 10, 8),  // Diagonal wall
    ]);

    // Add multiple lights
    let main = update_or_add_light(&mut lights, &rays, &detector, 1, 3, 6, 2);
    assert_eq!((main.len(), lit_pixels(main)), (49, 28));
    let side = update_or_add_light(&mut lights, &rays, &detector, 2, 2, 14, 6);
    assert_eq!((side.len(), lit_pixels(side)), (25, 12));
    let bottom = update_or_add_light(&mut lights, &rays, &detector, 3, 2, 10, 12);
    assert_eq!((bottom.len(), lit_pixels(bottom)), (25, 13));
    let corner = update_or_add_light(&mut lights, &rays, &detector, 4, 2, 2, 8);
    assert_eq!((corner.len(), lit_pixels(corner)), (25, 13));
}

#[test]
fn test_edge_cases() {
    let rays = RayTable::new();
    let mut lights = LightMap::new();
    let open = scene(&[]);

    // Test minimum size light
    let min_light = update_or_add_light(&mut lights, &rays, &open, 1, 1, 0, 0);
    assert_eq!((min_light.len(), lit_pixels(min_light)), (9, 5));

    // Test a larger light
    let max_light = update_or_add_light(&mut lights, &rays, &open, 2, 5, 0, 0);
    assert_eq!((max_light.len(), lit_pixels(max_light)), (121, 73));

    // Test light with obstacles very close
    let crossed = scene(&[(1, 0, 1, 2), (0, 1, 2, 1)]);
    let blocked_light = update_or_add_light(&mut lights, &rays, &crossed, 3, 3, 1, 1);
    assert_eq!((blocked_light.len(), lit_pixels(blocked_light)), (49, 0));
}

#[test]
fn test_realistic_large_light_with_walls() {
    let rays = RayTable::new();
    let mut lights = LightMap::new();

    // A medium-sized room with furniture
    let detector = scene(&[
        (5, 5, 25, 5),    // Top wall
        (5, 5, 5, 25),    // Left wall
        (5, 25, 25, 25),  // Bottom wall
        (25, 5, 25, 15),  // Right wall (partial - doorway)
        (10, 10, 18, 10), // Table/counter
        (10, 10, 10, 13), // Table leg
        (18, 10, 18, 13), // Table leg
        (15, 18, 15, 22), // Column/pillar
    ]);

    // Position light at room center for optimal wall interaction
    let main_light_x = 15;
    let main_light_y = 15;

    let main_light =
        update_or_add_light(&mut lights, &rays, &detector, 1, 10, main_light_x, main_light_y);
    assert_eq!((main_light.len(), lit_pixels(main_light)), (441, 197));

    // Add secondary lights at corners for enhanced lighting
    let corner_light1 = update_or_add_light(&mut lights, &rays, &detector, 2, 8, 8, 8);
    assert_eq!((corner_light1.len(), lit_pixels(corner_light1)), (289, 67));
    let corner_light2 = update_or_add_light(&mut lights, &rays, &detector, 3, 6, 22, 8);
    assert_eq!((corner_light2.len(), lit_pixels(corner_light2)), (169, 57));
    let corner_light3 = update_or_add_light(&mut lights, &rays, &detector, 4, 7, 8, 22);
    assert_eq!((corner_light3.len(), lit_pixels(corner_light3)), (225, 77));

    // Also a comparison version without walls
    let open = scene(&[]);
    let light_no_walls =
        update_or_add_light(&mut lights, &rays, &open, 10, 10, main_light_x, main_light_y);
    assert_eq!((light_no_walls.len(), lit_pixels(light_no_walls)), (441, 301));
}

#[test]
fn test_production_scale_lighting() {
    let rays = RayTable::new();
    let mut lights = LightMap::new();

    // An office of 50 by 40
    let walls = [
        (5, 5, 45, 5),    // North wall
        (5, 5, 5, 35),    // West wall
        (45, 5, 45, 35),  // East wall
        (5, 35, 45, 35),  // South wall
        (15, 10, 15, 30), // Support column 1
        (25, 10, 25, 30), // Support column 2
        (35, 10, 35, 30), // Support column 3
        (10, 15, 20, 15), // Desk row 1
        (10, 25, 20, 25), // Desk row 2
        (30, 15, 40, 15), // Desk row 3
        (30, 25, 40, 25), // Desk row 4
        (35, 20, 42, 20), // Meeting room north
        (35, 20, 35, 32), // Meeting room west
        (42, 20, 42, 32), // Meeting room east
    ];
    let detector = scene(&walls);

    let main_x = 25; // Center of office, on the second column
    let main_y = 20;

    let central_light = update_or_add_light(&mut lights, &rays, &detector, 1, 10, main_x, main_y);
    assert_eq!((central_light.len(), lit_pixels(central_light)), (441, 0));

    // Additional accent lighting with substantial radii
    let accent1 = update_or_add_light(&mut lights, &rays, &detector, 2, 8, 12, 12);
    assert_eq!((accent1.len(), lit_pixels(accent1)), (289, 98));
    let accent2 = update_or_add_light(&mut lights, &rays, &detector, 3, 8, 38, 12);
    assert_eq!((accent2.len(), lit_pixels(accent2)), (289, 98));
    let accent3 = update_or_add_light(&mut lights, &rays, &detector, 4, 7, 38, 26);
    assert_eq!((accent3.len(), lit_pixels(accent3)), (225, 43));
    let accent4 = update_or_add_light(&mut lights, &rays, &detector, 5, 6, 10, 28);
    assert_eq!((accent4.len(), lit_pixels(accent4)), (169, 79));

    // A night scene: the same walls and columns without the furniture
    let detector = scene(&walls[..7]);

    let night_main = update_or_add_light(&mut lights, &rays, &detector, 10, 8, main_x, main_y);
    assert_eq!((night_main.len(), lit_pixels(night_main)), (289, 0));
    let night_accent1 = update_or_add_light(&mut lights, &rays, &detector, 11, 5, 38, 26);
    assert_eq!((night_accent1.len(), lit_pixels(night_accent1)), (121, 60));
    let night_accent2 = update_or_add_light(&mut lights, &rays, &detector, 12, 4, 12, 12);
    assert_eq!((night_accent2.len(), lit_pixels(night_accent2)), (81, 43));
}

#[test]
fn test_radius_comparison_realistic_scenarios() {
    let rays = RayTable::new();
    let mut lights = LightMap::new();

    // A medium room where the difference will be obvious
    let walls = [
        (8, 8, 22, 8),    // Top wall
        (8, 8, 8, 22),    // Left wall
        (8, 22, 22, 22),  // Bottom wall
        (22, 8, 22, 22),  // Right wall
        (12, 12, 18, 12), // Table
        (15, 15, 15, 18), // Chair
    ];
    let detector = scene(&walls);

    let center_x = 15;
    let center_y = 15;

    // Test 1: Small radius (3); the light stands on the chair
    let small_light = update_or_add_light(&mut lights, &rays, &detector, 1, 3, center_x, center_y);
    assert_eq!((small_light.len(), lit_pixels(small_light)), (49, 0));

    // Test 2: Large radius (10)
    let large_light = update_or_add_light(&mut lights, &rays, &detector, 2, 10, center_x, center_y);
    assert_eq!((large_light.len(), lit_pixels(large_light)), (441, 0));

    // Test 3: Side-by-side comparison without obstacles to show light coverage
    let open = scene(&[]);
    let small_no_walls = update_or_add_light(&mut lights, &rays, &open, 3, 3, 10, 15);
    assert_eq!((small_no_walls.len(), lit_pixels(small_no_walls)), (49, 29));
    let large_no_walls = update_or_add_light(&mut lights, &rays, &open, 4, 10, 20, 15);
    assert_eq!((large_no_walls.len(), lit_pixels(large_no_walls)), (441, 301));
}

#[test]
fn test_output_summary() {
    let rays = RayTable::new();
    let detector = scene(&[(8, 2, 8, 12)]);
    let mut lights = LightMap::new();
    let canvas = update_or_add_light(&mut lights, &rays, &detector, 1, 5, 4, 6);
    let light = lights.get(1).unwrap();
    println!("\n=== Lighting summary ===");
    println!("canvas: {} x {} pixels", light.canvas_size(), light.canvas_size());
    println!("lit pixels: {}", lit_pixels(light.canvas()));
    println!(
        "blocked angle buckets: {}",
        light.blocked_angles().iter().filter(|&&d| d != 255).count()
    );
    for row in light.canvas().chunks(light.canvas_size()) {
        let line: String = row.iter().map(|c| if c.3 == 0 { '.' } else { '#' }).collect();
        println!("{}", line);
    }
    assert_eq!(light.canvas().len(), 121);
    assert!(lit_pixels(light.canvas()) > 0);
    assert!(lit_pixels(light.canvas()) < 73);
}
