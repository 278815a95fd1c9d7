use bresenham_lighting_engine::arctan::{atan2_int, distance, rad_to_deg, ATAN_TABLE};

#[test]
fn test_atan2_int_basic_directions() {
    // Test cardinal directions
    assert_eq!(rad_to_deg(atan2_int(0, 1)), 0); // East: 0 degrees
    assert_eq!(rad_to_deg(atan2_int(1, 0)), 90); // North: 90 degrees
    assert_eq!(rad_to_deg(atan2_int(0, -1)), 180); // West: 180 degrees
    assert_eq!(rad_to_deg(atan2_int(-1, 0)), 270); // South: 270 degrees
}

#[test]
fn test_atan2_int_diagonal_directions() {
    // Test diagonal directions (45 degree increments)
    let ne = rad_to_deg(atan2_int(1, 1));
    let nw = rad_to_deg(atan2_int(1, -1));
    let sw = rad_to_deg(atan2_int(-1, -1));
    let se = rad_to_deg(atan2_int(-1, 1));

    assert!((ne - 45).abs() <= 2); // Allow small error
    assert!((nw - 135).abs() <= 2);
    assert!((sw - 225).abs() <= 2);
    assert!((se - 315).abs() <= 2);
}

#[test]
fn test_atan2_int_origin() {
    // Origin should return 0
    assert_eq!(atan2_int(0, 0), 0);
}

#[test]
fn test_distance_approximation() {
    // Test known distances
    assert_eq!(distance((0, 0)), 0);
    assert_eq!(distance((3, 4)), 5); // Classic 3-4-5 triangle
    assert_eq!(distance((5, 12)), 13); // 5-12-13 triangle

    // Test symmetry
    assert_eq!(distance((3, 4)), distance((-3, 4)));
    assert_eq!(distance((3, 4)), distance((3, -4)));
    assert_eq!(distance((3, 4)), distance((-3, -4)));
}

#[test]
fn test_rad_to_deg_conversion() {
    // Test common angles
    assert_eq!(rad_to_deg(0), 0);
    assert_eq!(rad_to_deg(157), 90);
    assert_eq!(rad_to_deg(314), 180);

    // Test negative angles
    assert_eq!(rad_to_deg(-157), 270);
}

#[test]
fn atan2_int_exact_values() {
    assert_eq!(atan2_int(0, 1), 0);
    assert_eq!(atan2_int(1, 0), 157);
    assert_eq!(atan2_int(-1, 0), -157);
    assert_eq!(atan2_int(1, 1), 79);
    assert_eq!(atan2_int(1, -1), 235);
    assert_eq!(atan2_int(-1, -1), -235);
    assert_eq!(atan2_int(-1, 1), -79);
    // slope 1/2: index 128 of the table
    assert_eq!(atan2_int(1, 2), ATAN_TABLE[128]);
    assert_eq!(atan2_int(1, 2), 47);
    // slope 2: the complement of slope 1/2
    assert_eq!(atan2_int(2, 1), 157 - 47);
}

#[test]
fn atan2_int_stays_in_half_open_range() {
    // The direction of the negative x axis is +314, never -314.
    assert_eq!(atan2_int(0, -1), 314);
    assert_eq!(atan2_int(-1, -1000), 314);
    assert_eq!(atan2_int(1, -1000), 314);
    for y in -70..=70 {
        for x in -70..=70 {
            let angle = atan2_int(y, x);
            assert!(-314 < angle && angle <= 314);
        }
    }
}

#[test]
fn atan2_int_takes_extreme_arguments() {
    assert_eq!(atan2_int(i32::MIN, i32::MIN), -235);
    assert_eq!(atan2_int(i32::MAX, i32::MIN), 235);
    assert_eq!(atan2_int(i32::MIN, 0), -157);
    assert_eq!(atan2_int(0, i32::MIN), 314);
    assert_eq!(atan2_int(i32::MAX, i32::MAX), 79);
}

#[test]
fn rad_to_deg_wraps_into_one_turn() {
    assert_eq!(rad_to_deg(-314), 180);
    assert_eq!(rad_to_deg(628), 0);
    assert_eq!(rad_to_deg(-1), 0);
    assert_eq!(rad_to_deg(-2), 359);
    assert_eq!(rad_to_deg(1), 0);
    assert_eq!(rad_to_deg(2), 1);
    assert_eq!(rad_to_deg(79), 45);
    for angle in [i32::MIN, i32::MAX, -100_000, 100_000] {
        let degrees = rad_to_deg(angle);
        assert!(0 <= degrees && degrees < 360);
    }
    // 2147483647 * 180 / 314 = 1231041581, which is 341 modulo 360
    assert_eq!(rad_to_deg(i32::MAX), 341);
}

#[test]
fn distance_follows_the_weighted_sum() {
    // (246 * max + 102 * min) / 256
    assert_eq!(distance((60, 60)), 81);
    assert_eq!(distance((1, 0)), 0);
    assert_eq!(distance((0, 1)), 0);
    assert_eq!(distance((2, 0)), 1);
    assert_eq!(distance((1, 1)), 1);
    assert_eq!(distance((100, 0)), 96);
    assert_eq!(distance((300, 400)), 503);
    assert_eq!(distance((i16::MAX, i16::MAX)), 44542);
    assert_eq!(distance((i16::MIN, i16::MIN)), 44544);
    assert_eq!(distance((i16::MIN, 0)), 31488);
}

#[test]
fn distance_ignores_signs_and_order() {
    for x in -20i16..=20 {
        for y in -20i16..=20 {
            let d = distance((x, y));
            assert_eq!(d, distance((-x, y)));
            assert_eq!(d, distance((x, -y)));
            assert_eq!(d, distance((-x, -y)));
            assert_eq!(d, distance((y, x)));
        }
    }
    assert_eq!(distance((3, 4)), distance((4, 3)));
}
