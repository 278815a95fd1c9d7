use bresenham_lighting_engine::ray::step;

#[test]
fn test_step_same_point() {
    let point = (5, 3);
    assert_eq!(step(point, point), point);
}

#[test]
fn test_step_horizontal_line() {
    let start = (0, 0);
    let end = (10, 0);
    let next = step(start, end);
    assert_eq!(next, (1, 0));
}

#[test]
fn test_step_vertical_line() {
    let start = (0, 0);
    let end = (0, 10);
    let next = step(start, end);
    assert_eq!(next, (0, 1));
}

#[test]
fn test_step_diagonal_line() {
    let start = (0, 0);
    let end = (5, 5);
    let next = step(start, end);
    assert_eq!(next, (1, 1));
}

#[test]
fn test_step_negative_direction() {
    let start = (5, 5);
    let end = (0, 0);
    let next = step(start, end);
    assert_eq!(next, (4, 4));
}

#[test]
fn step_moves_along_one_axis_on_shallow_and_steep_lines() {
    assert_eq!(step((0, 0), (5, 3)), (1, 1));
    assert_eq!(step((0, 0), (5, 2)), (1, 0));
    assert_eq!(step((0, 0), (2, 5)), (0, 1));
    assert_eq!(step((0, 0), (-5, 2)), (-1, 0));
    assert_eq!(step((0, 0), (-2, -5)), (0, -1));
    assert_eq!(step((0, 0), (4, 2)), (1, 1));
    assert_eq!(step((3, 7), (3, 6)), (3, 6));
}

#[test]
fn step_reaches_the_destination() {
    let goal = (-7, 12);
    let mut at = (9, -4);
    let mut steps = 0;
    while at != goal {
        let next = step(at, goal);
        assert!((next.0 - at.0).abs() <= 1 && (next.1 - at.1).abs() <= 1);
        assert_ne!(next, at);
        at = next;
        steps += 1;
        assert!(steps <= 32);
    }
    assert_eq!(steps, 16);
}

#[test]
fn step_takes_extreme_coordinates() {
    assert_eq!(step((i32::MIN, 0), (i32::MAX, 0)), (i32::MIN + 1, 0));
    assert_eq!(step((i32::MAX, i32::MAX), (i32::MIN, i32::MIN)), (i32::MAX - 1, i32::MAX - 1));
    assert_eq!(step((0, i32::MIN), (1, i32::MAX)), (0, i32::MIN + 1));
}
