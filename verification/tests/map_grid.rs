use bresenham_lighting_engine::map_grid::{Edge, UnionFind};

#[test]
fn should_correctly_initialize_with_given_map() {
    let test_map = vec![
        1, 1, 2,
        2, 1, 2,
        1, 2, 2,
    ];
    let mut mapgrid = UnionFind::new(test_map, 3);
    assert_eq!(mapgrid.find(0), 0);
}

#[test]
fn should_correctly_find_and_union_tiles() {
    let test_map = vec![
        1, 1, 2,
        2, 1, 2,
        1, 2, 2,
    ];
    let mut mapgrid = UnionFind::new(test_map, 3);
    assert_eq!(mapgrid.find(0), 0);

    mapgrid.union(0, 1);
    assert_eq!(mapgrid.find(1), mapgrid.find(0));
}

#[test]
fn should_handle_changes_in_tile_type() {
    let test_map = vec![
        1, 1, 2,
        2, 1, 2,
        1, 2, 2,
    ];
    let mut mapgrid = UnionFind::new(test_map, 3);
    let old_root = mapgrid.find(2);

    mapgrid.change_tile_type(2, 1);
    let new_root = mapgrid.find(2);

    assert_ne!(new_root, old_root);
}

#[test]
fn should_correctly_identify_room_edges() {
    let test_map = vec![
        8, 1, 0, 2,
        1, 0, 1, 2,
        0, 0, 0, 2,
        3, 3, 3, 3,
    ];
    let mut mapgrid = UnionFind::new(test_map, 4);
    let rooms = mapgrid.rooms();

    let room_root = mapgrid.find(0);
    let room = rooms.get(&room_root).unwrap();
    assert_eq!(room.edge_loops.len(), 1);
    assert_eq!(room.edge_loops[0].len(), 4);
}

#[test]
fn should_correctly_identify_room_edges_advanced() {
    let test_map = vec![
        1, 1, 0, 2,
        1, 0, 1, 2,
        0, 0, 0, 2,
        3, 3, 3, 3,
    ];
    let mut mapgrid = UnionFind::new(test_map, 4);
    let rooms = mapgrid.rooms();

    let room_root = mapgrid.find(0);
    let room = rooms.get(&room_root).unwrap();
    println!("Room points: {:?}", room.points);
    println!("Room edge_loops: {:?}", room.edge_loops);
    assert_eq!(room.points.len(), 3);
    assert_eq!(room.edge_loops.len(), 1);
    assert_eq!(room.edge_loops[0].len(), 6);
}

#[test]
fn all_edgeloops_should_fully_close() {
    let test_map = vec![
        1, 1, 0, 2,
        1, 0, 1, 2,
        0, 0, 0, 2,
        3, 3, 3, 3,
    ];
    let mut mapgrid = UnionFind::new(test_map, 4);
    let rooms = mapgrid.rooms();

    for (_, room) in rooms.iter() {
        for edge_loop in room.edge_loops.iter() {
            for i in 0..edge_loop.len() {
                let edge = &edge_loop[i];
                let next = &edge_loop[(i + 1) % edge_loop.len()];
                assert_eq!(edge.1, next.0);
            }
        }
    }
}

fn closed(edge_loop: &[Edge]) -> bool {
    (0..edge_loop.len()).all(|i| edge_loop[i].1 == edge_loop[(i + 1) % edge_loop.len()].0)
}

fn corners(edge_loop: &[Edge]) -> Vec<((i32, i32), (i32, i32))> {
    edge_loop.iter().map(|e| ((e.0.x, e.0.y), (e.1.x, e.1.y))).collect()
}

#[test]
fn classes_are_the_rooms() {
    let test_map = vec![
        1, 1, 2,
        2, 1, 2,
        1, 2, 2,
    ];
    let mut mapgrid = UnionFind::new(test_map, 3);
    assert_eq!(mapgrid.size(), 3);
    assert_eq!(mapgrid.len(), 9);
    // {0, 1, 4}, {2, 5, 7, 8}, {3}, {6}
    assert_eq!(mapgrid.find(1), mapgrid.find(0));
    assert_eq!(mapgrid.find(4), mapgrid.find(0));
    assert_eq!(mapgrid.find(5), mapgrid.find(2));
    assert_eq!(mapgrid.find(7), mapgrid.find(2));
    assert_eq!(mapgrid.find(8), mapgrid.find(2));
    assert_eq!(mapgrid.find(3), 3);
    assert_eq!(mapgrid.find(6), 6);
    assert_ne!(mapgrid.find(0), mapgrid.find(2));
    for i in 0..9 {
        assert_eq!(mapgrid.root_of(i), mapgrid.find(i));
        let root = mapgrid.find(i);
        assert_eq!(mapgrid.find(root), root);
        assert_eq!(mapgrid.value(root), mapgrid.value(i));
    }
    assert_eq!(mapgrid.index(2, 1), 5);
    assert_eq!(mapgrid.index(0, 2), 6);
}

#[test]
fn union_joins_by_rank() {
    let mut mapgrid = UnionFind::new(vec![1, 2, 3, 4], 2);
    for i in 0..4 {
        assert_eq!(mapgrid.find(i), i);
    }
    // Equal ranks: the root of the second moves below the root of the first.
    mapgrid.union(1, 0);
    assert_eq!(mapgrid.find(0), 1);
    assert_eq!(mapgrid.find(1), 1);
    // The lower rank moves below the higher.
    mapgrid.union(2, 0);
    assert_eq!(mapgrid.find(2), 1);
    mapgrid.union(3, 3);
    assert_eq!(mapgrid.find(3), 3);
    mapgrid.union(0, 3);
    assert_eq!(mapgrid.find(3), 1);
    mapgrid.union(3, 2);
    for i in 0..4 {
        assert_eq!(mapgrid.find(i), 1);
    }
}

#[test]
fn a_changed_cell_joins_its_new_neighbours() {
    let test_map = vec![
        1, 1, 2,
        2, 1, 2,
        1, 2, 2,
    ];
    let mut mapgrid = UnionFind::new(test_map, 3);
    let (old_root, new_root) = mapgrid.change_tile_type(6, 2);
    assert_eq!(old_root, 6);
    assert_eq!(new_root, mapgrid.find(6));
    assert_eq!(mapgrid.value(6), 2);
    assert_eq!(mapgrid.find(3), mapgrid.find(6));
    assert_eq!(mapgrid.find(7), mapgrid.find(6));
    assert_eq!(mapgrid.find(2), mapgrid.find(6));
    assert_ne!(mapgrid.find(0), mapgrid.find(6));
    // No class holds cells of differing values.
    for a in 0..9 {
        for b in 0..9 {
            if mapgrid.find(a) == mapgrid.find(b) {
                assert_eq!(mapgrid.value(a), mapgrid.value(b));
            }
        }
    }
    // A value that no neighbour has leaves the cell alone; the rest of its class stays together.
    let (before, after) = mapgrid.change_tile_type(0, 9);
    assert_eq!((before, after), (0, 0));
    assert_eq!(mapgrid.find(0), 0);
    assert_eq!(mapgrid.value(0), 9);
    assert_eq!(mapgrid.find(1), 1);
    assert_eq!(mapgrid.find(4), 1);
}

#[test]
fn a_changed_root_leaves_the_rest_of_its_class_behind() {
    let test_map = vec![
        1, 1, 2,
        2, 1, 2,
        1, 2, 2,
    ];
    let mut mapgrid = UnionFind::new(test_map, 3);
    // Cell 2 is the root of the class {2, 5, 7, 8}.
    assert_eq!(mapgrid.find(5), 2);
    let (old_root, new_root) = mapgrid.change_tile_type(2, 1);
    assert_eq!(old_root, 2);
    assert_eq!(new_root, mapgrid.find(0));
    assert_eq!(mapgrid.value(2), 1);
    // Cell 2 has joined the ones; the cells 5, 7 and 8 keep the value 2 and stay together.
    assert_eq!(mapgrid.find(2), mapgrid.find(1));
    assert_ne!(mapgrid.find(5), mapgrid.find(2));
    assert_eq!(mapgrid.find(5), mapgrid.find(8));
    assert_eq!(mapgrid.find(7), mapgrid.find(8));
    // The first other cell of the class stands for the rest.
    assert_eq!(mapgrid.find(8), 5);
    assert_eq!(mapgrid.value(5), 2);
}

#[test]
fn a_changed_cell_below_a_root_leaves_its_class() {
    let mut mapgrid = UnionFind::new(vec![1; 9], 3);
    let top = mapgrid.find(8);
    assert_eq!(top, 0);
    let (old_root, new_root) = mapgrid.change_tile_type(4, 0);
    assert_eq!((old_root, new_root), (0, 4));
    assert_eq!(mapgrid.find(4), 4);
    for cell in [0, 1, 2, 3, 5, 6, 7, 8] {
        assert_eq!(mapgrid.find(cell), 0);
    }
    // Back to the old value: the cell joins its neighbours again.
    let (old_root, new_root) = mapgrid.change_tile_type(4, 1);
    assert_eq!((old_root, new_root), (4, 0));
    for cell in 0..9 {
        assert_eq!(mapgrid.find(cell), 0);
    }
    // The root itself changes: the first other cell takes over.
    let (old_root, new_root) = mapgrid.change_tile_type(0, 7);
    assert_eq!((old_root, new_root), (0, 0));
    for cell in 1..9 {
        assert_eq!(mapgrid.find(cell), 1);
    }
}

#[test]
fn no_change_merges_cells_of_differing_values() {
    let size = 5usize;
    let mut map: Vec<i32> = (0..25).map(|i| (i * 7 % 3) as i32).collect();
    let mut mapgrid = UnionFind::new(map.clone(), size);
    let mut seed = 12345u32;
    for _ in 0..300 {
        seed = seed.wrapping_mul(1103515245).wrapping_add(12345);
        let idx = (seed >> 8) as usize % 25;
        seed = seed.wrapping_mul(1103515245).wrapping_add(12345);
        let value = ((seed >> 8) % 3) as i32;
        let before: Vec<usize> = (0..25).map(|c| mapgrid.root_of(c)).collect();
        let (old_root, new_root) = mapgrid.change_tile_type(idx, value);
        map[idx] = value;
        assert_eq!(old_root, before[idx]);
        assert_eq!(new_root, mapgrid.find(idx));
        let mut alone = true;
        for (dx, dy) in [(0i32, 1i32), (0, -1), (1, 0), (-1, 0)] {
            let (x, y) = ((idx % size) as i32 + dx, (idx / size) as i32 + dy);
            if x >= 0 && y >= 0 && x < size as i32 && y < size as i32 {
                let m = mapgrid.index(x, y);
                if map[m] == value {
                    alone = false;
                    assert_eq!(mapgrid.find(m), mapgrid.find(idx));
                }
            }
        }
        if alone {
            assert_eq!(mapgrid.find(idx), idx);
        }
        for a in 0..25 {
            assert_eq!(mapgrid.value(a), map[a]);
            for b in 0..25 {
                if mapgrid.find(a) == mapgrid.find(b) {
                    assert_eq!(map[a], map[b]);
                }
                if a != idx && b != idx && before[a] == before[b] {
                    assert_eq!(mapgrid.find(a), mapgrid.find(b));
                }
            }
            if before[a] != before[idx] && mapgrid.find(a) != mapgrid.find(idx) {
                assert_eq!(mapgrid.find(a), before[a]);
            }
        }
    }
}

#[test]
fn rays_stay_inside_one_room() {
    let test_map = vec![
        1, 1, 0, 2,
        1, 1, 0, 2,
        1, 1, 0, 2,
        1, 1, 2, 2,
    ];
    let mut mapgrid = UnionFind::new(test_map, 4);
    assert!(mapgrid.cast_ray(0, 0, 1, 3));
    assert!(mapgrid.cast_ray(1, 3, 0, 0));
    assert!(mapgrid.cast_ray(3, 0, 3, 3));
    assert!(mapgrid.cast_ray(2, 0, 2, 2));
    assert!(mapgrid.cast_ray(2, 2, 2, 2));
    assert!(!mapgrid.cast_ray(0, 0, 3, 0));
    assert!(!mapgrid.cast_ray(0, 0, 2, 0));
    assert!(!mapgrid.cast_ray(1, 3, 2, 3));
    assert!(!mapgrid.cast_ray(3, 0, 2, 3));
    assert!(!mapgrid.cast_ray(3, 3, 0, 3));
    for (x1, y1, x2, y2) in [(0, 0, 1, 3), (0, 0, 3, 0), (3, 0, 2, 3), (2, 2, 2, 2)] {
        assert_eq!(mapgrid.is_ray_clear(x1, y1, x2, y2), mapgrid.cast_ray(x1, y1, x2, y2));
    }
}

#[test]
fn paths_lead_from_start_to_goal() {
    let mut open = UnionFind::new(vec![1; 9], 3);
    assert_eq!(open.path(0, 0, 2, 2), vec![0, 3, 6, 7, 8]);
    assert_eq!(open.path(1, 1, 1, 1), vec![4]);
    assert_eq!(open.path(2, 2, 0, 0), vec![8, 5, 2, 1, 0]);

    let walled = vec![
        1, 0, 1,
        1, 0, 1,
        1, 1, 1,
    ];
    let mut mapgrid = UnionFind::new(walled, 3);
    assert_eq!(mapgrid.path(0, 0, 2, 0), vec![0, 3, 6, 7, 8, 5, 2]);
    let route = mapgrid.path(2, 0, 0, 1);
    assert_eq!(route.first(), Some(&2));
    assert_eq!(route.last(), Some(&3));
    assert_eq!(route, vec![2, 5, 8, 7, 6, 3]);
}

#[test]
fn paths_are_empty_without_a_way() {
    let split = vec![
        1, 0, 1,
        1, 0, 1,
        1, 0, 1,
    ];
    let mut mapgrid = UnionFind::new(split, 3);
    assert_eq!(mapgrid.path(0, 0, 2, 0), Vec::<usize>::new());
    assert_eq!(mapgrid.path(0, 0, 1, 0), Vec::<usize>::new());
    assert_eq!(mapgrid.path(1, 1, 0, 0), Vec::<usize>::new());
    assert_eq!(mapgrid.path(1, 2, 1, 2), Vec::<usize>::new());
    assert_eq!(mapgrid.path(0, 0, 0, 2), vec![0, 3, 6]);
}

#[test]
fn paths_cross_rooms_of_any_positive_value() {
    let mixed = vec![
        -1, 2,
        3, 4,
    ];
    let mut mapgrid = UnionFind::new(mixed, 2);
    // A start of negative value is no wall; the way leads over positive cells only.
    assert_eq!(mapgrid.path(0, 0, 1, 1), vec![0, 2, 3]);
    assert_eq!(mapgrid.path(1, 1, 0, 0), Vec::<usize>::new());
}

#[test]
fn rooms_list_their_cells_and_their_boundary() {
    let test_map = vec![
        1, 1, 0, 2,
        1, 0, 1, 2,
        0, 0, 0, 2,
        3, 3, 3, 3,
    ];
    let mut mapgrid = UnionFind::new(test_map, 4);
    let rooms = mapgrid.rooms();
    // The rooms: {0, 1, 4}, {6}, {3, 7, 11}, {12, 13, 14, 15}; walls have none.
    assert_eq!(rooms.len(), 4);
    let mut keys: Vec<usize> = rooms.keys().copied().collect();
    keys.sort();
    let mut roots = vec![mapgrid.find(0), mapgrid.find(6), mapgrid.find(3), mapgrid.find(12)];
    roots.sort();
    assert_eq!(keys, roots);

    let room = rooms.get(&mapgrid.find(0)).unwrap();
    let points: Vec<(i32, i32)> = room.points.iter().map(|p| (p.x, p.y)).collect();
    assert_eq!(points, vec![(0, 0), (1, 0), (0, 1)]);
    assert_eq!(room.edge_loops.len(), 1);
    assert_eq!(
        corners(&room.edge_loops[0]),
        vec![
            ((0, 0), (2, 0)),
            ((2, 0), (2, 1)),
            ((2, 1), (1, 1)),
            ((1, 1), (1, 2)),
            ((1, 2), (0, 2)),
            ((0, 2), (0, 0)),
        ]
    );

    let single = rooms.get(&mapgrid.find(6)).unwrap();
    assert_eq!(single.points.len(), 1);
    assert_eq!((single.points[0].x, single.points[0].y), (2, 1));
    assert_eq!(
        corners(&single.edge_loops[0]),
        vec![((2, 1), (3, 1)), ((3, 1), (3, 2)), ((3, 2), (2, 2)), ((2, 2), (2, 1))]
    );

    let bottom = rooms.get(&mapgrid.find(12)).unwrap();
    assert_eq!(bottom.points.len(), 4);
    assert_eq!(bottom.edge_loops.len(), 1);
    assert_eq!(bottom.edge_loops[0].len(), 4);
    assert!(closed(&bottom.edge_loops[0]));
}

#[test]
fn loops_close_around_holes_and_pinches() {
    let maps: Vec<(Vec<i32>, usize)> = vec![
        (vec![1, 1, 1, 1, 0, 1, 1, 1, 1], 3),
        (vec![1, 1, 0, 1, 0, 1, 1, 1, 1], 3),
        (vec![1, 0, 0, 1], 2),
        (vec![1, 2, 2, 1], 2),
        (vec![5], 1),
        (vec![0, 0, 0, 0], 2),
        (vec![1, 1, 1, 1, 1, 0, 1, 0, 1, 1, 1, 1, 0, 1, 0, 1, 1, 1, 1, 1, 2, 2, 0, 3, 3], 5),
    ];
    for (map, size) in maps {
        let positive = map.iter().filter(|&&v| v > 0).count();
        let mut mapgrid = UnionFind::new(map, size);
        let rooms = mapgrid.rooms();
        let mut cells = 0;
        for (root, room) in rooms.iter() {
            assert_eq!(mapgrid.find(*root), *root);
            assert!(!room.points.is_empty());
            cells += room.points.len();
            // The sides of the cells of the room that face another class or the rim of the grid
            let mut outward = 0;
            for point in room.points.iter() {
                assert_eq!(mapgrid.find(mapgrid.index(point.x, point.y)), *root);
                for (dx, dy) in [(0, -1), (1, 0), (0, 1), (-1, 0)] {
                    let (nx, ny) = (point.x + dx, point.y + dy);
                    let inside = nx >= 0 && ny >= 0 && nx < size as i32 && ny < size as i32;
                    if !inside || mapgrid.find(mapgrid.index(nx, ny)) != *root {
                        outward += 1;
                    }
                }
            }
            let mut covered = 0;
            for edge_loop in room.edge_loops.iter() {
                assert!(!edge_loop.is_empty());
                assert!(closed(edge_loop));
                for edge in edge_loop.iter() {
                    assert!((edge.0.x == edge.1.x) != (edge.0.y == edge.1.y));
                    covered += (edge.0.x - edge.1.x).abs() + (edge.0.y - edge.1.y).abs();
                }
            }
            // Every outward side lies on a loop.
            assert_eq!(covered, outward);
        }
        assert_eq!(cells, positive);
    }
}

#[test]
fn a_ring_has_an_outer_and_an_inner_loop() {
    let mut mapgrid = UnionFind::new(vec![1, 1, 1, 1, 0, 1, 1, 1, 1], 3);
    let rooms = mapgrid.rooms();
    assert_eq!(rooms.len(), 1);
    let room = rooms.get(&mapgrid.find(0)).unwrap();
    assert_eq!(room.points.len(), 8);
    assert_eq!(room.edge_loops.len(), 2);
    assert_eq!(
        corners(&room.edge_loops[0]),
        vec![((0, 0), (3, 0)), ((3, 0), (3, 3)), ((3, 3), (0, 3)), ((0, 3), (0, 0))]
    );
    assert_eq!(
        corners(&room.edge_loops[1]),
        vec![((2, 1), (1, 1)), ((1, 1), (1, 2)), ((1, 2), (2, 2)), ((2, 2), (2, 1))]
    );
}
