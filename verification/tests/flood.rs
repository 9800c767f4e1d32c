use grid_fov::{find_next, point_struct, unveil_room};

fn mask(rows: &[&str]) -> Vec<u8> {
    let mut cells = Vec::new();
    for row in rows {
        for mark in row.chars() {
            cells.push(if mark == '#' { 1 } else { 0 });
        }
    }
    cells
}

const ROOM: [&str; 7] = ["#######", "#.....#", "#.....#", "#..#..#", "#.....#", "#.....#", "#######"];

const SPLIT: [&str; 7] = ["#######", "#..#..#", "#..#..#", "#..#..#", "#..#..#", "#..#..#", "#######"];


const R1: [u8; 49] = [0, 0, 0, 0, 0, 0, 0, 0, 0, 1, 1, 1, 0, 0, 0, 0, 1, 1, 1, 0, 0, 0, 0, 1, 1, 1, 0, 0, 0, 0, 0, 0, 0, 0, 0, 0, 0, 0, 0, 0, 0, 0, 0, 0, 0, 0, 0, 0, 0];

const R2: [u8; 49] = [0, 0, 1, 1, 1, 0, 0, 0, 1, 1, 1, 1, 1, 0, 0, 1, 1, 1, 1, 1, 0, 0, 1, 1, 1, 1, 1, 0, 0, 0, 1, 1, 1, 0, 0, 0, 0, 0, 0, 0, 0, 0, 0, 0, 0, 0, 0, 0, 0];

const SPLIT_R0: [u8; 49] = [1, 1, 1, 1, 0, 0, 0, 1, 1, 1, 1, 0, 0, 0, 1, 1, 1, 1, 0, 0, 0, 1, 1, 1, 1, 0, 0, 0, 1, 1, 1, 1, 0, 0, 0, 1, 1, 1, 1, 0, 0, 0, 1, 1, 1, 1, 0, 0, 0];

const OPEN: [u8; 16] = [1, 1, 0, 1, 1, 0, 1, 1, 0, 1, 1, 1, 0, 0, 0, 0];

const NARROW: [u8; 13] = [0, 0, 0, 0, 0, 1, 1, 1, 0, 1, 1, 1, 1];

const WIDE: [u8; 13] = [0, 1, 1, 1, 0, 0, 1, 1, 1, 1, 1, 1, 1];

#[test]
fn unveil_room_reveals_the_whole_room_without_a_limit() {
    let visibles = unveil_room(point_struct(3, 2), mask(&ROOM), point_struct(7, 6), 0);
    assert_eq!(visibles, vec![1u8; 49]);
}

#[test]
fn unveil_room_with_radius_one_reveals_a_small_disk() {
    let visibles = unveil_room(point_struct(3, 2), mask(&ROOM), point_struct(7, 6), 1);
    assert_eq!(visibles, R1);
}

#[test]
fn unveil_room_with_radius_two() {
    let visibles = unveil_room(point_struct(3, 2), mask(&ROOM), point_struct(7, 6), 2);
    assert_eq!(visibles, R2);
}

#[test]
fn unveil_room_stops_at_walls_and_marks_them() {
    let visibles = unveil_room(point_struct(1, 3), mask(&SPLIT), point_struct(7, 6), 0);
    assert_eq!(visibles, SPLIT_R0);
}

#[test]
fn unveil_room_marks_the_neighbours_of_the_origin() {
    let origin = (3i32, 2i32);
    let visibles = unveil_room(point_struct(3, 2), mask(&ROOM), point_struct(7, 6), 1);
    for (dx, dy) in [(0, 1), (1, 1), (1, 0), (1, -1), (0, -1), (-1, -1), (-1, 0), (-1, 1)] {
        let index = (origin.0 + dx) + (origin.1 + dy) * 7;
        assert_eq!(visibles[index as usize], 1);
    }
}

#[test]
fn unveil_room_marks_a_walled_in_origin_not_at_all() {
    let rows = ["#####", "#####", "##.##", "#####", "#####"];
    let visibles = unveil_room(point_struct(2, 2), mask(&rows), point_struct(5, 4), 0);
    let mut expected = vec![0u8; 25];
    for index in [6, 7, 8, 11, 13, 16, 17, 18] {
        expected[index] = 1;
    }
    assert_eq!(visibles, expected);
}

#[test]
fn unveil_room_never_loses_a_cell_to_a_larger_radius() {
    let mut before = unveil_room(point_struct(3, 2), mask(&ROOM), point_struct(7, 6), 1);
    for radius in 2..=8 {
        let after = unveil_room(point_struct(3, 2), mask(&ROOM), point_struct(7, 6), radius);
        for index in 0..49 {
            assert!(before[index] <= after[index]);
        }
        before = after;
    }
    let unlimited = unveil_room(point_struct(3, 2), mask(&ROOM), point_struct(7, 6), 0);
    for index in 0..49 {
        assert!(before[index] <= unlimited[index]);
    }
}

#[test]
fn unveil_room_marks_nothing_outside_the_boundaries() {
    let blocking = vec![0u8; 40];
    let visibles = unveil_room(point_struct(1, 1), blocking, point_struct(4, 2), 0);
    for index in 15..40 {
        assert_eq!(visibles[index], 0);
    }
}

#[test]
fn unveil_room_skips_indices_outside_the_mask() {
    assert_eq!(unveil_room(point_struct(0, 0), Vec::new(), point_struct(3, 3), 0), Vec::<u8>::new());
    let visibles = unveil_room(point_struct(50, 50), vec![0u8; 9], point_struct(3, 3), 0);
    assert_eq!(visibles, vec![0u8; 9]);
    let visibles = unveil_room(point_struct(i32::MAX, i32::MAX), vec![0u8; 9], point_struct(3, 3), 0);
    assert_eq!(visibles, vec![0u8; 9]);
    let visibles = unveil_room(point_struct(i32::MIN, i32::MIN), vec![0u8; 9], point_struct(i32::MAX, i32::MAX), 0);
    assert_eq!(visibles, vec![0u8; 9]);
}

#[test]
fn unveil_room_on_an_open_grid_follows_the_flat_index() {
    let visibles = unveil_room(point_struct(0, 1), vec![0u8; 16], point_struct(3, 3), 0);
    assert_eq!(visibles, OPEN);
}

#[test]
fn unveil_room_on_an_open_grid_can_lose_a_cell_to_a_larger_radius() {
    let blocking = vec![1u8, 0, 0, 0, 1, 0, 0, 0, 0, 1, 1, 0, 0];
    let narrow = unveil_room(point_struct(2, 3), blocking.clone(), point_struct(4, 3), 2);
    let wide = unveil_room(point_struct(2, 3), blocking, point_struct(4, 3), 3);
    assert_eq!(narrow, NARROW);
    assert_eq!(wide, WIDE);
}

#[test]
fn unveil_room_twice_gives_the_same_mask() {
    let first = unveil_room(point_struct(3, 2), mask(&ROOM), point_struct(7, 6), 2);
    let second = unveil_room(point_struct(3, 2), mask(&ROOM), point_struct(7, 6), 2);
    assert_eq!(first, second);
}

#[test]
fn find_next_returns_the_index_of_the_only_target() {
    let mut ground = vec![0u8; 49];
    ground[26] = 1;
    assert_eq!(find_next(point_struct(3, 3), ground.clone(), point_struct(7, 6), 2), 26);
    assert_eq!(find_next(point_struct(3, 3), ground, point_struct(7, 6), 0), 26);
}

#[test]
fn find_next_without_a_target_returns_zero() {
    let ground = vec![0u8; 49];
    assert_eq!(find_next(point_struct(3, 3), ground.clone(), point_struct(7, 6), 2), 0);
    assert_eq!(find_next(point_struct(3, 3), ground, point_struct(7, 6), 0), 0);
}

#[test]
fn find_next_with_the_target_at_index_zero_returns_zero_too() {
    let mut ground = vec![0u8; 49];
    ground[0] = 1;
    assert_eq!(find_next(point_struct(1, 1), ground, point_struct(7, 6), 0), 0);
}

#[test]
fn find_next_prefers_the_nearer_target() {
    let mut ground = vec![0u8; 49];
    ground[26] = 1;
    ground[16] = 1;
    assert_eq!(find_next(point_struct(3, 3), ground, point_struct(7, 6), 0), 16);
    let mut ground = vec![0u8; 49];
    ground[36] = 1;
    ground[12] = 1;
    assert_eq!(find_next(point_struct(3, 3), ground, point_struct(7, 6), 0), 12);
}

#[test]
fn find_next_ignores_a_target_outside_the_radius() {
    let mut ground = vec![0u8; 49];
    ground[27] = 1;
    assert_eq!(find_next(point_struct(3, 3), ground, point_struct(7, 6), 2), 0);
}

#[test]
fn find_next_walks_through_every_other_value() {
    let mut ground = vec![7u8; 49];
    ground[26] = 1;
    assert_eq!(find_next(point_struct(3, 3), ground, point_struct(7, 6), 0), 26);
}

#[test]
fn find_next_twice_gives_the_same_index() {
    let mut ground = vec![0u8; 49];
    ground[36] = 1;
    ground[12] = 1;
    let first = find_next(point_struct(3, 3), ground.clone(), point_struct(7, 6), 0);
    let second = find_next(point_struct(3, 3), ground, point_struct(7, 6), 0);
    assert_eq!(first, second);
}

#[test]
fn find_next_on_an_empty_mask_returns_zero() {
    assert_eq!(find_next(point_struct(0, 0), Vec::new(), point_struct(3, 3), 0), 0);
}

fn walk_lengths(passable: &dyn Fn(usize) -> bool, origin: (i32, i32), radius: i32) -> Vec<Option<u32>> {
    // The fewest steps to each cell of the 7 by 7 room, going on from the
    // origin and from passable cells inside the circle only.
    let in_circle = |x: i32, y: i32| {
        let squared = (x - origin.0) * (x - origin.0) + (y - origin.1) * (y - origin.1);
        radius == 0 || 4 * squared <= (2 * radius + 1) * (2 * radius + 1)
    };
    let mut steps: Vec<Option<u32>> = vec![None; 49];
    let mut frontier = vec![origin];
    let mut count = 0;
    while !frontier.is_empty() {
        count += 1;
        let mut next = Vec::new();
        for (x, y) in frontier {
            for (dx, dy) in [(0, 1), (1, 1), (1, 0), (1, -1), (0, -1), (-1, -1), (-1, 0), (-1, 1)] {
                let (cx, cy) = (x + dx, y + dy);
                if cx < 0 || cy < 0 || cx > 6 || cy > 6 || !in_circle(cx, cy) {
                    continue;
                }
                let index = (cx + cy * 7) as usize;
                if steps[index].is_none() {
                    steps[index] = Some(count);
                    if passable(index) {
                        next.push((cx, cy));
                    }
                }
            }
        }
        frontier = next;
    }
    steps
}

#[test]
fn unveil_room_marks_what_a_walk_reaches() {
    let blocking = mask(&SPLIT);
    for radius in [0, 1, 2, 3, 4] {
        for (ox, oy) in [(1, 1), (2, 3), (4, 2), (5, 5)] {
            let visibles = unveil_room(point_struct(ox, oy), blocking.clone(), point_struct(7, 6), radius);
            let steps = walk_lengths(&|index| blocking[index] == 0, (ox, oy), radius);
            for index in 0..49 {
                assert_eq!(visibles[index] == 1, steps[index].is_some());
            }
        }
    }
}

#[test]
fn find_next_finds_a_target_that_none_is_nearer_than() {
    let mut seed = 12345u32;
    for _ in 0..200 {
        let mut ground = vec![0u8; 49];
        for _ in 0..3 {
            seed = seed.wrapping_mul(1664525).wrapping_add(1013904223);
            let x = 1 + (seed >> 8) % 5;
            seed = seed.wrapping_mul(1664525).wrapping_add(1013904223);
            let y = 1 + (seed >> 8) % 5;
            ground[(x + y * 7) as usize] = 1;
        }
        let found = find_next(point_struct(3, 3), ground.clone(), point_struct(7, 6), 2);
        let steps = walk_lengths(&|index| ground[index] != 1, (3, 3), 2);
        let nearest = (0..49).filter(|&index| ground[index] == 1).filter_map(|index| steps[index]).min();
        match nearest {
            None => assert_eq!(found, 0),
            Some(fewest) => {
                assert_eq!(ground[found], 1);
                assert_eq!(steps[found], Some(fewest));
            }
        }
    }
}

#[test]
fn unveil_room_from_the_last_column_misses_a_neighbour() {
    let visibles = unveil_room(point_struct(2, 1), vec![0u8; 9], point_struct(2, 3), 0);
    assert_eq!(visibles, vec![0, 1, 1, 0, 1, 0, 1, 0, 1]);
    assert_eq!(visibles[1 + 2 * 2], 0);
}

#[test]
fn find_next_on_an_open_grid_can_miss_the_only_target() {
    let ground = vec![0u8, 0, 0, 1, 0, 0, 0, 0];
    assert_eq!(find_next(point_struct(0, 1), ground, point_struct(4, 1), 0), 0);
}
