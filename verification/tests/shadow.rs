use grid_fov::{compute_fov, point_struct, unveil_room, Fraction};

fn mask(rows: &[&str]) -> Vec<u8> {
    let mut cells = Vec::new();
    for row in rows {
        for mark in row.chars() {
            cells.push(if mark == '#' { 1 } else { 0 });
        }
    }
    cells
}

fn pairs(visibles: &[Fraction]) -> Vec<(i128, i128)> {
    visibles.iter().map(|value| (value.numerator, value.denominator)).collect()
}

fn as_float(value: &Fraction) -> f32 {
    value.numerator as f32 / value.denominator as f32
}

const ROOM: [&str; 7] = ["#######", "#.....#", "#.....#", "#..#..#", "#.....#", "#.....#", "#######"];

const SPLIT: [&str; 7] = ["#######", "#..#..#", "#..#..#", "#..#..#", "#..#..#", "#..#..#", "#######"];

const PILLARS: [&str; 8] = [
    "#########",
    "#.......#",
    "#..#....#",
    "#.....#.#",
    "#.#.....#",
    "#....#..#",
    "#.......#",
    "#########",
];

const ROOM_R0: [(i128, i128); 49] = [(-1219, 81), (-719, 81), (-419, 81), (-319, 81), (-419, 81), (-719, 81), (-1219, 81), (-919, 81), (-419, 81), (-119, 81), (-19, 81), (-119, 81), (-419, 81), (-919, 81), (-819, 81), (-319, 81), (-19, 81), (1, 1), (-19, 81), (-319, 81), (-819, 81), (-919, 81), (-419, 81), (-119, 81), (-19, 81), (-119, 81), (-419, 81), (-919, 81), (-1219, 81), (-719, 81), (-419, 81), (0, 1), (-419, 81), (-719, 81), (-1219, 81), (-1719, 81), (-1219, 81), (0, 1), (0, 1), (0, 1), (-1219, 81), (-1719, 81), (-2419, 81), (-1919, 81), (0, 1), (0, 1), (0, 1), (-1919, 81), (-2419, 81)];

const ROOM_R2: [(i128, i128); 49] = [(0, 1), (0, 1), (341, 841), (441, 841), (341, 841), (0, 1), (0, 1), (0, 1), (341, 841), (641, 841), (741, 841), (641, 841), (341, 841), (0, 1), (0, 1), (441, 841), (741, 841), (1, 1), (741, 841), (441, 841), (0, 1), (0, 1), (341, 841), (641, 841), (741, 841), (641, 841), (341, 841), (0, 1), (0, 1), (0, 1), (341, 841), (0, 1), (341, 841), (0, 1), (0, 1), (0, 1), (0, 1), (0, 1), (0, 1), (0, 1), (0, 1), (0, 1), (0, 1), (0, 1), (0, 1), (0, 1), (0, 1), (0, 1), (0, 1)];

const PILLARS_R3: [(i128, i128); 72] = [(0, 1), (0, 1), (0, 1), (521, 1521), (621, 1521), (521, 1521), (0, 1), (0, 1), (0, 1), (0, 1), (0, 1), (0, 1), (1021, 1521), (1121, 1521), (1021, 1521), (721, 1521), (0, 1), (0, 1), (0, 1), (521, 1521), (1021, 1521), (1321, 1521), (1421, 1521), (1321, 1521), (1021, 1521), (521, 1521), (0, 1), (0, 1), (621, 1521), (1121, 1521), (1421, 1521), (1, 1), (1421, 1521), (1121, 1521), (0, 1), (0, 1), (0, 1), (0, 1), (1021, 1521), (1321, 1521), (1421, 1521), (1321, 1521), (1021, 1521), (521, 1521), (0, 1), (0, 1), (0, 1), (721, 1521), (1021, 1521), (1121, 1521), (1021, 1521), (721, 1521), (0, 1), (0, 1), (0, 1), (0, 1), (0, 1), (521, 1521), (621, 1521), (0, 1), (0, 1), (0, 1), (0, 1), (0, 1), (0, 1), (0, 1), (0, 1), (0, 1), (0, 1), (0, 1), (0, 1), (0, 1)];

const SPLIT_R0: [(i128, i128); 49] = [(-919, 81), (-819, 81), (-919, 81), (-1219, 81), (0, 1), (0, 1), (0, 1), (-419, 81), (-319, 81), (-419, 81), (-719, 81), (0, 1), (0, 1), (0, 1), (-119, 81), (-19, 81), (-119, 81), (-419, 81), (0, 1), (0, 1), (0, 1), (-19, 81), (1, 1), (-19, 81), (-319, 81), (0, 1), (0, 1), (0, 1), (-119, 81), (-19, 81), (-119, 81), (-419, 81), (0, 1), (0, 1), (0, 1), (-419, 81), (-319, 81), (-419, 81), (-719, 81), (0, 1), (0, 1), (0, 1), (-919, 81), (-819, 81), (-919, 81), (-1219, 81), (0, 1), (0, 1), (0, 1)];

const OPEN: [(i128, i128); 16] = [(-19, 81), (-119, 81), (-419, 81), (-919, 81), (-19, 81), (-319, 81), (-819, 81), (-119, 81), (-419, 81), (-919, 81), (-419, 81), (-719, 81), (-1219, 81), (0, 1), (0, 1), (0, 1)];

const OTHER: [(i128, i128); 49] = [(-1219, 81), (-719, 81), (-419, 81), (-319, 81), (-419, 81), (-719, 81), (-1219, 81), (-919, 81), (-419, 81), (-119, 81), (-19, 81), (-119, 81), (-419, 81), (-919, 81), (-819, 81), (-319, 81), (-19, 81), (1, 1), (-19, 81), (-319, 81), (-819, 81), (-919, 81), (-419, 81), (-119, 81), (-19, 81), (-119, 81), (-419, 81), (-919, 81), (-1219, 81), (-719, 81), (-419, 81), (-319, 81), (-419, 81), (-719, 81), (-1219, 81), (-1719, 81), (-1219, 81), (-919, 81), (-819, 81), (-919, 81), (-1219, 81), (-1719, 81), (-2419, 81), (-1919, 81), (-1619, 81), (-1519, 81), (-1619, 81), (-1919, 81), (-2419, 81)];

const CORNER_LIT: [u8; 72] = [1, 1, 1, 1, 1, 1, 1, 1, 1, 1, 1, 1, 1, 1, 1, 1, 1, 1, 1, 1, 1, 1, 0, 1, 1, 1, 1, 1, 1, 1, 1, 0, 0, 0, 0, 1, 1, 1, 1, 1, 1, 1, 0, 0, 0, 1, 1, 0, 1, 1, 1, 1, 0, 0, 1, 1, 0, 0, 1, 1, 0, 1, 1, 1, 1, 1, 0, 1, 1, 1, 0, 1];


#[test]
fn compute_fov_without_a_limit() {
    let visibles = compute_fov(point_struct(3, 2), mask(&ROOM), point_struct(7, 6), 0);
    assert_eq!(pairs(&visibles), ROOM_R0);
}

#[test]
fn compute_fov_with_radius_two() {
    let visibles = compute_fov(point_struct(3, 2), mask(&ROOM), point_struct(7, 6), 2);
    assert_eq!(pairs(&visibles), ROOM_R2);
}

#[test]
fn compute_fov_among_pillars_with_radius_three() {
    let visibles = compute_fov(point_struct(4, 3), mask(&PILLARS), point_struct(9, 7), 3);
    assert_eq!(pairs(&visibles), PILLARS_R3);
}

#[test]
fn compute_fov_stops_at_a_wall() {
    let visibles = compute_fov(point_struct(1, 3), mask(&SPLIT), point_struct(7, 6), 0);
    assert_eq!(pairs(&visibles), SPLIT_R0);
}

#[test]
fn compute_fov_sets_the_origin_to_exactly_one() {
    for radius in [0, 1, 2, 5] {
        let visibles = compute_fov(point_struct(3, 2), mask(&ROOM), point_struct(7, 6), radius);
        assert_eq!(as_float(&visibles[3 + 2 * 7]), 1.0);
        assert_eq!(pairs(&visibles)[3 + 2 * 7], (1, 1));
    }
}

#[test]
fn compute_fov_values_lie_between_zero_and_one_for_a_positive_radius() {
    let visibles = compute_fov(point_struct(4, 3), mask(&PILLARS), point_struct(9, 7), 4);
    for value in visibles.iter() {
        assert!(value.denominator > 0);
        assert!(0 <= value.numerator && value.numerator <= value.denominator);
    }
}

#[test]
fn compute_fov_leaves_the_cell_behind_a_wall_dark_and_unveil_room_marks_it() {
    let rows = ["#######", "#.....#", "#.....#", "#..#..#", "#.....#", "#.....#", "#######"];
    let origin = 3 + 2 * 7;
    let wall = 3 + 3 * 7;
    let target = 3 + 4 * 7;
    let shades = compute_fov(point_struct(3, 2), mask(&rows), point_struct(7, 6), 0);
    assert_eq!(as_float(&shades[origin]), 1.0);
    assert!(as_float(&shades[wall]) != 0.0);
    assert_eq!(as_float(&shades[target]), 0.0);
    assert_eq!(pairs(&shades)[target], (0, 1));
    let marks = unveil_room(point_struct(3, 2), mask(&rows), point_struct(7, 6), 0);
    assert_eq!(marks[target], 1);
}

#[test]
fn compute_fov_is_symmetric_between_floor_cells() {
    let blocking = mask(&PILLARS);
    let mut floors = Vec::new();
    for y in 0..8i32 {
        for x in 0..9i32 {
            if blocking[(x + y * 9) as usize] == 0 {
                floors.push((x, y));
            }
        }
    }
    assert_eq!(floors.len(), 38);
    let views: Vec<Vec<Fraction>> = floors
        .iter()
        .map(|&(x, y)| compute_fov(point_struct(x, y), blocking.clone(), point_struct(9, 7), 0))
        .collect();
    for (a, from) in floors.iter().enumerate() {
        for (b, to) in floors.iter().enumerate() {
            let forth = views[a][(to.0 + to.1 * 9) as usize].numerator != 0;
            let back = views[b][(from.0 + from.1 * 9) as usize].numerator != 0;
            assert_eq!(forth, back);
        }
    }
}

#[test]
fn compute_fov_sees_what_the_corner_sees() {
    let visibles = compute_fov(point_struct(1, 1), mask(&PILLARS), point_struct(9, 7), 0);
    let lit: Vec<u8> = visibles.iter().map(|value| (value.numerator != 0) as u8).collect();
    assert_eq!(lit, CORNER_LIT);
}

#[test]
fn compute_fov_never_loses_a_cell_to_a_larger_radius() {
    let mut before = compute_fov(point_struct(4, 3), mask(&PILLARS), point_struct(9, 7), 1);
    for radius in 2..=9 {
        let after = compute_fov(point_struct(4, 3), mask(&PILLARS), point_struct(9, 7), radius);
        for index in 0..72 {
            assert!(before[index].numerator == 0 || after[index].numerator != 0);
        }
        before = after;
    }
    let unlimited = compute_fov(point_struct(4, 3), mask(&PILLARS), point_struct(9, 7), 0);
    for index in 0..72 {
        assert!(before[index].numerator == 0 || unlimited[index].numerator != 0);
    }
}

#[test]
fn compute_fov_with_radius_one_lights_a_small_disk() {
    let visibles = compute_fov(point_struct(3, 2), mask(&ROOM), point_struct(7, 6), 1);
    let lit: Vec<usize> = (0..49).filter(|&index| visibles[index].numerator != 0).collect();
    assert_eq!(lit, vec![9, 10, 11, 16, 17, 18, 23, 24, 25]);
    assert_eq!(pairs(&visibles)[10], (261, 361));
    assert_eq!(pairs(&visibles)[9], (161, 361));
}

#[test]
fn compute_fov_lights_nothing_outside_the_boundaries() {
    let visibles = compute_fov(point_struct(1, 1), vec![0u8; 40], point_struct(4, 2), 0);
    for index in 15..40 {
        assert_eq!(visibles[index].numerator, 0);
    }
}

#[test]
fn compute_fov_skips_indices_outside_the_mask() {
    assert!(compute_fov(point_struct(0, 0), Vec::new(), point_struct(3, 3), 0).is_empty());
    let visibles = compute_fov(point_struct(50, 50), vec![0u8; 9], point_struct(3, 3), 0);
    assert_eq!(pairs(&visibles), vec![(0, 1); 9]);
}

#[test]
fn compute_fov_on_an_open_grid_follows_the_flat_index() {
    let visibles = compute_fov(point_struct(0, 1), vec![0u8; 16], point_struct(3, 3), 0);
    assert_eq!(pairs(&visibles), OPEN);
}

#[test]
fn compute_fov_takes_other_values_for_neither_wall_nor_floor() {
    let mut blocking = mask(&ROOM);
    blocking[3 + 3 * 7] = 2;
    let visibles = compute_fov(point_struct(3, 2), blocking, point_struct(7, 6), 0);
    assert_eq!(pairs(&visibles), OTHER);
}

#[test]
fn compute_fov_twice_gives_the_same_mask() {
    let first = compute_fov(point_struct(4, 3), mask(&PILLARS), point_struct(9, 7), 3);
    let second = compute_fov(point_struct(4, 3), mask(&PILLARS), point_struct(9, 7), 3);
    assert_eq!(pairs(&first), pairs(&second));
}

fn kind(blocking: &[u8], x: i64, y: i64, stride: i64) -> u8 {
    let index = x + y * stride;
    if 0 <= index && index < blocking.len() as i64 {
        blocking[index as usize]
    } else {
        9
    }
}

fn turned(quadrant: usize, origin: (i64, i64), depth: i64, col: i64) -> (i64, i64) {
    match quadrant {
        0 => (origin.0 + col, origin.1 - depth),
        1 => (origin.0 + col, origin.1 + depth),
        2 => (origin.0 + depth, origin.1 + col),
        _ => (origin.0 - depth, origin.1 + col),
    }
}

fn line_is_clear(blocking: &[u8], origin: (i64, i64), quadrant: usize, depth: i64, col: i64) -> bool {
    let mut above = true;
    let mut below = true;
    for e in 1..depth {
        let upper = (2 * col * e + depth).div_euclid(2 * depth);
        let lower = -(depth - 2 * col * e).div_euclid(2 * depth);
        let high = turned(quadrant, origin, e, upper);
        let low = turned(quadrant, origin, e, lower);
        above = above && kind(blocking, high.0, high.1, 9) == 0;
        below = below && kind(blocking, low.0, low.1, 9) == 0;
    }
    above || below
}

fn in_sight(blocking: &[u8], origin: (i64, i64), target: (i64, i64)) -> bool {
    for quadrant in 0..4 {
        let (depth, col) = match quadrant {
            0 => (origin.1 - target.1, target.0 - origin.0),
            1 => (target.1 - origin.1, target.0 - origin.0),
            2 => (target.0 - origin.0, target.1 - origin.1),
            _ => (origin.0 - target.0, target.1 - origin.1),
        };
        if depth >= 1 && -depth <= col && col <= depth && line_is_clear(blocking, origin, quadrant, depth, col) {
            return true;
        }
    }
    false
}

#[test]
fn compute_fov_lights_the_floor_cells_that_are_in_sight() {
    let blocking = mask(&PILLARS);
    for radius in [0i32, 2, 3] {
        for oy in 0..8i64 {
            for ox in 0..9i64 {
                if blocking[(ox + oy * 9) as usize] != 0 {
                    continue;
                }
                let visibles =
                    compute_fov(point_struct(ox as i32, oy as i32), blocking.clone(), point_struct(9, 7), radius);
                for ty in 0..8i64 {
                    for tx in 0..9i64 {
                        if blocking[(tx + ty * 9) as usize] != 0 || (tx, ty) == (ox, oy) {
                            continue;
                        }
                        let squared = (tx - ox) * (tx - ox) + (ty - oy) * (ty - oy);
                        let reach = 2 * radius as i64 + 1;
                        let in_circle = radius == 0 || 4 * squared <= reach * reach;
                        let lit = visibles[(tx + ty * 9) as usize].numerator != 0;
                        assert_eq!(lit, in_circle && in_sight(&blocking, (ox, oy), (tx, ty)));
                    }
                }
            }
        }
    }
}

#[test]
fn compute_fov_is_symmetric_with_a_radius_too() {
    let blocking = mask(&PILLARS);
    let mut floors = Vec::new();
    for y in 0..8i32 {
        for x in 0..9i32 {
            if blocking[(x + y * 9) as usize] == 0 {
                floors.push((x, y));
            }
        }
    }
    for radius in [1, 2, 4] {
        let views: Vec<Vec<Fraction>> = floors
            .iter()
            .map(|&(x, y)| compute_fov(point_struct(x, y), blocking.clone(), point_struct(9, 7), radius))
            .collect();
        for (a, from) in floors.iter().enumerate() {
            for (b, to) in floors.iter().enumerate() {
                let forth = views[a][(to.0 + to.1 * 9) as usize].numerator != 0;
                let back = views[b][(from.0 + from.1 * 9) as usize].numerator != 0;
                assert_eq!(forth, back);
            }
        }
    }
}

#[test]
fn compute_fov_need_not_light_the_floor_from_a_wall_that_it_lights() {
    let blocking = mask(&PILLARS);
    let from_floor = compute_fov(point_struct(1, 2), blocking.clone(), point_struct(9, 7), 0);
    let from_wall = compute_fov(point_struct(6, 3), blocking, point_struct(9, 7), 0);
    assert!(from_floor[6 + 3 * 9].numerator != 0);
    assert_eq!(from_wall[1 + 2 * 9].numerator, 0);
}

#[test]
fn compute_fov_can_lose_the_origin_to_a_cell_with_the_same_index() {
    let visibles = compute_fov(point_struct(0, 1), vec![0u8; 16], point_struct(3, 3), 0);
    assert_eq!(pairs(&visibles)[3], (-919, 81));
}
