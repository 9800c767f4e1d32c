use grid_fov::cast::{cast_quadrant, reach_of, scan_row, tile_kind};
use grid_fov::flood::{is_passable_value, traverse, Search};
use grid_fov::light::paint_cell;
use grid_fov::{point_struct, unveil_room, Fraction, Kind, Quadrant, Row, Tile};

fn mask(rows: &[&str]) -> Vec<u8> {
    let mut cells = Vec::new();
    for row in rows {
        for mark in row.chars() {
            cells.push(if mark == '#' { 1 } else { 0 });
        }
    }
    cells
}

fn pairs(visibles: &[Fraction]) -> Vec<(i128, i128)> {
    visibles.iter().map(|value| (value.numerator, value.denominator)).collect()
}

const ROOM: [&str; 7] = ["#######", "#.....#", "#.....#", "#..#..#", "#.....#", "#.....#", "#######"];

const EAST: [(i128, i128); 49] = [(0, 1), (0, 1), (0, 1), (0, 1), (0, 1), (-719, 81), (-1219, 81), (0, 1), (0, 1), (0, 1), (0, 1), (-119, 81), (-419, 81), (-919, 81), (0, 1), (0, 1), (0, 1), (0, 1), (-19, 81), (-319, 81), (-819, 81), (0, 1), (0, 1), (0, 1), (0, 1), (-119, 81), (-419, 81), (-919, 81), (0, 1), (0, 1), (0, 1), (0, 1), (0, 1), (-719, 81), (-1219, 81), (0, 1), (0, 1), (0, 1), (0, 1), (0, 1), (0, 1), (-1719, 81), (0, 1), (0, 1), (0, 1), (0, 1), (0, 1), (0, 1), (0, 1)];

const SOUTH: [(i128, i128); 49] = [(0, 1), (0, 1), (0, 1), (0, 1), (0, 1), (0, 1), (0, 1), (0, 1), (0, 1), (0, 1), (0, 1), (0, 1), (0, 1), (0, 1), (0, 1), (0, 1), (0, 1), (0, 1), (0, 1), (0, 1), (0, 1), (0, 1), (0, 1), (-119, 81), (-19, 81), (-119, 81), (0, 1), (0, 1), (0, 1), (-719, 81), (-419, 81), (0, 1), (-419, 81), (-719, 81), (0, 1), (-1719, 81), (-1219, 81), (0, 1), (0, 1), (0, 1), (-1219, 81), (-1719, 81), (-2419, 81), (-1919, 81), (0, 1), (0, 1), (0, 1), (-1919, 81), (-2419, 81)];

#[test]
fn reach_of_is_the_way_to_the_boundary() {
    let origin = point_struct(3, 2);
    let boundaries = point_struct(7, 6);
    assert_eq!(reach_of(Quadrant::North, &origin, &boundaries), 2);
    assert_eq!(reach_of(Quadrant::South, &origin, &boundaries), 4);
    assert_eq!(reach_of(Quadrant::East, &origin, &boundaries), 4);
    assert_eq!(reach_of(Quadrant::West, &origin, &boundaries), 3);
}

#[test]
fn reach_of_an_origin_outside_is_negative() {
    let origin = point_struct(9, -4);
    let boundaries = point_struct(7, 6);
    assert_eq!(reach_of(Quadrant::North, &origin, &boundaries), -4);
    assert_eq!(reach_of(Quadrant::East, &origin, &boundaries), -2);
}

#[test]
fn tile_kind_turns_the_tile_into_the_quadrant() {
    let origin = point_struct(3, 2);
    let boundaries = point_struct(7, 6);
    let blocking = mask(&ROOM);
    let tile = Tile { depth: 1, col: 2 };
    assert_eq!(tile_kind(Quadrant::North, &origin, &blocking, &boundaries, &tile), (Kind::Floor, 5, 1));
    assert_eq!(tile_kind(Quadrant::South, &origin, &blocking, &boundaries, &tile), (Kind::Floor, 5, 3));
    assert_eq!(tile_kind(Quadrant::East, &origin, &blocking, &boundaries, &tile), (Kind::Floor, 4, 4));
    assert_eq!(tile_kind(Quadrant::West, &origin, &blocking, &boundaries, &tile), (Kind::Floor, 2, 4));
}

#[test]
fn tile_kind_tells_wall_floor_and_neither() {
    let origin = point_struct(3, 2);
    let boundaries = point_struct(7, 6);
    let mut blocking = mask(&ROOM);
    let tile = |depth, col| Tile { depth, col };
    assert_eq!(tile_kind(Quadrant::South, &origin, &blocking, &boundaries, &tile(1, 0)).0, Kind::Wall);
    assert_eq!(tile_kind(Quadrant::East, &origin, &blocking, &boundaries, &tile(3, 0)).0, Kind::Wall);
    assert_eq!(tile_kind(Quadrant::East, &origin, &blocking, &boundaries, &tile(2, 0)).0, Kind::Floor);
    assert_eq!(
        tile_kind(Quadrant::North, &origin, &blocking, &boundaries, &tile(3, 0)),
        (Kind::Neither, 3, -1)
    );
    assert_eq!(tile_kind(Quadrant::South, &origin, &blocking, &boundaries, &tile(5, 0)).0, Kind::Neither);
    blocking[3 + 3 * 7] = 2;
    assert_eq!(tile_kind(Quadrant::South, &origin, &blocking, &boundaries, &tile(1, 0)).0, Kind::Neither);
}

#[test]
fn times_depth_scales_the_numerator() {
    let product = Fraction::new(-3, 4).times_depth(5);
    assert_eq!((product.numerator, product.denominator), (-15, 4));
}

#[test]
fn paint_cell_writes_the_falloff_of_a_cell_in_the_circle() {
    let origin = point_struct(3, 2);
    let boundaries = point_struct(7, 6);
    let blocking = mask(&ROOM);
    let mut visibles = vec![Fraction::new(0, 1); 49];
    paint_cell(4, 2, &origin, &blocking, &boundaries, 2, &mut visibles);
    paint_cell(6, 2, &origin, &blocking, &boundaries, 2, &mut visibles);
    paint_cell(8, 2, &origin, &blocking, &boundaries, 0, &mut visibles);
    paint_cell(3, 7, &origin, &blocking, &boundaries, 0, &mut visibles);
    paint_cell(i64::MAX, i64::MIN, &origin, &blocking, &boundaries, 0, &mut visibles);
    let mut expected = vec![(0, 1); 49];
    expected[18] = (741, 841);
    assert_eq!(pairs(&visibles), expected);
}

#[test]
fn scan_row_paints_the_row_and_opens_the_next() {
    let origin = point_struct(3, 2);
    let boundaries = point_struct(7, 6);
    let blocking = mask(&ROOM);
    let mut visibles = vec![Fraction::new(0, 1); 49];
    let mut rows = Vec::new();
    let row = Row::new(1, Fraction::new(-1, 1), Fraction::new(1, 1));
    scan_row(Quadrant::East, &origin, &blocking, &boundaries, 0, row, &mut rows, &mut visibles);
    let mut expected = vec![(0, 1); 49];
    expected[11] = (-119, 81);
    expected[18] = (-19, 81);
    expected[25] = (-119, 81);
    assert_eq!(pairs(&visibles), expected);
    assert_eq!(rows, vec![Row::new(2, Fraction::new(-1, 1), Fraction::new(1, 1))]);
}

#[test]
fn scan_row_splits_the_row_at_a_wall() {
    let origin = point_struct(3, 2);
    let boundaries = point_struct(7, 6);
    let blocking = mask(&ROOM);
    let mut visibles = vec![Fraction::new(0, 1); 49];
    let mut rows = Vec::new();
    let row = Row::new(1, Fraction::new(-1, 1), Fraction::new(1, 1));
    scan_row(Quadrant::South, &origin, &blocking, &boundaries, 0, row, &mut rows, &mut visibles);
    assert_eq!(
        rows,
        vec![
            Row::new(2, Fraction::new(-1, 1), Fraction::new(-1, 2)),
            Row::new(2, Fraction::new(1, 2), Fraction::new(1, 1)),
        ]
    );
}

#[test]
fn cast_quadrant_paints_one_quadrant() {
    let origin = point_struct(3, 2);
    let boundaries = point_struct(7, 6);
    let blocking = mask(&ROOM);
    let mut visibles = vec![Fraction::new(0, 1); 49];
    cast_quadrant(Quadrant::East, &origin, &blocking, &boundaries, 0, &mut visibles);
    assert_eq!(pairs(&visibles), EAST);
    let mut visibles = vec![Fraction::new(0, 1); 49];
    cast_quadrant(Quadrant::South, &origin, &blocking, &boundaries, 0, &mut visibles);
    assert_eq!(pairs(&visibles), SOUTH);
}

#[test]
fn traverse_reveals_as_unveil_room_does() {
    let origin = point_struct(3, 2);
    let boundaries = point_struct(7, 6);
    let blocking = mask(&ROOM);
    let outcome = traverse(&origin, &blocking, &boundaries, 2, Search::Reveal);
    assert_eq!(outcome.found, None);
    assert_eq!(outcome.visible, unveil_room(origin, blocking, boundaries, 2));
}

#[test]
fn traverse_tells_no_target_from_a_target_at_index_zero() {
    let origin = point_struct(1, 1);
    let boundaries = point_struct(7, 6);
    let mut ground = vec![0u8; 49];
    let nothing = traverse(&origin, &ground, &boundaries, 0, Search::Find);
    assert_eq!(nothing.found, None);
    ground[0] = 1;
    let first = traverse(&origin, &ground, &boundaries, 0, Search::Find);
    assert_eq!(first.found, Some(0));
}

#[test]
fn is_passable_value_depends_on_the_search() {
    assert!(is_passable_value(Search::Reveal, 0));
    assert!(!is_passable_value(Search::Reveal, 1));
    assert!(!is_passable_value(Search::Reveal, 2));
    assert!(is_passable_value(Search::Find, 0));
    assert!(!is_passable_value(Search::Find, 1));
    assert!(is_passable_value(Search::Find, 2));
}
