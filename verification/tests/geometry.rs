use grid_fov::{
    add_points, directions, distance, index_of, inside_boundaries, inside_circle, is_symmetric,
    point_struct, round_ties_down, round_ties_up, slope, Fraction, Point, Row, Tile,
};

fn coordinates(point: &Point) -> (i32, i32) {
    (point.x, point.y)
}

#[test]
fn point_struct_keeps_the_coordinates() {
    let point = point_struct(-4, 9);
    assert_eq!(point.x, -4);
    assert_eq!(point.y, 9);
}

#[test]
fn add_points_adds_each_coordinate() {
    let sum = add_points(&point_struct(3, -2), &point_struct(-5, 7));
    assert_eq!(coordinates(&sum), (-2, 5));
}

#[test]
fn index_of_takes_the_boundary_as_stride() {
    assert_eq!(index_of(&point_struct(2, 3), &point_struct(5, 9)), 17);
    assert_eq!(index_of(&point_struct(0, 0), &point_struct(5, 9)), 0);
    assert_eq!(index_of(&point_struct(-1, 0), &point_struct(5, 9)), -1);
    assert_eq!(index_of(&point_struct(5, 0), &point_struct(5, 9)), 5);
    assert_eq!(index_of(&point_struct(0, 1), &point_struct(5, 9)), 5);
}

#[test]
fn index_of_does_not_overflow() {
    let far = point_struct(i32::MAX, i32::MAX);
    assert_eq!(index_of(&far, &far), 2147483647i64 + 2147483647i64 * 2147483647i64);
    let low = point_struct(i32::MIN, i32::MIN);
    assert_eq!(index_of(&low, &far), -2147483648i64 - 2147483648i64 * 2147483647i64);
}

#[test]
fn inside_boundaries_includes_both_ends() {
    let boundaries = point_struct(5, 9);
    assert!(inside_boundaries(&point_struct(0, 0), &boundaries));
    assert!(inside_boundaries(&point_struct(5, 9), &boundaries));
    assert!(inside_boundaries(&point_struct(5, 0), &boundaries));
    assert!(!inside_boundaries(&point_struct(6, 0), &boundaries));
    assert!(!inside_boundaries(&point_struct(0, 10), &boundaries));
    assert!(!inside_boundaries(&point_struct(-1, 0), &boundaries));
    assert!(!inside_boundaries(&point_struct(0, -1), &boundaries));
}

#[test]
fn inside_boundaries_of_negative_boundaries_is_empty() {
    let boundaries = point_struct(-1, 4);
    assert!(!inside_boundaries(&point_struct(0, 0), &boundaries));
    assert!(!inside_boundaries(&point_struct(-1, 0), &boundaries));
}

#[test]
fn inside_circle_with_radius_zero_has_no_limit() {
    let origin = point_struct(0, 0);
    assert!(inside_circle(&point_struct(1000, -1000), &origin, &0));
    assert!(inside_circle(&point_struct(i32::MAX, i32::MIN), &point_struct(i32::MIN, i32::MAX), &0));
}

#[test]
fn inside_circle_adds_half_a_cell() {
    let origin = point_struct(3, 3);
    assert!(inside_circle(&point_struct(3, 3), &origin, &1));
    assert!(inside_circle(&point_struct(4, 3), &origin, &1));
    assert!(inside_circle(&point_struct(4, 4), &origin, &1));
    assert!(!inside_circle(&point_struct(5, 3), &origin, &1));
    assert!(inside_circle(&point_struct(5, 4), &origin, &2));
    assert!(inside_circle(&point_struct(5, 3), &origin, &2));
    assert!(!inside_circle(&point_struct(5, 5), &origin, &2));
    assert!(!inside_circle(&point_struct(3, 6), &origin, &2));
    assert!(inside_circle(&point_struct(0, 7), &origin, &5));
    assert!(inside_circle(&point_struct(8, 5), &origin, &5));
    assert!(!inside_circle(&point_struct(8, 6), &origin, &5));
}

#[test]
fn inside_circle_with_a_negative_radius() {
    let origin = point_struct(0, 0);
    assert!(inside_circle(&point_struct(0, 0), &origin, &-1));
    assert!(!inside_circle(&point_struct(1, 0), &origin, &-1));
    assert!(inside_circle(&point_struct(1, 1), &origin, &-2));
    assert!(!inside_circle(&point_struct(2, 0), &origin, &-2));
}

#[test]
fn inside_circle_at_the_ends_of_the_range() {
    let low = point_struct(i32::MIN, i32::MIN);
    let high = point_struct(i32::MAX, i32::MAX);
    assert!(!inside_circle(&high, &low, &i32::MAX));
    assert!(inside_circle(&point_struct(i32::MAX, 0), &point_struct(0, 0), &i32::MAX));
    assert!(!inside_circle(&high, &low, &i32::MIN));
}

#[test]
fn directions_run_clockwise_from_north() {
    let offsets = directions();
    let pairs: Vec<(i32, i32)> = offsets.iter().map(coordinates).collect();
    assert_eq!(
        pairs,
        vec![(0, 1), (1, 1), (1, 0), (1, -1), (0, -1), (-1, -1), (-1, 0), (-1, 1)]
    );
}

#[test]
fn fraction_multiply_keeps_the_denominator() {
    let product = Fraction::new(-3, 4).multiply(5);
    assert_eq!(product.numerator, -15);
    assert_eq!(product.denominator, 4);
}

#[test]
fn round_ties_up_rounds_a_half_up() {
    assert_eq!(round_ties_up(Fraction::new(1, 2)), 1);
    assert_eq!(round_ties_up(Fraction::new(-1, 2)), 0);
    assert_eq!(round_ties_up(Fraction::new(3, 2)), 2);
    assert_eq!(round_ties_up(Fraction::new(-3, 2)), -1);
    assert_eq!(round_ties_up(Fraction::new(1, 3)), 0);
    assert_eq!(round_ties_up(Fraction::new(2, 3)), 1);
    assert_eq!(round_ties_up(Fraction::new(-5, 4)), -1);
    assert_eq!(round_ties_up(Fraction::new(-7, 4)), -2);
    assert_eq!(round_ties_up(Fraction::new(6, 3)), 2);
    assert_eq!(round_ties_up(Fraction::new(0, 5)), 0);
}

#[test]
fn round_ties_down_rounds_a_half_down() {
    assert_eq!(round_ties_down(Fraction::new(1, 2)), 0);
    assert_eq!(round_ties_down(Fraction::new(-1, 2)), -1);
    assert_eq!(round_ties_down(Fraction::new(3, 2)), 1);
    assert_eq!(round_ties_down(Fraction::new(-3, 2)), -2);
    assert_eq!(round_ties_down(Fraction::new(1, 3)), 0);
    assert_eq!(round_ties_down(Fraction::new(2, 3)), 1);
    assert_eq!(round_ties_down(Fraction::new(-5, 4)), -1);
    assert_eq!(round_ties_down(Fraction::new(-7, 4)), -2);
    assert_eq!(round_ties_down(Fraction::new(6, 3)), 2);
    assert_eq!(round_ties_down(Fraction::new(0, 5)), 0);
}

#[test]
fn rounding_agrees_with_floating_point_on_small_values() {
    for numerator in -40i128..=40 {
        for denominator in 1i128..=8 {
            let value = numerator as f64 / denominator as f64;
            let fraction = Fraction::new(numerator, denominator);
            assert_eq!(round_ties_up(fraction), (value + 0.5).floor() as i128);
            assert_eq!(round_ties_down(fraction), (value - 0.5).ceil() as i128);
        }
    }
}

#[test]
fn slope_passes_the_near_edge_of_the_tile() {
    let fraction = slope(&Tile { depth: 2, col: 1 });
    assert_eq!((fraction.numerator, fraction.denominator), (1, 4));
    let fraction = slope(&Tile { depth: 3, col: -2 });
    assert_eq!((fraction.numerator, fraction.denominator), (-5, 6));
    let fraction = slope(&Tile { depth: 1, col: 0 });
    assert_eq!((fraction.numerator, fraction.denominator), (-1, 2));
}

#[test]
fn row_tiles_of_the_first_rows() {
    let row = Row::new(1, Fraction::new(-1, 1), Fraction::new(1, 1));
    let cols: Vec<(i64, i64)> = row.tiles().iter().map(|tile| (tile.depth, tile.col)).collect();
    assert_eq!(cols, vec![(1, -1), (1, 0), (1, 1)]);
    let row = row.next().next();
    assert_eq!(row.depth, 3);
    let cols: Vec<i64> = row.tiles().iter().map(|tile| tile.col).collect();
    assert_eq!(cols, vec![-3, -2, -1, 0, 1, 2, 3]);
}

#[test]
fn row_tiles_round_the_start_up_and_the_end_down() {
    let row = Row::new(2, Fraction::new(-1, 4), Fraction::new(3, 4));
    assert_eq!(row.min_col(), 0);
    assert_eq!(row.max_col(), 1);
    let cols: Vec<i64> = row.tiles().iter().map(|tile| tile.col).collect();
    assert_eq!(cols, vec![0, 1]);
    let row = Row::new(3, Fraction::new(1, 2), Fraction::new(5, 6));
    let cols: Vec<i64> = row.tiles().iter().map(|tile| tile.col).collect();
    assert_eq!(cols, vec![2]);
}

#[test]
fn row_tiles_of_a_row_that_holds_none() {
    let row = Row::new(1, Fraction::new(1, 1), Fraction::new(-1, 1));
    assert!(row.tiles().is_empty());
}

#[test]
fn is_symmetric_tests_the_centre_of_the_tile() {
    let row = Row::new(4, Fraction::new(1, 4), Fraction::new(3, 4));
    assert!(!is_symmetric(&row, &Tile { depth: 4, col: 0 }));
    assert!(is_symmetric(&row, &Tile { depth: 4, col: 1 }));
    assert!(is_symmetric(&row, &Tile { depth: 4, col: 2 }));
    assert!(is_symmetric(&row, &Tile { depth: 4, col: 3 }));
    assert!(!is_symmetric(&row, &Tile { depth: 4, col: 4 }));
    let row = Row::new(2, Fraction::new(-1, 4), Fraction::new(1, 4));
    assert!(is_symmetric(&row, &Tile { depth: 2, col: 0 }));
    assert!(!is_symmetric(&row, &Tile { depth: 2, col: 1 }));
    assert!(!is_symmetric(&row, &Tile { depth: 2, col: -1 }));
}

#[test]
fn distance_is_one_at_the_origin() {
    let origin = point_struct(4, 4);
    for radius in [-3, 0, 1, 7] {
        let value = distance(&origin, &origin, &radius);
        assert_eq!(value.numerator, value.denominator);
        assert!(value.denominator > 0);
    }
}

#[test]
fn distance_falls_with_the_squared_distance() {
    let origin = point_struct(3, 2);
    let value = distance(&point_struct(5, 2), &origin, &2);
    assert_eq!((value.numerator, value.denominator), (441, 841));
    let value = distance(&point_struct(4, 3), &origin, &2);
    assert_eq!((value.numerator, value.denominator), (641, 841));
    let value = distance(&point_struct(3, 5), &origin, &3);
    assert_eq!((value.numerator, value.denominator), (621, 1521));
}

#[test]
fn distance_with_radius_zero_divides_by_point_eight_one() {
    let origin = point_struct(0, 0);
    let value = distance(&point_struct(1, 0), &origin, &0);
    assert_eq!((value.numerator, value.denominator), (-19, 81));
    let as_float = value.numerator as f32 / value.denominator as f32;
    assert!((as_float - (1.0 - 1.0 / 0.81f32)).abs() < 1e-6);
}
