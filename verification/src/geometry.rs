//! Points, the flat cell index, the boundary test and the radius test.

use vstd::prelude::*;

verus! {

/// A grid position with integer coordinates. It may lie outside the grid.
#[derive(Copy, Clone, Debug, PartialEq, Eq, Structural)]
pub struct Point {
    pub x: i32,
    pub y: i32,
}

/// A grid position with unbounded coordinates: what a `Point` stands for.
pub struct Cell {
    pub x: int,
    pub y: int,
}

impl View for Point {
    type V = Cell;

    open spec fn view(&self) -> Cell {
        Cell { x: self.x as int, y: self.y as int }
    }
}

/// The cell reached from `a` by the offset `b`.
pub open spec fn shifted(a: Cell, b: Cell) -> Cell {
    Cell { x: a.x + b.x, y: a.y + b.y }
}

/// The flat index of a cell: rows of `boundaries.x` cells laid end to end.
/// Nothing here says that the index falls inside a buffer.
pub open spec fn cell_index(cell: Cell, boundaries: Point) -> int {
    cell.x + cell.y * boundaries.x
}

/// The cell lies in the rectangle from the corner (0, 0) to `boundaries`,
/// both ends included.
pub open spec fn within_boundaries(cell: Cell, boundaries: Point) -> bool {
    0 <= cell.x <= boundaries.x && 0 <= cell.y <= boundaries.y
}

/// The square of the Euclidean distance between two cells.
pub open spec fn squared_distance(a: Cell, b: Cell) -> int {
    (a.x - b.x) * (a.x - b.x) + (a.y - b.y) * (a.y - b.y)
}

/// The cell is no farther from `origin` than `radius` and a half; radius 0
/// stands for no limit. The comparison of the squared distance with
/// (radius + 1/2)^2 is stated with both sides multiplied by four.
pub open spec fn within_circle(cell: Cell, origin: Cell, radius: int) -> bool {
    radius == 0 || 4 * squared_distance(cell, origin) <= (2 * radius + 1) * (2 * radius + 1)
}

/// The eight unit offsets, clockwise from north.
pub open spec fn direction(k: int) -> Cell {
    if k == 0 {
        Cell { x: 0, y: 1 }
    } else if k == 1 {
        Cell { x: 1, y: 1 }
    } else if k == 2 {
        Cell { x: 1, y: 0 }
    } else if k == 3 {
        Cell { x: 1, y: -1 }
    } else if k == 4 {
        Cell { x: 0, y: -1 }
    } else if k == 5 {
        Cell { x: -1, y: -1 }
    } else if k == 6 {
        Cell { x: -1, y: 0 }
    } else {
        Cell { x: -1, y: 1 }
    }
}

/// Two cells touch: they differ by one of the eight unit offsets.
pub open spec fn adjacent(a: Cell, b: Cell) -> bool {
    exists|k: int| 0 <= k < 8 && b == #[trigger] shifted(a, direction(k))
}

/// The second radius lets in every cell that the first lets in: it is 0,
/// which stands for no limit, or both are positive and it is the larger.
pub open spec fn widens(first: int, second: int) -> bool {
    second == 0 || 0 < first <= second
}

/// A cell in the circle of a radius is in the circle of every radius that
/// widens it.
pub proof fn lemma_circle_widens(cell: Cell, origin: Cell, first: int, second: int)
    requires
        widens(first, second),
        within_circle(cell, origin, first),
    ensures
        within_circle(cell, origin, second),
{
    if second != 0 {
        assert((2 * first + 1) * (2 * first + 1) <= (2 * second + 1) * (2 * second + 1))
            by (nonlinear_arith)
            requires
                0 < first <= second,
        ;
    }
}

/// The point with the coordinates given.
pub fn point_struct(x: i32, y: i32) -> (p: Point)
    ensures
        p.x == x,
        p.y == y,
{
    Point { x, y }
}

/// The point reached from `a` by the offset `b`. The sums must fit the
/// coordinates.
pub fn add_points(a: &Point, b: &Point) -> (p: Point)
    requires
        i32::MIN <= a.x + b.x <= i32::MAX,
        i32::MIN <= a.y + b.y <= i32::MAX,
    ensures
        p@ == shifted(a@, b@),
{
    point_struct(a.x + b.x, a.y + b.y)
}

/// The flat index of a point: `x + y * boundaries.x`. It may be negative or
/// lie beyond any buffer; the caller compares it with the buffer's length.
pub fn index_of(point: &Point, boundaries: &Point) -> (index: i64)
    ensures
        index == cell_index(point@, *boundaries),
{
    let x: i64 = point.x as i64;
    let y: i64 = point.y as i64;
    let stride: i64 = boundaries.x as i64;
    assert(-0x4000_0000_0000_0000 <= y * stride <= 0x4000_0000_0000_0000) by (nonlinear_arith)
        requires
            -0x8000_0000 <= y < 0x8000_0000,
            -0x8000_0000 <= stride < 0x8000_0000,
    ;
    x + y * stride
}

/// Whether the point lies in the rectangle from (0, 0) to `boundaries`, both
/// ends included.
pub fn inside_boundaries(coord: &Point, boundaries: &Point) -> (inside: bool)
    ensures
        inside == within_boundaries(coord@, *boundaries),
{
    coord.x >= 0 && coord.y >= 0 && coord.x <= boundaries.x && coord.y <= boundaries.y
}

/// Whether the point is no farther from `origin` than `radius` and a half.
/// A radius of 0 sets no limit. The comparison is exact.
pub fn inside_circle(coord: &Point, origin: &Point, radius: &i32) -> (inside: bool)
    ensures
        inside == within_circle(coord@, origin@, *radius as int),
{
    if *radius == 0 {
        return true;
    }
    let dx: i128 = coord.x as i128 - origin.x as i128;
    let dy: i128 = coord.y as i128 - origin.y as i128;
    let reach: i128 = 2 * (*radius as i128) + 1;
    assert(0 <= dx * dx <= 0x1_0000_0000_0000_0000) by (nonlinear_arith)
        requires
            -0x1_0000_0000 <= dx <= 0x1_0000_0000,
    ;
    assert(0 <= dy * dy <= 0x1_0000_0000_0000_0000) by (nonlinear_arith)
        requires
            -0x1_0000_0000 <= dy <= 0x1_0000_0000,
    ;
    assert(0 <= reach * reach <= 0x1_0000_0000_0000_0000_0000) by (nonlinear_arith)
        requires
            -0x1_0000_0000_00 <= reach <= 0x1_0000_0000_00,
    ;
    4 * (dx * dx + dy * dy) <= reach * reach
}

/// The eight unit offsets: north, north-east, east, south-east, south,
/// south-west, west, north-west.
pub fn directions() -> (offsets: [Point; 8])
    ensures
        forall|k: int| 0 <= k < 8 ==> (#[trigger] offsets[k])@ == direction(k),
{
    [
        Point { x: 0, y: 1 },
        Point { x: 1, y: 1 },
        Point { x: 1, y: 0 },
        Point { x: 1, y: -1 },
        Point { x: 0, y: -1 },
        Point { x: -1, y: -1 },
        Point { x: -1, y: 0 },
        Point { x: -1, y: 1 },
    ]
}

} // verus!
