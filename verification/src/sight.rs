//! Lines of sight: what it means that nothing stands between the origin and
//! a tile, and the proof that the sweep shows a floor tile exactly if its
//! line of sight is clear.

use vstd::prelude::*;
use crate::fraction::Ratio;
use crate::geometry::{cell_index, squared_distance, within_boundaries, within_circle, Cell, Point};
use crate::order::{
    at_most, below, lemma_at_most_chain, lemma_at_most_then_below, lemma_below_then_at_most,
    lemma_edges_rise, lemma_lower_tile, lemma_upper_tile, lower_tile, upper_tile,
};
use crate::cast::{fov, lemma_fov_origin, unshared};
use crate::light::{
    field_of, initial, lemma_paint_all_lit, lemma_paint_all_source, lights, paint_all, painted_at,
};
use crate::shadow::{
    depths_left, first_col, full_wedge, in_reach, kind_of, last_col, reach, scan, scan_all,
    shown_cells, slope_of, sweep, symmetric, transform, walk, walk_row, Field, Kind, Quadrant,
    Wedge,
};

verus! {

/// The kind of the tile at a position of a quadrant.
pub open spec fn kind_at(field: Field, quadrant: Quadrant, depth: int, col: int) -> Kind {
    kind_of(field, transform(quadrant, field.origin, depth, col))
}

/// The slope -1.
pub open spec fn low_edge() -> Ratio {
    Ratio { num: -1, den: 1 }
}

/// The slope 1.
pub open spec fn high_edge() -> Ratio {
    Ratio { num: 1, den: 1 }
}

/// The tile that a slope passes at a depth. On the edge between two tiles
/// `upper` says which of the two is meant.
pub open spec fn tile_of(slope: Ratio, depth: int, upper: bool) -> int {
    if upper {
        upper_tile(slope, depth)
    } else {
        lower_tile(slope, depth)
    }
}

/// Every tile that the slope passes before `depth` is floor; where it runs
/// along the edge between two tiles, the upper or the lower one counts.
pub open spec fn clear(field: Field, quadrant: Quadrant, slope: Ratio, depth: int, upper: bool) -> bool {
    forall|e: int|
        1 <= e < depth ==> kind_at(field, quadrant, e, #[trigger] tile_of(slope, e, upper))
            == Kind::Floor
}

/// The line from the centre of the origin to the centre of the tile passes
/// floor only. Where it runs along edges between two tiles, the tiles on one
/// side of it are all floor.
pub open spec fn sightline(field: Field, quadrant: Quadrant, depth: int, col: int) -> bool {
    let slope = Ratio { num: col, den: depth };
    clear(field, quadrant, slope, depth, true) || clear(field, quadrant, slope, depth, false)
}

/// The slope lies in the wedge, and not on its end (`upper`) or not on its
/// start (otherwise).
pub open spec fn inside(wedge: Wedge, slope: Ratio, upper: bool) -> bool {
    if upper {
        at_most(wedge.start, slope) && below(slope, wedge.end)
    } else {
        below(wedge.start, slope) && at_most(slope, wedge.end)
    }
}

/// The slope is that of the diagonal on the side asked for.
pub open spec fn outermost(slope: Ratio, upper: bool) -> bool {
    if upper {
        at_most(high_edge(), slope)
    } else {
        at_most(slope, low_edge())
    }
}

/// The slope lies in the wedge; it lies on the end (`upper`) or on the start
/// (otherwise) only where that is the diagonal.
pub open spec fn holds(wedge: Wedge, slope: Ratio, upper: bool) -> bool {
    inside(wedge, slope, upper) || (at_most(wedge.start, slope) && at_most(slope, wedge.end)
        && outermost(slope, upper))
}

/// A wedge whose slopes have positive denominators, lie between -1 and 1,
/// and leave room between them.
pub open spec fn proper_wedge(wedge: Wedge) -> bool {
    &&& wedge.start.den > 0
    &&& wedge.end.den > 0
    &&& below(wedge.start, wedge.end)
    &&& at_most(low_edge(), wedge.start)
    &&& at_most(wedge.end, high_edge())
}

/// The tiles of the row are walls and floor only.
pub open spec fn solid_row(field: Field, quadrant: Quadrant, depth: int, wedge: Wedge) -> bool {
    &&& depth >= 1
    &&& proper_wedge(wedge)
    &&& forall|k: int|
        first_col(depth, wedge) <= k <= last_col(depth, wedge) ==> #[trigger] kind_at(
            field,
            quadrant,
            depth,
            k,
        ) != Kind::Neither
}

/// Every slope inside the wedge is clear up to the row.
pub open spec fn clear_row(field: Field, quadrant: Quadrant, depth: int, wedge: Wedge) -> bool {
    forall|slope: Ratio, upper: bool|
        slope.den > 0 && #[trigger] inside(wedge, slope, upper) ==> clear(
            field,
            quadrant,
            slope,
            depth,
            upper,
        )
}

/// The wedge was opened over the floor tiles from column `a` to column `b`
/// of the row at `depth`: it does not reach beyond their outer edges.
pub open spec fn over_run(
    field: Field,
    quadrant: Quadrant,
    depth: int,
    wedge: Wedge,
    a: int,
    b: int,
) -> bool {
    &&& a <= b
    &&& forall|j: int| a <= j <= b ==> #[trigger] kind_at(field, quadrant, depth, j) == Kind::Floor
    &&& at_most(slope_of(depth, a), wedge.start)
    &&& at_most(wedge.end, slope_of(depth, b + 1))
}

/// A slope inside a wedge passes the row between the columns that the wedge
/// was opened over.
pub proof fn lemma_tile_in_run(depth: int, wedge: Wedge, a: int, b: int, slope: Ratio, upper: bool)
    requires
        depth >= 1,
        wedge.start.den > 0,
        wedge.end.den > 0,
        slope.den > 0,
        at_most(slope_of(depth, a), wedge.start),
        at_most(wedge.end, slope_of(depth, b + 1)),
        inside(wedge, slope, upper),
    ensures
        a <= tile_of(slope, depth, upper) <= b,
{
    let t = tile_of(slope, depth, upper);
    lemma_edges_rise(depth, t + 1, a);
    lemma_edges_rise(depth, b + 1, t);
    let near = slope_of(depth, t);
    let far = slope_of(depth, t + 1);
    let first = slope_of(depth, a);
    let last = slope_of(depth, b + 1);
    if upper {
        lemma_upper_tile(slope, depth, t);
        if t + 1 <= a {
            lemma_at_most_chain(far, first, wedge.start);
            lemma_at_most_chain(far, wedge.start, slope);
        }
        if b + 1 <= t {
            lemma_at_most_chain(last, near, slope);
            lemma_at_most_chain(wedge.end, last, slope);
        }
    } else {
        lemma_lower_tile(slope, depth, t);
        if t + 1 <= a {
            lemma_at_most_chain(slope, far, first);
            lemma_at_most_chain(slope, first, wedge.start);
        }
        if b + 1 <= t {
            lemma_at_most_chain(wedge.end, last, near);
            lemma_at_most_chain(slope, wedge.end, near);
        }
    }
}

/// A slope that a wedge holds passes the row of that wedge in one of its
/// tiles.
pub proof fn lemma_tile_in_row(depth: int, wedge: Wedge, slope: Ratio, upper: bool)
    requires
        depth >= 1,
        proper_wedge(wedge),
        slope.den > 0,
        holds(wedge, slope, upper),
    ensures
        first_col(depth, wedge) <= tile_of(slope, depth, upper) <= last_col(depth, wedge),
{
    let first = first_col(depth, wedge);
    let last = last_col(depth, wedge);
    lemma_upper_tile(wedge.start, depth, first);
    lemma_lower_tile(wedge.end, depth, last);
    if inside(wedge, slope, upper) {
        lemma_edges_rise(depth, first, first);
        lemma_tile_in_run(depth, wedge, first, last, slope, upper);
    } else {
        let t = tile_of(slope, depth, upper);
        lemma_edges_rise(depth, t + 1, first);
        lemma_edges_rise(depth, last + 1, t);
        lemma_at_most_chain(low_edge(), wedge.start, slope);
        lemma_at_most_chain(slope, wedge.end, high_edge());
        lemma_diagonal_tile(slope, depth, upper);
        if upper {
            lemma_at_most_chain(high_edge(), slope, wedge.end);
            lemma_at_most_chain(low_edge(), slope, wedge.end);
            lemma_diagonal_tile(wedge.end, depth, true);
            lemma_upper_tile(slope, depth, t);
            if t + 1 <= first {
                lemma_at_most_chain(slope_of(depth, t + 1), slope_of(depth, first), wedge.start);
                lemma_at_most_chain(slope_of(depth, t + 1), wedge.start, slope);
            }
        } else {
            lemma_at_most_chain(wedge.start, slope, low_edge());
            lemma_at_most_chain(wedge.start, slope, high_edge());
            lemma_diagonal_tile(wedge.start, depth, false);
            lemma_lower_tile(slope, depth, t);
            if last + 1 <= t {
                lemma_at_most_chain(wedge.end, slope_of(depth, last + 1), slope_of(depth, t));
                lemma_at_most_chain(slope, wedge.end, slope_of(depth, t));
            }
        }
    }
}

/// Between -1 and 1, a slope on the diagonal passes each row in its
/// outermost tile, whichever side counts.
pub proof fn lemma_diagonal_tile(slope: Ratio, depth: int, upper: bool)
    requires
        depth >= 1,
        slope.den > 0,
        at_most(low_edge(), slope),
        at_most(slope, high_edge()),
        outermost(slope, upper),
    ensures
        upper ==> upper_tile(slope, depth) == depth && lower_tile(slope, depth) == depth,
        !upper ==> upper_tile(slope, depth) == -depth && lower_tile(slope, depth) == -depth,
{
    let n = slope.num;
    let d = slope.den;
    if upper {
        assert(n == d);
        lemma_upper_tile(slope, depth, depth);
        lemma_lower_tile(slope, depth, depth);
        assert((2 * depth - 1) * d <= n * (2 * depth) && n * (2 * depth) < (2 * (depth + 1) - 1)
            * d && n * (2 * depth) <= (2 * (depth + 1) - 1) * d && (2 * depth - 1) * d < n * (2
            * depth)) by (nonlinear_arith)
            requires
                n == d,
                d > 0,
                depth >= 1,
        ;
    } else {
        assert(n == -d);
        lemma_upper_tile(slope, depth, -depth);
        lemma_lower_tile(slope, depth, -depth);
        assert((2 * (-depth) - 1) * d <= n * (2 * depth) && n * (2 * depth) < (2 * (-depth + 1)
            - 1) * d && n * (2 * depth) <= (2 * (-depth + 1) - 1) * d && (2 * (-depth) - 1) * d
            < n * (2 * depth)) by (nonlinear_arith)
            requires
                n == -d,
                d > 0,
                depth >= 1,
        ;
    }
}

/// The cell one step or none away in each direction.
pub open spec fn beside(cell: Cell, dx: int, dy: int) -> Cell {
    Cell { x: cell.x + dx, y: cell.y + dy }
}

/// Every floor cell is surrounded by walls and floor: none of its eight
/// neighbours falls outside the mask or holds another value than 0 and 1.
pub open spec fn closed(field: Field) -> bool {
    forall|cell: Cell, dx: int, dy: int|
        kind_of(field, cell) == Kind::Floor && -1 <= dx <= 1 && -1 <= dy <= 1 ==> kind_of(
            field,
            #[trigger] beside(cell, dx, dy),
        ) != Kind::Neither
}

/// The row behind a run of tiles reaches at most one column beyond the run
/// on either side.
pub proof fn lemma_next_row_spread(depth: int, wedge: Wedge, a: int, b: int)
    requires
        depth >= 1,
        proper_wedge(wedge),
        at_most(slope_of(depth, a), wedge.start),
        at_most(wedge.end, slope_of(depth, b + 1)),
    ensures
        a - 1 <= first_col(depth + 1, wedge),
        last_col(depth + 1, wedge) <= b + 1,
{
    let first = first_col(depth + 1, wedge);
    let last = last_col(depth + 1, wedge);
    lemma_upper_tile(wedge.start, depth + 1, first);
    lemma_lower_tile(wedge.end, depth + 1, last);
    lemma_edges_rise(depth, a, a);
    if first + 1 <= a - 1 {
        lemma_edges_rise(depth + 1, first + 1, a - 1);
        let edge = slope_of(depth + 1, a - 1);
        assert(at_most(edge, slope_of(depth, a)) || at_most(edge, low_edge())) by {
            assert((2 * (a - 1) - 1) * (2 * depth) <= (2 * a - 1) * (2 * (depth + 1)) || (2 * (a
                - 1) - 1) * 1 <= (-1) * (2 * (depth + 1))) by (nonlinear_arith)
                requires
                    depth >= 1,
            ;
        }
        if at_most(edge, slope_of(depth, a)) {
            lemma_at_most_chain(edge, slope_of(depth, a), wedge.start);
        } else {
            lemma_at_most_chain(edge, low_edge(), wedge.start);
        }
        lemma_at_most_chain(slope_of(depth + 1, first + 1), edge, wedge.start);
    }
    if b + 2 <= last {
        lemma_edges_rise(depth + 1, b + 2, last);
        let edge = slope_of(depth + 1, b + 2);
        assert(at_most(slope_of(depth, b + 1), edge) || at_most(high_edge(), edge)) by {
            assert((2 * (b + 1) - 1) * (2 * (depth + 1)) <= (2 * (b + 2) - 1) * (2 * depth) || 1
                * (2 * (depth + 1)) <= (2 * (b + 2) - 1) * 1) by (nonlinear_arith)
                requires
                    depth >= 1,
            ;
        }
        lemma_edges_rise(depth, b + 1, b + 1);
        if at_most(slope_of(depth, b + 1), edge) {
            lemma_at_most_chain(wedge.end, slope_of(depth, b + 1), edge);
        } else {
            lemma_at_most_chain(wedge.end, high_edge(), edge);
        }
        lemma_at_most_chain(wedge.end, edge, slope_of(depth + 1, last));
    }
}

/// On a closed field the row behind a run of floor tiles holds walls and
/// floor only.
pub proof fn lemma_child_solid(
    field: Field,
    quadrant: Quadrant,
    depth: int,
    wedge: Wedge,
    a: int,
    b: int,
)
    requires
        closed(field),
        depth >= 1,
        proper_wedge(wedge),
        over_run(field, quadrant, depth, wedge, a, b),
    ensures
        solid_row(field, quadrant, depth + 1, wedge),
{
    lemma_next_row_spread(depth, wedge, a, b);
    assert forall|k: int|
        first_col(depth + 1, wedge) <= k <= last_col(depth + 1, wedge) implies #[trigger] kind_at(
        field,
        quadrant,
        depth + 1,
        k,
    ) != Kind::Neither by {
        let j = if k < a {
            a
        } else if k > b {
            b
        } else {
            k
        };
        assert(kind_at(field, quadrant, depth, j) == Kind::Floor);
        let from = transform(quadrant, field.origin, depth, j);
        let to = transform(quadrant, field.origin, depth + 1, k);
        match quadrant {
            Quadrant::North => {
                assert(to == beside(from, k - j, -1));
            },
            Quadrant::South => {
                assert(to == beside(from, k - j, 1));
            },
            Quadrant::East => {
                assert(to == beside(from, 1, k - j));
            },
            Quadrant::West => {
                assert(to == beside(from, -1, k - j));
            },
        }
    }
}

/// The row behind a run of floor tiles of a clear row is clear.
pub proof fn lemma_child_clear(
    field: Field,
    quadrant: Quadrant,
    depth: int,
    parent: Wedge,
    wedge: Wedge,
    a: int,
    b: int,
)
    requires
        depth >= 1,
        proper_wedge(parent),
        proper_wedge(wedge),
        clear_row(field, quadrant, depth, parent),
        at_most(parent.start, wedge.start),
        at_most(wedge.end, parent.end),
        over_run(field, quadrant, depth, wedge, a, b),
    ensures
        clear_row(field, quadrant, depth + 1, wedge),
{
    assert forall|slope: Ratio, upper: bool|
        slope.den > 0 && #[trigger] inside(wedge, slope, upper) implies clear(
        field,
        quadrant,
        slope,
        depth + 1,
        upper,
    ) by {
        if upper {
            lemma_at_most_chain(parent.start, wedge.start, slope);
            lemma_below_then_at_most(slope, wedge.end, parent.end);
        } else {
            lemma_at_most_then_below(parent.start, wedge.start, slope);
            lemma_at_most_chain(slope, wedge.end, parent.end);
        }
        assert(inside(parent, slope, upper));
        lemma_tile_in_run(depth, wedge, a, b, slope, upper);
        assert(kind_at(field, quadrant, depth, tile_of(slope, depth, upper)) == Kind::Floor);
    }
}

/// The row holds walls and floor only, and every slope inside its wedge is
/// clear up to it.
pub open spec fn good_row(field: Field, quadrant: Quadrant, depth: int, wedge: Wedge) -> bool {
    solid_row(field, quadrant, depth, wedge) && clear_row(field, quadrant, depth, wedge)
}

/// The depth of a cell in a quadrant.
pub open spec fn depth_of(quadrant: Quadrant, origin: Cell, cell: Cell) -> int {
    match quadrant {
        Quadrant::North => origin.y - cell.y,
        Quadrant::South => cell.y - origin.y,
        Quadrant::East => cell.x - origin.x,
        Quadrant::West => origin.x - cell.x,
    }
}

/// The column of a cell in a quadrant.
pub open spec fn col_of(quadrant: Quadrant, origin: Cell, cell: Cell) -> int {
    match quadrant {
        Quadrant::North => cell.x - origin.x,
        Quadrant::South => cell.x - origin.x,
        Quadrant::East => cell.y - origin.y,
        Quadrant::West => cell.y - origin.y,
    }
}

/// The slope lies between -1 and 1, is clear up to the row at `depth`, and
/// passes that row in the tile at `col`.
pub open spec fn touches(
    field: Field,
    quadrant: Quadrant,
    depth: int,
    col: int,
    slope: Ratio,
    upper: bool,
) -> bool {
    &&& slope.den > 0
    &&& at_most(low_edge(), slope)
    &&& at_most(slope, high_edge())
    &&& clear(field, quadrant, slope, depth, upper)
    &&& tile_of(slope, depth, upper) == col
}

/// Some line from the centre of the origin reaches the tile over floor
/// only; it need not pass the centre of the tile.
pub open spec fn reaches(field: Field, quadrant: Quadrant, depth: int, col: int) -> bool {
    exists|slope: Ratio, upper: bool| #[trigger] touches(field, quadrant, depth, col, slope, upper)
}

/// A shown cell is shown for a reason: it lies in the quadrant; if it is
/// floor, its line of sight is clear; if it is a wall, some clear line
/// reaches it.
pub open spec fn shown_well(field: Field, quadrant: Quadrant, cell: Cell) -> bool {
    let depth = depth_of(quadrant, field.origin, cell);
    let col = col_of(quadrant, field.origin, cell);
    &&& depth >= 1
    &&& -depth <= col <= depth
    &&& kind_of(field, cell) == Kind::Floor ==> sightline(field, quadrant, depth, col)
    &&& kind_of(field, cell) == Kind::Wall ==> reaches(field, quadrant, depth, col)
}

/// Every tile of a good row is reached by a clear line.
pub proof fn lemma_row_reached(field: Field, quadrant: Quadrant, depth: int, wedge: Wedge, col: int)
    requires
        good_row(field, quadrant, depth, wedge),
        first_col(depth, wedge) <= col <= last_col(depth, wedge),
    ensures
        reaches(field, quadrant, depth, col),
{
    let first = first_col(depth, wedge);
    let last = last_col(depth, wedge);
    let centre = Ratio { num: col, den: depth };
    lemma_upper_tile(wedge.start, depth, first);
    lemma_lower_tile(wedge.end, depth, last);
    lemma_at_most_chain(low_edge(), wedge.start, wedge.end);
    lemma_at_most_chain(wedge.start, wedge.end, high_edge());
    if col == first {
        assert(inside(wedge, wedge.start, true));
        assert(touches(field, quadrant, depth, col, wedge.start, true));
    } else if col == last {
        assert(inside(wedge, wedge.end, false));
        assert(touches(field, quadrant, depth, col, wedge.end, false));
    } else {
        lemma_centre_tile(depth, col, true);
        lemma_edges_rise(depth, first + 1, col);
        lemma_edges_rise(depth, col + 1, last);
        lemma_edge_below_centre(depth, col, col);
        lemma_centre_below_edge(depth, col, col + 1);
        lemma_below_then_at_most(wedge.start, slope_of(depth, first + 1), slope_of(depth, col));
        lemma_below_then_at_most(wedge.start, slope_of(depth, col), centre);
        lemma_below_then_at_most(centre, slope_of(depth, col + 1), slope_of(depth, last));
        lemma_below_then_at_most(centre, slope_of(depth, last), wedge.end);
        assert(inside(wedge, centre, true));
        lemma_at_most_chain(low_edge(), wedge.start, centre);
        lemma_at_most_chain(centre, wedge.end, high_edge());
        assert(touches(field, quadrant, depth, col, centre, true));
    }
}

/// The centre of a tile lies below the near edge of every later tile of its
/// row.
pub proof fn lemma_centre_below_edge(depth: int, target: int, col: int)
    requires
        depth >= 1,
        target < col,
    ensures
        below(Ratio { num: target, den: depth }, slope_of(depth, col)),
{
    assert(target * (2 * depth) < (2 * col - 1) * depth) by (nonlinear_arith)
        requires
            depth >= 1,
            target < col,
    ;
}

/// The columns of a row lie between minus its depth and its depth.
pub proof fn lemma_row_in_cone(depth: int, wedge: Wedge)
    requires
        depth >= 1,
        proper_wedge(wedge),
    ensures
        -depth <= first_col(depth, wedge),
        last_col(depth, wedge) <= depth,
{
    let first = first_col(depth, wedge);
    let last = last_col(depth, wedge);
    lemma_upper_tile(wedge.start, depth, first);
    lemma_lower_tile(wedge.end, depth, last);
    assert(at_most(slope_of(depth, -depth), low_edge()) && at_most(
        high_edge(),
        slope_of(depth, depth + 1),
    )) by {
        assert((2 * (-depth) - 1) * 1 <= (-1) * (2 * depth) && 1 * (2 * depth) <= (2 * (depth + 1)
            - 1) * 1) by (nonlinear_arith);
    }
    lemma_edges_rise(depth, first + 1, -depth);
    lemma_edges_rise(depth, depth + 1, last);
    if first + 1 <= -depth {
        lemma_at_most_chain(slope_of(depth, first + 1), slope_of(depth, -depth), low_edge());
        lemma_at_most_chain(slope_of(depth, first + 1), low_edge(), wedge.start);
    }
    if depth + 1 <= last {
        lemma_at_most_chain(high_edge(), slope_of(depth, depth + 1), slope_of(depth, last));
        lemma_at_most_chain(wedge.end, high_edge(), slope_of(depth, last));
    }
}

/// Every cell of the sequence is shown for a reason.
pub open spec fn all_shown_well(field: Field, quadrant: Quadrant, cells: Seq<Cell>) -> bool {
    forall|i: int| 0 <= i < cells.len() ==> shown_well(field, quadrant, #[trigger] cells[i])
}

/// Every wedge of the sequence gives a good row at the depth.
pub open spec fn all_good(field: Field, quadrant: Quadrant, depth: int, wedges: Seq<Wedge>) -> bool {
    forall|i: int|
        0 <= i < wedges.len() ==> good_row(field, quadrant, depth, #[trigger] wedges[i])
}

/// Where a row has got to: `start` is the slope it has been narrowed to, and
/// where the tile before `col` is floor, `a` is the first column of the run
/// of floor tiles that it belongs to.
pub open spec fn walking(
    field: Field,
    quadrant: Quadrant,
    depth: int,
    wedge: Wedge,
    col: int,
    start: Ratio,
    before: Kind,
    a: int,
) -> bool {
    let first = first_col(depth, wedge);
    let last = last_col(depth, wedge);
    &&& first <= col
    &&& start.den > 0
    &&& at_most(wedge.start, start)
    &&& below(start, wedge.end)
    &&& before == Kind::Neither ==> col == first && start == wedge.start
    &&& before == Kind::Wall ==> col > first
    &&& before == Kind::Floor ==> {
        &&& first <= a < col
        &&& col <= last + 1
        &&& forall|j: int|
            a <= j < col ==> #[trigger] kind_at(field, quadrant, depth, j) == Kind::Floor
        &&& at_most(slope_of(depth, a), start)
        &&& below(start, slope_of(depth, a + 1))
    }
}

/// The slope that the row is narrowed to behind the tile at `col`.
pub open spec fn narrowed(depth: int, col: int, start: Ratio, before: Kind, kind: Kind) -> Ratio {
    if before == Kind::Wall && kind == Kind::Floor {
        slope_of(depth, col)
    } else {
        start
    }
}

/// The first column of the run of floor tiles behind the tile at `col`.
pub open spec fn run_start(col: int, before: Kind, a: int) -> int {
    if before == Kind::Floor {
        a
    } else {
        col
    }
}

/// A symmetric tile has its centre between the slopes.
pub proof fn lemma_symmetric_centre(depth: int, wedge: Wedge, col: int)
    ensures
        symmetric(depth, wedge, col) <==> (at_most(wedge.start, Ratio { num: col, den: depth })
            && at_most(Ratio { num: col, den: depth }, wedge.end)),
{
    assert(depth * wedge.start.num == wedge.start.num * depth) by (nonlinear_arith);
    assert(depth * wedge.end.num == wedge.end.num * depth) by (nonlinear_arith);
}

/// One tile further, the row is still where `walking` says.
pub proof fn lemma_walking_on(
    field: Field,
    quadrant: Quadrant,
    depth: int,
    wedge: Wedge,
    col: int,
    start: Ratio,
    before: Kind,
    a: int,
)
    requires
        solid_row(field, quadrant, depth, wedge),
        walking(field, quadrant, depth, wedge, col, start, before, a),
        col <= last_col(depth, wedge),
    ensures
        walking(
            field,
            quadrant,
            depth,
            wedge,
            col + 1,
            narrowed(depth, col, start, before, kind_at(field, quadrant, depth, col)),
            kind_at(field, quadrant, depth, col),
            run_start(col, before, a),
        ),
        kind_at(field, quadrant, depth, col) != Kind::Neither,
{
    let first = first_col(depth, wedge);
    let last = last_col(depth, wedge);
    let kind = kind_at(field, quadrant, depth, col);
    lemma_upper_tile(wedge.start, depth, first);
    lemma_lower_tile(wedge.end, depth, last);
    lemma_edges_rise(depth, first + 1, col);
    lemma_edges_rise(depth, col, last);
    lemma_edges_rise(depth, col, col + 1);
    if kind == Kind::Floor {
        if before == Kind::Wall {
            lemma_below_then_at_most(wedge.start, slope_of(depth, first + 1), slope_of(depth, col));
            lemma_at_most_then_below(slope_of(depth, col), slope_of(depth, last), wedge.end);
        } else if before == Kind::Floor {
            assert forall|j: int| a <= j < col + 1 implies #[trigger] kind_at(
                field,
                quadrant,
                depth,
                j,
            ) == Kind::Floor by {}
        } else {
            assert forall|j: int| col <= j < col + 1 implies #[trigger] kind_at(
                field,
                quadrant,
                depth,
                j,
            ) == Kind::Floor by {}
        }
    }
}

/// A wedge opened over the run of floor tiles that ends before `col` gives a
/// good row.
pub proof fn lemma_opened_good(
    field: Field,
    quadrant: Quadrant,
    depth: int,
    wedge: Wedge,
    col: int,
    start: Ratio,
    a: int,
    end: Ratio,
    at_end: bool,
)
    requires
        closed(field),
        good_row(field, quadrant, depth, wedge),
        walking(field, quadrant, depth, wedge, col, start, Kind::Floor, a),
        at_end ==> end == wedge.end && col == last_col(depth, wedge) + 1,
        !at_end ==> end == slope_of(depth, col) && col <= last_col(depth, wedge),
    ensures
        good_row(field, quadrant, depth + 1, Wedge { start, end }),
        at_most(wedge.start, start),
        at_most(end, wedge.end),
{
    let last = last_col(depth, wedge);
    let opened = Wedge { start, end };
    lemma_lower_tile(wedge.end, depth, last);
    lemma_edges_rise(depth, a + 1, col);
    lemma_edges_rise(depth, col, last);
    lemma_edges_rise(depth, col, col);
    if !at_end {
        lemma_at_most_then_below(slope_of(depth, col), slope_of(depth, last), wedge.end);
        lemma_below_then_at_most(start, slope_of(depth, a + 1), slope_of(depth, col));
        lemma_at_most_chain(end, wedge.end, high_edge());
    }
    lemma_at_most_chain(low_edge(), wedge.start, start);
    assert(proper_wedge(opened));
    assert(over_run(field, quadrant, depth, opened, a, col - 1));
    lemma_child_solid(field, quadrant, depth, opened, a, col - 1);
    lemma_child_clear(field, quadrant, depth, wedge, opened, a, col - 1);
}

/// On a closed field a good row opens good rows only, and every floor tile
/// that it shows has a clear line of sight.
pub proof fn lemma_walk_sound(
    field: Field,
    quadrant: Quadrant,
    depth: int,
    wedge: Wedge,
    col: int,
    start: Ratio,
    before: Kind,
    a: int,
)
    requires
        closed(field),
        good_row(field, quadrant, depth, wedge),
        walking(field, quadrant, depth, wedge, col, start, before, a),
    ensures
        all_good(
            field,
            quadrant,
            depth + 1,
            walk(
                field,
                quadrant,
                depth,
                wedge.end,
                last_col(depth, wedge),
                col,
                start,
                before,
            ).wedges,
        ),
        all_shown_well(
            field,
            quadrant,
            walk(
                field,
                quadrant,
                depth,
                wedge.end,
                last_col(depth, wedge),
                col,
                start,
                before,
            ).cells,
        ),
    decreases last_col(depth, wedge) - col + 1,
{
    let last = last_col(depth, wedge);
    let end = wedge.end;
    let here = walk(field, quadrant, depth, end, last, col, start, before);
    if col > last {
        if before == Kind::Floor {
            lemma_opened_good(field, quadrant, depth, wedge, col, start, a, end, true);
        }
    } else {
        let cell = transform(quadrant, field.origin, depth, col);
        let kind = kind_at(field, quadrant, depth, col);
        let onward = narrowed(depth, col, start, before, kind);
        let rest = walk(field, quadrant, depth, end, last, col + 1, onward, kind);
        lemma_walking_on(field, quadrant, depth, wedge, col, start, before, a);
        lemma_walk_sound(
            field,
            quadrant,
            depth,
            wedge,
            col + 1,
            onward,
            kind,
            run_start(col, before, a),
        );
        if before == Kind::Floor && kind == Kind::Wall {
            lemma_opened_good(
                field,
                quadrant,
                depth,
                wedge,
                col,
                start,
                a,
                slope_of(depth, col),
                false,
            );
        }
        assert(kind == Kind::Wall || symmetric(depth, Wedge { start, end }, col) ==> shown_well(
            field,
            quadrant,
            cell,
        )) by {
            let centre = Ratio { num: col, den: depth };
            lemma_row_in_cone(depth, wedge);
            assert(depth_of(quadrant, field.origin, cell) == depth);
            assert(col_of(quadrant, field.origin, cell) == col);
            if kind == Kind::Wall {
                lemma_row_reached(field, quadrant, depth, wedge, col);
            }
            if kind == Kind::Floor && symmetric(depth, Wedge { start, end }, col) {
                lemma_symmetric_centre(depth, Wedge { start, end }, col);
                lemma_at_most_chain(wedge.start, start, centre);
                assert(depth_of(quadrant, field.origin, cell) == depth);
                assert(col_of(quadrant, field.origin, cell) == col);
                if below(centre, end) {
                    assert(inside(wedge, centre, true));
                } else {
                    lemma_below_then_at_most(wedge.start, end, centre);
                    assert(inside(wedge, centre, false));
                }
            }
        }
        assert forall|i: int| 0 <= i < here.wedges.len() implies good_row(
            field,
            quadrant,
            depth + 1,
            #[trigger] here.wedges[i],
        ) by {
            if before == Kind::Floor && kind == Kind::Wall {
                if i > 0 {
                    assert(here.wedges[i] == rest.wedges[i - 1]);
                }
            } else {
                assert(here.wedges[i] == rest.wedges[i]);
            }
        }
        assert forall|i: int| 0 <= i < here.cells.len() implies shown_well(
            field,
            quadrant,
            #[trigger] here.cells[i],
        ) by {
            if kind == Kind::Wall || symmetric(depth, Wedge { start, end }, col) {
                if i > 0 {
                    assert(here.cells[i] == rest.cells[i - 1]);
                }
            } else {
                assert(here.cells[i] == rest.cells[i]);
            }
        }
    }
}

/// A row that has not begun is where `walking` says.
pub proof fn lemma_walking_begins(field: Field, quadrant: Quadrant, depth: int, wedge: Wedge)
    requires
        proper_wedge(wedge),
    ensures
        walking(
            field,
            quadrant,
            depth,
            wedge,
            first_col(depth, wedge),
            wedge.start,
            Kind::Neither,
            0,
        ),
{
}

/// On a closed field every floor tile that the sweep of a good row shows
/// has a clear line of sight.
pub proof fn lemma_scan_sound(field: Field, quadrant: Quadrant, depth: int, wedge: Wedge)
    requires
        closed(field),
        good_row(field, quadrant, depth, wedge),
    ensures
        all_shown_well(field, quadrant, scan(field, quadrant, depth, wedge).cells),
    decreases depths_left(field, quadrant, depth), 0nat,
{
    if in_reach(field, quadrant, depth) {
        let row = walk_row(field, quadrant, depth, wedge);
        lemma_walking_begins(field, quadrant, depth, wedge);
        lemma_walk_sound(
            field,
            quadrant,
            depth,
            wedge,
            first_col(depth, wedge),
            wedge.start,
            Kind::Neither,
            0,
        );
        lemma_scan_all_sound(field, quadrant, depth + 1, row.wedges);
    }
}

/// The same of the sweeps of good rows at one depth.
pub proof fn lemma_scan_all_sound(
    field: Field,
    quadrant: Quadrant,
    depth: int,
    wedges: Seq<Wedge>,
)
    requires
        closed(field),
        all_good(field, quadrant, depth, wedges),
    ensures
        all_shown_well(field, quadrant, scan_all(field, quadrant, depth, wedges).cells),
    decreases depths_left(field, quadrant, depth), wedges.len() + 1,
{
    if wedges.len() > 0 {
        assert(good_row(field, quadrant, depth, wedges[wedges.len() - 1]));
        lemma_scan_sound(field, quadrant, depth, wedges.last());
        assert forall|i: int| 0 <= i < wedges.drop_last().len() implies good_row(
            field,
            quadrant,
            depth,
            #[trigger] wedges.drop_last()[i],
        ) by {
            assert(wedges.drop_last()[i] == wedges[i]);
        }
        lemma_scan_all_sound(field, quadrant, depth, wedges.drop_last());
    }
}

/// On a closed field with a floor origin the first row of a quadrant is a
/// good row.
pub proof fn lemma_first_row_good(field: Field, quadrant: Quadrant)
    requires
        closed(field),
        kind_of(field, field.origin) == Kind::Floor,
    ensures
        good_row(field, quadrant, 1, full_wedge()),
{
    let wedge = full_wedge();
    assert(first_col(1, wedge) == -1 && last_col(1, wedge) == 1) by {
        lemma_upper_tile(wedge.start, 1, -1);
        lemma_lower_tile(wedge.end, 1, 1);
    }
    assert forall|k: int| first_col(1, wedge) <= k <= last_col(1, wedge) implies #[trigger] kind_at(
        field,
        quadrant,
        1,
        k,
    ) != Kind::Neither by {
        let to = transform(quadrant, field.origin, 1, k);
        match quadrant {
            Quadrant::North => {
                assert(to == beside(field.origin, k, -1));
            },
            Quadrant::South => {
                assert(to == beside(field.origin, k, 1));
            },
            Quadrant::East => {
                assert(to == beside(field.origin, 1, k));
            },
            Quadrant::West => {
                assert(to == beside(field.origin, -1, k));
            },
        }
    }
}

/// The centre of a tile lies in that tile.
pub proof fn lemma_centre_tile(depth: int, col: int, upper: bool)
    requires
        depth >= 1,
    ensures
        tile_of(Ratio { num: col, den: depth }, depth, upper) == col,
{
    let centre = Ratio { num: col, den: depth };
    lemma_upper_tile(centre, depth, col);
    lemma_lower_tile(centre, depth, col);
    assert((2 * col - 1) * depth < col * (2 * depth) && col * (2 * depth) < (2 * (col + 1) - 1)
        * depth) by (nonlinear_arith)
        requires
            depth >= 1,
    ;
}

/// The near edge of a tile lies below the centre of every tile of its row
/// that is not before it.
pub proof fn lemma_edge_below_centre(depth: int, col: int, target: int)
    requires
        depth >= 1,
        col <= target,
    ensures
        below(slope_of(depth, col), Ratio { num: target, den: depth }),
{
    assert((2 * col - 1) * depth < target * (2 * depth)) by (nonlinear_arith)
        requires
            depth >= 1,
            col <= target,
    ;
}

/// A row shows the tile at `target` if the centre of that tile lies between
/// the slope it has been narrowed to and its end.
pub proof fn lemma_walk_shows(
    field: Field,
    quadrant: Quadrant,
    depth: int,
    end: Ratio,
    last: int,
    col: int,
    start: Ratio,
    before: Kind,
    target: int,
)
    requires
        depth >= 1,
        col <= target <= last,
        at_most(start, Ratio { num: target, den: depth }),
        at_most(Ratio { num: target, den: depth }, end),
    ensures
        walk(field, quadrant, depth, end, last, col, start, before).cells.contains(
            transform(quadrant, field.origin, depth, target),
        ),
    decreases target - col,
{
    let here = walk(field, quadrant, depth, end, last, col, start, before);
    let cell = transform(quadrant, field.origin, depth, col);
    let kind = kind_of(field, cell);
    let onward = narrowed(depth, col, start, before, kind);
    let rest = walk(field, quadrant, depth, end, last, col + 1, onward, kind);
    let shown = kind == Kind::Wall || symmetric(depth, Wedge { start, end }, col);
    if col == target {
        lemma_symmetric_centre(depth, Wedge { start, end }, col);
        assert(here.cells[0] == cell);
    } else {
        lemma_edge_below_centre(depth, col, target);
        lemma_walk_shows(field, quadrant, depth, end, last, col + 1, onward, kind, target);
        let found = transform(quadrant, field.origin, depth, target);
        let i = choose|i: int| 0 <= i < rest.cells.len() && rest.cells[i] == found;
        if shown {
            assert(here.cells[i + 1] == found);
        } else {
            assert(here.cells[i] == found);
        }
    }
}

/// One of the wedges holds the slope.
pub open spec fn some_holds(wedges: Seq<Wedge>, slope: Ratio, upper: bool) -> bool {
    exists|i: int| 0 <= i < wedges.len() && holds(#[trigger] wedges[i], slope, upper)
}

/// The slope that the row has been narrowed to does not lie beyond `slope`
/// on the side that counts.
pub open spec fn start_before(start: Ratio, slope: Ratio, upper: bool) -> bool {
    if upper {
        at_most(start, slope)
    } else {
        below(start, slope) || (at_most(start, slope) && outermost(slope, false))
    }
}

/// A row that holds a slope and is floor where the slope passes it opens a
/// wedge that holds the slope.
pub proof fn lemma_walk_opens(
    field: Field,
    quadrant: Quadrant,
    depth: int,
    wedge: Wedge,
    col: int,
    start: Ratio,
    before: Kind,
    a: int,
    slope: Ratio,
    upper: bool,
)
    requires
        solid_row(field, quadrant, depth, wedge),
        walking(field, quadrant, depth, wedge, col, start, before, a),
        slope.den > 0,
        holds(wedge, slope, upper),
        kind_at(field, quadrant, depth, tile_of(slope, depth, upper)) == Kind::Floor,
        start_before(start, slope, upper),
        (col <= tile_of(slope, depth, upper) <= last_col(depth, wedge)) || (before == Kind::Floor
            && a <= tile_of(slope, depth, upper) < col),
    ensures
        some_holds(
            walk(
                field,
                quadrant,
                depth,
                wedge.end,
                last_col(depth, wedge),
                col,
                start,
                before,
            ).wedges,
            slope,
            upper,
        ),
    decreases last_col(depth, wedge) - col + 1,
{
    let last = last_col(depth, wedge);
    let end = wedge.end;
    let h = tile_of(slope, depth, upper);
    let here = walk(field, quadrant, depth, end, last, col, start, before);
    if upper {
        lemma_upper_tile(slope, depth, h);
    } else {
        lemma_lower_tile(slope, depth, h);
    }
    if col > last {
        assert(holds(here.wedges[0], slope, upper));
    } else {
        let kind = kind_at(field, quadrant, depth, col);
        let onward = narrowed(depth, col, start, before, kind);
        let rest = walk(field, quadrant, depth, end, last, col + 1, onward, kind);
        lemma_walking_on(field, quadrant, depth, wedge, col, start, before, a);
        lemma_edges_rise(depth, h + 1, col);
        lemma_edges_rise(depth, col, h);
        if h < col && kind == Kind::Wall {
            let opened = Wedge { start, end: slope_of(depth, col) };
            if upper {
                lemma_below_then_at_most(slope, slope_of(depth, h + 1), slope_of(depth, col));
            } else {
                lemma_at_most_chain(slope, slope_of(depth, h + 1), slope_of(depth, col));
            }
            assert(here.wedges[0] == opened);
            assert(holds(here.wedges[0], slope, upper));
        } else {
            if onward != start {
                if upper {
                    lemma_at_most_chain(slope_of(depth, col), slope_of(depth, h), slope);
                } else {
                    lemma_at_most_then_below(slope_of(depth, col), slope_of(depth, h), slope);
                }
            }
            lemma_walk_opens(
                field,
                quadrant,
                depth,
                wedge,
                col + 1,
                onward,
                kind,
                run_start(col, before, a),
                slope,
                upper,
            );
            let i = choose|i: int|
                0 <= i < rest.wedges.len() && holds(#[trigger] rest.wedges[i], slope, upper);
            if before == Kind::Floor && kind == Kind::Wall {
                assert(here.wedges[i + 1] == rest.wedges[i]);
            } else {
                assert(here.wedges[i] == rest.wedges[i]);
            }
        }
    }
}

/// The sweep of one of the rows at a depth is part of the sweep of them
/// all.
pub proof fn lemma_scan_all_contains(
    field: Field,
    quadrant: Quadrant,
    depth: int,
    wedges: Seq<Wedge>,
    i: int,
    cell: Cell,
)
    requires
        0 <= i < wedges.len(),
        scan(field, quadrant, depth, wedges[i]).cells.contains(cell),
    ensures
        scan_all(field, quadrant, depth, wedges).cells.contains(cell),
    decreases wedges.len(),
{
    let all = scan_all(field, quadrant, depth, wedges).cells;
    let top = scan(field, quadrant, depth, wedges.last()).cells;
    let rest = scan_all(field, quadrant, depth, wedges.drop_last()).cells;
    assert(all == top + rest);
    if i == wedges.len() - 1 {
        let j = choose|j: int| 0 <= j < top.len() && top[j] == cell;
        assert(all[j] == cell);
    } else {
        assert(wedges.drop_last()[i] == wedges[i]);
        lemma_scan_all_contains(field, quadrant, depth, wedges.drop_last(), i, cell);
        let j = choose|j: int| 0 <= j < rest.len() && rest[j] == cell;
        assert(all[top.len() + j] == cell);
    }
}

/// Every tile that the slope passes from `from` on and before `depth` is
/// floor.
pub open spec fn clear_from(
    field: Field,
    quadrant: Quadrant,
    slope: Ratio,
    from: int,
    depth: int,
    upper: bool,
) -> bool {
    forall|e: int|
        from <= e < depth ==> kind_at(field, quadrant, e, #[trigger] tile_of(slope, e, upper))
            == Kind::Floor
}

/// On a closed field the sweep of a good row shows the tile at `col` of the
/// row at `target` if the row holds the slope of that tile and the slope is
/// clear from the row on.
pub proof fn lemma_scan_shows(
    field: Field,
    quadrant: Quadrant,
    depth: int,
    wedge: Wedge,
    target: int,
    col: int,
    upper: bool,
)
    requires
        closed(field),
        good_row(field, quadrant, depth, wedge),
        depth <= target,
        in_reach(field, quadrant, target),
        holds(wedge, Ratio { num: col, den: target }, upper),
        clear_from(field, quadrant, Ratio { num: col, den: target }, depth, target, upper),
    ensures
        scan(field, quadrant, depth, wedge).cells.contains(
            transform(quadrant, field.origin, target, col),
        ),
    decreases target - depth,
{
    let slope = Ratio { num: col, den: target };
    let cell = transform(quadrant, field.origin, target, col);
    let row = walk_row(field, quadrant, depth, wedge);
    let all = scan(field, quadrant, depth, wedge).cells;
    let behind = scan_all(field, quadrant, depth + 1, row.wedges).cells;
    assert(all == row.cells + behind);
    lemma_tile_in_row(depth, wedge, slope, upper);
    lemma_below_is_at_most_both(wedge, slope, upper);
    if depth == target {
        lemma_centre_tile(depth, col, upper);
        lemma_walk_shows(
            field,
            quadrant,
            depth,
            wedge.end,
            last_col(depth, wedge),
            first_col(depth, wedge),
            wedge.start,
            Kind::Neither,
            col,
        );
        let j = choose|j: int| 0 <= j < row.cells.len() && row.cells[j] == cell;
        assert(all[j] == cell);
    } else {
        let h = tile_of(slope, depth, upper);
        assert(kind_at(field, quadrant, depth, h) == Kind::Floor);
        lemma_walking_begins(field, quadrant, depth, wedge);
        lemma_walk_opens(
            field,
            quadrant,
            depth,
            wedge,
            first_col(depth, wedge),
            wedge.start,
            Kind::Neither,
            0,
            slope,
            upper,
        );
        lemma_walk_sound(
            field,
            quadrant,
            depth,
            wedge,
            first_col(depth, wedge),
            wedge.start,
            Kind::Neither,
            0,
        );
        let i = choose|i: int|
            0 <= i < row.wedges.len() && holds(#[trigger] row.wedges[i], slope, upper);
        assert(good_row(field, quadrant, depth + 1, row.wedges[i]));
        assert forall|e: int| depth + 1 <= e < target implies kind_at(
            field,
            quadrant,
            e,
            #[trigger] tile_of(slope, e, upper),
        ) == Kind::Floor by {}
        lemma_scan_shows(field, quadrant, depth + 1, row.wedges[i], target, col, upper);
        lemma_scan_all_contains(field, quadrant, depth + 1, row.wedges, i, cell);
        let j = choose|j: int| 0 <= j < behind.len() && behind[j] == cell;
        assert(all[row.cells.len() + j] == cell);
    }
}

/// A row shows every wall among its tiles.
pub proof fn lemma_walk_shows_wall(
    field: Field,
    quadrant: Quadrant,
    depth: int,
    end: Ratio,
    last: int,
    col: int,
    start: Ratio,
    before: Kind,
    target: int,
)
    requires
        col <= target <= last,
        kind_at(field, quadrant, depth, target) == Kind::Wall,
    ensures
        walk(field, quadrant, depth, end, last, col, start, before).cells.contains(
            transform(quadrant, field.origin, depth, target),
        ),
    decreases target - col,
{
    let here = walk(field, quadrant, depth, end, last, col, start, before);
    let cell = transform(quadrant, field.origin, depth, col);
    let kind = kind_of(field, cell);
    let onward = narrowed(depth, col, start, before, kind);
    let rest = walk(field, quadrant, depth, end, last, col + 1, onward, kind);
    let shown = kind == Kind::Wall || symmetric(depth, Wedge { start, end }, col);
    if col == target {
        assert(here.cells[0] == cell);
    } else {
        lemma_walk_shows_wall(field, quadrant, depth, end, last, col + 1, onward, kind, target);
        let found = transform(quadrant, field.origin, depth, target);
        let i = choose|i: int| 0 <= i < rest.cells.len() && rest.cells[i] == found;
        if shown {
            assert(here.cells[i + 1] == found);
        } else {
            assert(here.cells[i] == found);
        }
    }
}

/// On a closed field the sweep of a good row shows the wall that a slope
/// reaches at the row at `target`, if the row holds the slope and the slope
/// is clear from the row on.
pub proof fn lemma_scan_shows_wall(
    field: Field,
    quadrant: Quadrant,
    depth: int,
    wedge: Wedge,
    target: int,
    slope: Ratio,
    upper: bool,
)
    requires
        closed(field),
        good_row(field, quadrant, depth, wedge),
        depth <= target,
        in_reach(field, quadrant, target),
        slope.den > 0,
        holds(wedge, slope, upper),
        clear_from(field, quadrant, slope, depth, target, upper),
        kind_at(field, quadrant, target, tile_of(slope, target, upper)) == Kind::Wall,
    ensures
        scan(field, quadrant, depth, wedge).cells.contains(
            transform(quadrant, field.origin, target, tile_of(slope, target, upper)),
        ),
    decreases target - depth,
{
    let col = tile_of(slope, target, upper);
    let cell = transform(quadrant, field.origin, target, col);
    let row = walk_row(field, quadrant, depth, wedge);
    let all = scan(field, quadrant, depth, wedge).cells;
    let behind = scan_all(field, quadrant, depth + 1, row.wedges).cells;
    assert(all == row.cells + behind);
    lemma_tile_in_row(depth, wedge, slope, upper);
    lemma_below_is_at_most_both(wedge, slope, upper);
    if depth == target {
        lemma_walk_shows_wall(
            field,
            quadrant,
            depth,
            wedge.end,
            last_col(depth, wedge),
            first_col(depth, wedge),
            wedge.start,
            Kind::Neither,
            col,
        );
        let j = choose|j: int| 0 <= j < row.cells.len() && row.cells[j] == cell;
        assert(all[j] == cell);
    } else {
        let h = tile_of(slope, depth, upper);
        assert(kind_at(field, quadrant, depth, h) == Kind::Floor);
        lemma_walking_begins(field, quadrant, depth, wedge);
        lemma_walk_opens(
            field,
            quadrant,
            depth,
            wedge,
            first_col(depth, wedge),
            wedge.start,
            Kind::Neither,
            0,
            slope,
            upper,
        );
        lemma_walk_sound(
            field,
            quadrant,
            depth,
            wedge,
            first_col(depth, wedge),
            wedge.start,
            Kind::Neither,
            0,
        );
        let i = choose|i: int|
            0 <= i < row.wedges.len() && holds(#[trigger] row.wedges[i], slope, upper);
        assert(good_row(field, quadrant, depth + 1, row.wedges[i]));
        assert forall|e: int| depth + 1 <= e < target implies kind_at(
            field,
            quadrant,
            e,
            #[trigger] tile_of(slope, e, upper),
        ) == Kind::Floor by {}
        lemma_scan_shows_wall(field, quadrant, depth + 1, row.wedges[i], target, slope, upper);
        lemma_scan_all_contains(field, quadrant, depth + 1, row.wedges, i, cell);
        let j = choose|j: int| 0 <= j < behind.len() && behind[j] == cell;
        assert(all[row.cells.len() + j] == cell);
    }
}

/// A wedge that holds a slope has it between its start and its end.
pub proof fn lemma_below_is_at_most_both(wedge: Wedge, slope: Ratio, upper: bool)
    requires
        holds(wedge, slope, upper),
    ensures
        at_most(wedge.start, slope),
        at_most(slope, wedge.end),
        start_before(wedge.start, slope, upper),
{
}

/// The quadrant that looks back.
pub open spec fn opposite(quadrant: Quadrant) -> Quadrant {
    match quadrant {
        Quadrant::North => Quadrant::South,
        Quadrant::South => Quadrant::North,
        Quadrant::East => Quadrant::West,
        Quadrant::West => Quadrant::East,
    }
}

/// The same grid seen from another origin.
pub open spec fn seen_from(field: Field, origin: Cell) -> Field {
    Field { origin, blocking: field.blocking, boundaries: field.boundaries }
}

/// The line from a tile back to the origin passes the tiles that the line
/// from the origin to the tile passes, on the same side.
pub proof fn lemma_tile_reversed(depth: int, col: int, e: int, upper: bool)
    requires
        1 <= e < depth,
    ensures
        tile_of(Ratio { num: -col, den: depth }, depth - e, upper) == tile_of(
            Ratio { num: col, den: depth },
            e,
            upper,
        ) - col,
{
    let forth = Ratio { num: col, den: depth };
    let back = Ratio { num: -col, den: depth };
    let k = tile_of(forth, e, upper);
    assert((2 * (k - col) - 1) * depth <= (-col) * (2 * (depth - e)) <==> (2 * k - 1) * depth
        <= col * (2 * e)) by (nonlinear_arith);
    assert((2 * (k - col + 1) - 1) * depth <= (-col) * (2 * (depth - e)) <==> (2 * (k + 1) - 1)
        * depth <= col * (2 * e)) by (nonlinear_arith);
    assert((-col) * (2 * (depth - e)) <= (2 * (k - col) - 1) * depth <==> col * (2 * e) <= (2 * k
        - 1) * depth) by (nonlinear_arith);
    assert((-col) * (2 * (depth - e)) <= (2 * (k - col + 1) - 1) * depth <==> col * (2 * e) <= (2
        * (k + 1) - 1) * depth) by (nonlinear_arith);
    if upper {
        lemma_upper_tile(forth, e, k);
        lemma_upper_tile(back, depth - e, k - col);
    } else {
        lemma_lower_tile(forth, e, k);
        lemma_lower_tile(back, depth - e, k - col);
    }
}

/// A clear line of sight is clear both ways: from the tile, in the opposite
/// quadrant, the origin has a clear line of sight too.
pub proof fn lemma_sightline_reverses(field: Field, quadrant: Quadrant, depth: int, col: int)
    requires
        depth >= 1,
        sightline(field, quadrant, depth, col),
    ensures
        sightline(
            seen_from(field, transform(quadrant, field.origin, depth, col)),
            opposite(quadrant),
            depth,
            -col,
        ),
        transform(
            opposite(quadrant),
            transform(quadrant, field.origin, depth, col),
            depth,
            -col,
        ) == field.origin,
{
    let there = transform(quadrant, field.origin, depth, col);
    let back = seen_from(field, there);
    let forth_slope = Ratio { num: col, den: depth };
    let back_slope = Ratio { num: -col, den: depth };
    let upper = clear(field, quadrant, forth_slope, depth, true);
    assert(clear(field, quadrant, forth_slope, depth, upper));
    assert forall|e: int| 1 <= e < depth implies kind_at(
        back,
        opposite(quadrant),
        e,
        #[trigger] tile_of(back_slope, e, upper),
    ) == Kind::Floor by {
        let f = depth - e;
        let k = tile_of(forth_slope, f, upper);
        lemma_tile_reversed(depth, col, f, upper);
        assert(kind_at(field, quadrant, f, k) == Kind::Floor);
        assert(transform(opposite(quadrant), there, e, k - col) == transform(
            quadrant,
            field.origin,
            f,
            k,
        ));
    }
    assert(clear(back, opposite(quadrant), back_slope, depth, upper));
}

/// A cell that one of the four sweeps shows is shown by the sweep of some
/// quadrant.
pub proof fn lemma_shown_in_quadrant(field: Field, cell: Cell) -> (quadrant: Quadrant)
    requires
        shown_cells(field).contains(cell),
    ensures
        sweep(field, quadrant).cells.contains(cell),
{
    let north = sweep(field, Quadrant::North).cells;
    let south = sweep(field, Quadrant::South).cells;
    let east = sweep(field, Quadrant::East).cells;
    let west = sweep(field, Quadrant::West).cells;
    let all = shown_cells(field);
    let i = choose|i: int| 0 <= i < all.len() && all[i] == cell;
    if i < north.len() {
        assert(north[i] == cell);
        Quadrant::North
    } else if i < north.len() + south.len() {
        assert(south[i - north.len()] == cell);
        Quadrant::South
    } else if i < north.len() + south.len() + east.len() {
        assert(east[i - north.len() - south.len()] == cell);
        Quadrant::East
    } else {
        assert(west[i - north.len() - south.len() - east.len()] == cell);
        Quadrant::West
    }
}

/// A cell that the sweep of a quadrant shows is among the cells that the four
/// sweeps show.
pub proof fn lemma_quadrant_is_shown(field: Field, quadrant: Quadrant, cell: Cell)
    requires
        sweep(field, quadrant).cells.contains(cell),
    ensures
        shown_cells(field).contains(cell),
{
    let north = sweep(field, Quadrant::North).cells;
    let south = sweep(field, Quadrant::South).cells;
    let east = sweep(field, Quadrant::East).cells;
    let west = sweep(field, Quadrant::West).cells;
    let all = shown_cells(field);
    let part = sweep(field, quadrant).cells;
    let i = choose|i: int| 0 <= i < part.len() && part[i] == cell;
    match quadrant {
        Quadrant::North => {
            assert(all[i] == cell);
        },
        Quadrant::South => {
            assert(all[north.len() + i] == cell);
        },
        Quadrant::East => {
            assert(all[north.len() + south.len() + i] == cell);
        },
        Quadrant::West => {
            assert(all[north.len() + south.len() + east.len() + i] == cell);
        },
    }
}

/// The grid is fit for looking from `origin`: it is closed, the origin is a
/// floor cell inside the boundaries, and no other cell inside the boundaries
/// shares its index.
pub open spec fn fit(field: Field) -> bool {
    &&& closed(field)
    &&& kind_of(field, field.origin) == Kind::Floor
    &&& within_boundaries(field.origin, field.boundaries)
    &&& unshared(field)
}

/// The cell lies in the quadrant and its line of sight from the origin is
/// clear.
pub open spec fn sees(field: Field, quadrant: Quadrant, cell: Cell) -> bool {
    let depth = depth_of(quadrant, field.origin, cell);
    let col = col_of(quadrant, field.origin, cell);
    &&& depth >= 1
    &&& -depth <= col <= depth
    &&& sightline(field, quadrant, depth, col)
}

/// The cell has a clear line of sight from the origin.
pub open spec fn in_sight(field: Field, cell: Cell) -> bool {
    exists|quadrant: Quadrant| #[trigger] sees(field, quadrant, cell)
}

/// A floor cell that the four sweeps of a fit grid show is in sight.
pub proof fn lemma_shown_is_in_sight(field: Field, cell: Cell)
    requires
        fit(field),
        kind_of(field, cell) == Kind::Floor,
        shown_cells(field).contains(cell),
    ensures
        in_sight(field, cell),
{
    let quadrant = lemma_shown_in_quadrant(field, cell);
    lemma_first_row_good(field, quadrant);
    lemma_scan_sound(field, quadrant, 1, full_wedge());
    let shown = sweep(field, quadrant).cells;
    let i = choose|i: int| 0 <= i < shown.len() && shown[i] == cell;
    assert(shown_well(field, quadrant, shown[i]));
    assert(sees(field, quadrant, cell));
}

/// A cell inside the boundaries that is in sight on a fit grid is shown by
/// one of the four sweeps.
pub proof fn lemma_in_sight_is_shown(field: Field, cell: Cell)
    requires
        fit(field),
        within_boundaries(cell, field.boundaries),
        in_sight(field, cell),
    ensures
        shown_cells(field).contains(cell),
{
    let quadrant = choose|quadrant: Quadrant| #[trigger] sees(field, quadrant, cell);
    let depth = depth_of(quadrant, field.origin, cell);
    let col = col_of(quadrant, field.origin, cell);
    let slope = Ratio { num: col, den: depth };
    let upper = clear(field, quadrant, slope, depth, true);
    assert(clear(field, quadrant, slope, depth, upper));
    assert(transform(quadrant, field.origin, depth, col) == cell);
    lemma_first_row_good(field, quadrant);
    assert(holds(full_wedge(), slope, upper)) by {
        assert((-1) * depth <= col * 1 && col * 1 <= 1 * depth) by (nonlinear_arith)
            requires
                -depth <= col <= depth,
        ;
        assert(1 * depth <= col * 1 <==> col >= depth) by (nonlinear_arith);
        assert(col * 1 <= (-1) * depth <==> col <= -depth) by (nonlinear_arith);
    }
    lemma_scan_shows(field, quadrant, 1, full_wedge(), depth, col, upper);
    lemma_quadrant_is_shown(field, quadrant, cell);
}

/// What is in sight one way is in sight the other way.
pub proof fn lemma_in_sight_reverses(field: Field, cell: Cell)
    requires
        in_sight(field, cell),
    ensures
        in_sight(seen_from(field, cell), field.origin),
{
    let quadrant = choose|quadrant: Quadrant| #[trigger] sees(field, quadrant, cell);
    let depth = depth_of(quadrant, field.origin, cell);
    let col = col_of(quadrant, field.origin, cell);
    assert(transform(quadrant, field.origin, depth, col) == cell);
    lemma_sightline_reverses(field, quadrant, depth, col);
    assert(sees(seen_from(field, cell), opposite(quadrant), field.origin));
}

/// What shadowcasting lights among the floor cells: on a fit grid, a floor
/// cell inside the boundaries, other than the origin and alone with its
/// index, is lit exactly if it lies in the circle and is in sight.
pub proof fn lemma_fov_lights_what_is_in_sight(
    origin: Point,
    target: Point,
    blocking: Seq<u8>,
    boundaries: Point,
    max_distance: i32,
)
    requires
        fit(field_of(origin, blocking, boundaries)),
        fit(field_of(target, blocking, boundaries)),
        origin@ != target@,
    ensures
        fov(origin, blocking, boundaries, max_distance)[cell_index(target@, boundaries)].num != 0
            <==> (within_circle(target@, origin@, max_distance as int) && in_sight(
            field_of(origin, blocking, boundaries),
            target@,
        )),
{
    let field = field_of(origin, blocking, boundaries);
    let radius = max_distance as int;
    let cells = shown_cells(field);
    let index = cell_index(target@, boundaries);
    assert(kind_of(field_of(target, blocking, boundaries), target@) == kind_of(field, target@));
    assert(index != cell_index(origin@, boundaries));
    assert(initial(field)[index].num == 0);
    if fov(origin, blocking, boundaries, max_distance)[index].num != 0 {
        lemma_paint_all_source(field, radius, initial(field), cells, index);
        let j = choose|j: int|
            0 <= j < cells.len() && lights(field, radius, #[trigger] cells[j]) && cell_index(
                cells[j],
                boundaries,
            ) == index;
        assert(cells[j] == target@);
        lemma_shown_is_in_sight(field, target@);
    }
    if within_circle(target@, origin@, radius) && in_sight(field, target@) {
        lemma_in_sight_is_shown(field, target@);
        let k = choose|k: int| 0 <= k < cells.len() && cells[k] == target@;
        lemma_paint_all_lit(field, radius, initial(field), cells, k);
    }
}

/// The cell lies in the quadrant and some clear line from the origin
/// reaches it.
pub open spec fn reached_in(field: Field, quadrant: Quadrant, cell: Cell) -> bool {
    let depth = depth_of(quadrant, field.origin, cell);
    let col = col_of(quadrant, field.origin, cell);
    &&& depth >= 1
    &&& reaches(field, quadrant, depth, col)
}

/// Some clear line from the origin reaches the cell.
pub open spec fn in_reach_of_sight(field: Field, cell: Cell) -> bool {
    exists|quadrant: Quadrant| #[trigger] reached_in(field, quadrant, cell)
}

/// What shadowcasting lights among the walls: on a fit grid, a wall inside
/// the boundaries, other than the origin and alone with its index, is lit
/// exactly if it lies in the circle and some clear line from the origin
/// reaches it.
pub proof fn lemma_fov_lights_walls_in_reach(
    origin: Point,
    target: Point,
    blocking: Seq<u8>,
    boundaries: Point,
    max_distance: i32,
)
    requires
        fit(field_of(origin, blocking, boundaries)),
        kind_of(field_of(origin, blocking, boundaries), target@) == Kind::Wall,
        within_boundaries(target@, boundaries),
        unshared(field_of(target, blocking, boundaries)),
        origin@ != target@,
    ensures
        fov(origin, blocking, boundaries, max_distance)[cell_index(target@, boundaries)].num != 0
            <==> (within_circle(target@, origin@, max_distance as int) && in_reach_of_sight(
            field_of(origin, blocking, boundaries),
            target@,
        )),
{
    let field = field_of(origin, blocking, boundaries);
    let radius = max_distance as int;
    let cells = shown_cells(field);
    let index = cell_index(target@, boundaries);
    assert(index != cell_index(origin@, boundaries));
    assert(initial(field)[index].num == 0);
    if fov(origin, blocking, boundaries, max_distance)[index].num != 0 {
        lemma_paint_all_source(field, radius, initial(field), cells, index);
        let j = choose|j: int|
            0 <= j < cells.len() && lights(field, radius, #[trigger] cells[j]) && cell_index(
                cells[j],
                boundaries,
            ) == index;
        assert(field_of(target, blocking, boundaries).boundaries == boundaries);
        assert(field_of(target, blocking, boundaries).origin == target@);
        assert(within_boundaries(cells[j], boundaries));
        assert(cells[j] == target@);
        let quadrant = lemma_shown_in_quadrant(field, target@);
        lemma_first_row_good(field, quadrant);
        lemma_scan_sound(field, quadrant, 1, full_wedge());
        let shown = sweep(field, quadrant).cells;
        let i = choose|i: int| 0 <= i < shown.len() && shown[i] == target@;
        assert(shown_well(field, quadrant, shown[i]));
        assert(reached_in(field, quadrant, target@));
    }
    if within_circle(target@, origin@, radius) && in_reach_of_sight(field, target@) {
        let quadrant = choose|quadrant: Quadrant| #[trigger] reached_in(field, quadrant, target@);
        let depth = depth_of(quadrant, field.origin, target@);
        let col = col_of(quadrant, field.origin, target@);
        let (slope, upper) = choose|slope: Ratio, upper: bool| #[trigger]
            touches(field, quadrant, depth, col, slope, upper);
        assert(transform(quadrant, field.origin, depth, col) == target@);
        lemma_first_row_good(field, quadrant);
        assert(holds(full_wedge(), slope, upper));
        lemma_scan_shows_wall(field, quadrant, 1, full_wedge(), depth, slope, upper);
        lemma_quadrant_is_shown(field, quadrant, target@);
        let k = choose|k: int| 0 <= k < cells.len() && cells[k] == target@;
        lemma_paint_all_lit(field, radius, initial(field), cells, k);
    }
}

/// The circle of a radius around one cell holds another cell exactly if the
/// circle around the other holds the one.
pub proof fn lemma_circle_mirrors(a: Cell, b: Cell, radius: int)
    ensures
        within_circle(a, b, radius) == within_circle(b, a, radius),
{
    assert(squared_distance(a, b) == squared_distance(b, a)) by (nonlinear_arith)
        requires
            squared_distance(a, b) == (a.x - b.x) * (a.x - b.x) + (a.y - b.y) * (a.y - b.y),
            squared_distance(b, a) == (b.x - a.x) * (b.x - a.x) + (b.y - a.y) * (b.y - a.y),
    ;
}

/// Shadowcasting is symmetric between floor cells: on a grid fit for both,
/// if the mask computed at `a` lights `b`, the mask computed at `b` with the
/// same radius lights `a`.
pub proof fn lemma_fov_symmetric(
    a: Point,
    b: Point,
    blocking: Seq<u8>,
    boundaries: Point,
    max_distance: i32,
)
    requires
        fit(field_of(a, blocking, boundaries)),
        fit(field_of(b, blocking, boundaries)),
        fov(a, blocking, boundaries, max_distance)[cell_index(b@, boundaries)].num != 0,
    ensures
        fov(b, blocking, boundaries, max_distance)[cell_index(a@, boundaries)].num != 0,
{
    let from_a = field_of(a, blocking, boundaries);
    let from_b = field_of(b, blocking, boundaries);
    if a@ == b@ {
        lemma_fov_origin(b, blocking, boundaries, max_distance);
    } else {
        lemma_fov_lights_what_is_in_sight(a, b, blocking, boundaries, max_distance);
        lemma_in_sight_reverses(from_a, b@);
        assert(seen_from(from_a, b@) == from_b);
        lemma_circle_mirrors(a@, b@, max_distance as int);
        lemma_fov_lights_what_is_in_sight(b, a, blocking, boundaries, max_distance);
    }
}

} // verus!
