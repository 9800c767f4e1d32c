//! Symmetric shadowcasting: rows of tiles swept outward in four quadrants,
//! narrowed by the walls they meet.

use vstd::prelude::*;
use crate::fraction::{round_ties_down, round_ties_up, scaled, ties_down, ties_up, Fraction, Ratio};
use crate::geometry::{cell_index, Cell, Point};

verus! {

/// One of the four directions in which rows are swept.
#[derive(Copy, Clone, Debug, PartialEq, Eq, Structural)]
pub enum Quadrant {
    North,
    South,
    East,
    West,
}

/// What a tile is to the sweep. A tile whose index falls outside the mask,
/// or whose blocking value is neither 0 nor 1, is neither wall nor floor.
#[derive(Copy, Clone, Debug, PartialEq, Eq, Structural)]
pub enum Kind {
    Wall,
    Floor,
    Neither,
}

/// A position in a quadrant: `depth` steps away from the origin along the
/// quadrant's axis, `col` steps across it.
#[derive(Copy, Clone, Debug, PartialEq, Eq, Structural)]
pub struct Tile {
    pub depth: i64,
    pub col: i64,
}

/// The part of a quadrant between two slopes.
pub struct Wedge {
    pub start: Ratio,
    pub end: Ratio,
}

/// A row of tiles at one depth, between two slopes.
#[derive(Copy, Clone, Debug, PartialEq, Eq, Structural)]
pub struct Row {
    pub depth: i64,
    pub start_slope: Fraction,
    pub end_slope: Fraction,
}

/// What a `Row` stands for.
pub struct Span {
    pub depth: int,
    pub wedge: Wedge,
}

impl View for Row {
    type V = Span;

    open spec fn view(&self) -> Span {
        Span {
            depth: self.depth as int,
            wedge: Wedge { start: self.start_slope@, end: self.end_slope@ },
        }
    }
}

/// The grid as the sweep sees it.
pub struct Field {
    pub origin: Cell,
    pub blocking: Seq<u8>,
    pub boundaries: Point,
}

/// The cell of the grid at a position of a quadrant.
pub open spec fn transform(quadrant: Quadrant, origin: Cell, depth: int, col: int) -> Cell {
    match quadrant {
        Quadrant::North => Cell { x: origin.x + col, y: origin.y - depth },
        Quadrant::South => Cell { x: origin.x + col, y: origin.y + depth },
        Quadrant::East => Cell { x: origin.x + depth, y: origin.y + col },
        Quadrant::West => Cell { x: origin.x - depth, y: origin.y + col },
    }
}

/// The depth of the last row of a quadrant that holds a cell inside the
/// boundaries. No deeper row can light a cell, and none is scanned.
pub open spec fn reach(quadrant: Quadrant, origin: Cell, boundaries: Point) -> int {
    match quadrant {
        Quadrant::North => origin.y,
        Quadrant::South => boundaries.y - origin.y,
        Quadrant::East => boundaries.x - origin.x,
        Quadrant::West => origin.x,
    }
}

/// What the cell is in a mask laid out by `boundaries`.
pub open spec fn kind_in(blocking: Seq<u8>, boundaries: Point, cell: Cell) -> Kind {
    let index = cell_index(cell, boundaries);
    if 0 <= index < blocking.len() {
        if blocking[index] == 1 {
            Kind::Wall
        } else if blocking[index] == 0 {
            Kind::Floor
        } else {
            Kind::Neither
        }
    } else {
        Kind::Neither
    }
}

/// What the cell is to the sweep.
pub open spec fn kind_of(field: Field, cell: Cell) -> Kind {
    kind_in(field.blocking, field.boundaries, cell)
}

/// The slope through the near edge of a tile: (2 col - 1) / (2 depth).
pub open spec fn slope_of(depth: int, col: int) -> Ratio {
    Ratio { num: 2 * col - 1, den: 2 * depth }
}

/// The centre of the tile lies between the two slopes of the wedge, ends
/// included. Both denominators are taken to be positive.
pub open spec fn symmetric(depth: int, wedge: Wedge, col: int) -> bool {
    &&& col * wedge.start.den >= depth * wedge.start.num
    &&& col * wedge.end.den <= depth * wedge.end.num
}

/// The first column of a row.
pub open spec fn first_col(depth: int, wedge: Wedge) -> int {
    ties_up(scaled(wedge.start, depth))
}

/// The last column of a row.
pub open spec fn last_col(depth: int, wedge: Wedge) -> int {
    ties_down(scaled(wedge.end, depth))
}

/// What one row gives: the cells it shows, in the order of its columns, and
/// the wedges of the rows behind it, in the order in which it opens them.
pub struct Walk {
    pub cells: Seq<Cell>,
    pub wedges: Seq<Wedge>,
}

/// The row walked from `col` to `last`, with `start` the slope it has been
/// narrowed to and `before` the kind of the tile before `col`.
///
/// A tile is shown if it is a wall or symmetric. A floor behind a wall
/// narrows the row to the slope of that floor tile. A wall behind a floor
/// opens the next row up to the slope of that wall tile. A row that ends on
/// floor opens the next row up to its own end.
pub open spec fn walk(
    field: Field,
    quadrant: Quadrant,
    depth: int,
    end: Ratio,
    last: int,
    col: int,
    start: Ratio,
    before: Kind,
) -> Walk
    decreases last - col + 1,
{
    if col > last {
        Walk {
            cells: Seq::empty(),
            wedges: if before == Kind::Floor {
                seq![Wedge { start, end }]
            } else {
                Seq::empty()
            },
        }
    } else {
        let cell = transform(quadrant, field.origin, depth, col);
        let kind = kind_of(field, cell);
        let shown = kind == Kind::Wall || symmetric(depth, Wedge { start, end }, col);
        let narrowed = if before == Kind::Wall && kind == Kind::Floor {
            slope_of(depth, col)
        } else {
            start
        };
        let rest = walk(field, quadrant, depth, end, last, col + 1, narrowed, kind);
        Walk {
            cells: if shown {
                seq![cell] + rest.cells
            } else {
                rest.cells
            },
            wedges: if before == Kind::Floor && kind == Kind::Wall {
                seq![Wedge { start, end: slope_of(depth, col) }] + rest.wedges
            } else {
                rest.wedges
            },
        }
    }
}

/// A whole row walked.
pub open spec fn walk_row(field: Field, quadrant: Quadrant, depth: int, wedge: Wedge) -> Walk {
    walk(
        field,
        quadrant,
        depth,
        wedge.end,
        last_col(depth, wedge),
        first_col(depth, wedge),
        wedge.start,
        Kind::Neither,
    )
}

/// What a sweep gives: the cells it shows, in order, and the number of rows
/// it takes up.
pub struct Sweep {
    pub cells: Seq<Cell>,
    pub rows: nat,
}

/// One sweep after another.
pub open spec fn chain(first: Sweep, second: Sweep) -> Sweep {
    Sweep { cells: first.cells + second.cells, rows: first.rows + second.rows }
}

/// How many depths are left to scan from `depth` on.
pub open spec fn depths_left(field: Field, quadrant: Quadrant, depth: int) -> nat {
    let left = reach(quadrant, field.origin, field.boundaries) - depth + 1;
    if left > 0 {
        left as nat
    } else {
        0
    }
}

/// The depth holds a row that is scanned.
pub open spec fn in_reach(field: Field, quadrant: Quadrant, depth: int) -> bool {
    1 <= depth <= reach(quadrant, field.origin, field.boundaries)
}

/// The sweep of a row and of all the rows behind it. The rows it opens are
/// swept last opened first, each with all that lies behind it.
pub open spec fn scan(field: Field, quadrant: Quadrant, depth: int, wedge: Wedge) -> Sweep
    decreases depths_left(field, quadrant, depth), 0nat,
{
    if !in_reach(field, quadrant, depth) {
        Sweep { cells: Seq::empty(), rows: 1 }
    } else {
        let row = walk_row(field, quadrant, depth, wedge);
        chain(
            Sweep { cells: row.cells, rows: 1 },
            scan_all(field, quadrant, depth + 1, row.wedges),
        )
    }
}

/// The sweeps of rows at one depth, the last one first.
pub open spec fn scan_all(field: Field, quadrant: Quadrant, depth: int, wedges: Seq<Wedge>) -> Sweep
    decreases depths_left(field, quadrant, depth), wedges.len() + 1,
{
    if wedges.len() == 0 {
        Sweep { cells: Seq::empty(), rows: 0 }
    } else {
        chain(
            scan(field, quadrant, depth, wedges.last()),
            scan_all(field, quadrant, depth, wedges.drop_last()),
        )
    }
}

/// The wedge of a whole quadrant: from slope -1 to slope 1.
pub open spec fn full_wedge() -> Wedge {
    Wedge { start: Ratio { num: -1, den: 1 }, end: Ratio { num: 1, den: 1 } }
}

/// The sweep of a quadrant.
pub open spec fn sweep(field: Field, quadrant: Quadrant) -> Sweep {
    scan(field, quadrant, 1, full_wedge())
}

/// The cells that the four quadrants show: north, south, east, west.
pub open spec fn shown_cells(field: Field) -> Seq<Cell> {
    sweep(field, Quadrant::North).cells + sweep(field, Quadrant::South).cells + sweep(
        field,
        Quadrant::East,
    ).cells + sweep(field, Quadrant::West).cells
}

/// The rows that wait to be swept, the last one first, each with all that
/// lies behind it.
pub open spec fn pending(field: Field, quadrant: Quadrant, stack: Seq<Span>) -> Sweep
    decreases stack.len(),
{
    if stack.len() == 0 {
        Sweep { cells: Seq::empty(), rows: 0 }
    } else {
        chain(
            scan(field, quadrant, stack.last().depth, stack.last().wedge),
            pending(field, quadrant, stack.drop_last()),
        )
    }
}

/// The rows at one depth that a sequence of wedges stands for.
pub open spec fn spans_at(depth: int, wedges: Seq<Wedge>) -> Seq<Span> {
    Seq::new(wedges.len(), |i: int| Span { depth, wedge: wedges[i] })
}

/// What a sequence of rows stands for.
pub open spec fn spans(rows: Seq<Row>) -> Seq<Span> {
    Seq::new(rows.len(), |i: int| rows[i]@)
}

/// Rows put on top of waiting rows are swept before them.
pub proof fn lemma_pending_concat(
    field: Field,
    quadrant: Quadrant,
    below: Seq<Span>,
    above: Seq<Span>,
)
    ensures
        pending(field, quadrant, below + above).cells == pending(field, quadrant, above).cells
            + pending(field, quadrant, below).cells,
        pending(field, quadrant, below + above).rows == pending(field, quadrant, above).rows
            + pending(field, quadrant, below).rows,
    decreases above.len(),
{
    if above.len() == 0 {
        assert(below + above =~= below);
    } else {
        let all = below + above;
        assert(all.last() == above.last());
        assert(all.drop_last() =~= below + above.drop_last());
        lemma_pending_concat(field, quadrant, below, above.drop_last());
        let top = scan(field, quadrant, above.last().depth, above.last().wedge);
        assert(pending(field, quadrant, all).cells =~= top.cells + (pending(
            field,
            quadrant,
            above.drop_last(),
        ).cells + pending(field, quadrant, below).cells));
    }
}

/// The rows that a row opens, waiting, are swept as `scan_all` sweeps them.
pub proof fn lemma_pending_spans_at(
    field: Field,
    quadrant: Quadrant,
    depth: int,
    wedges: Seq<Wedge>,
)
    ensures
        pending(field, quadrant, spans_at(depth, wedges)) == scan_all(
            field,
            quadrant,
            depth,
            wedges,
        ),
    decreases wedges.len(),
{
    if wedges.len() > 0 {
        let stack = spans_at(depth, wedges);
        assert(stack.drop_last() =~= spans_at(depth, wedges.drop_last()));
        assert(stack.last() == Span { depth, wedge: wedges.last() });
        lemma_pending_spans_at(field, quadrant, depth, wedges.drop_last());
    }
}

} // verus!
