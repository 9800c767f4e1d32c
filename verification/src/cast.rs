//! The sweep as it runs: rows taken from a stack, walked tile by tile, and
//! the cells they show painted into the mask.

use vstd::prelude::*;
use crate::fraction::{round_ties_down, round_ties_up, scaled, Fraction, Ratio};
use crate::geometry::{
    cell_index, index_of, widens, within_boundaries, within_circle, Cell, Point,
};
use crate::sight::{
    fit, in_reach_of_sight, in_sight, lemma_fov_lights_walls_in_reach,
    lemma_fov_lights_what_is_in_sight,
};
use crate::light::{
    explained, falloff, field_of, full, initial, lemma_falloff_in_circle, lemma_paint_all_concat,
    lemma_paint_all_explained, lemma_paint_all_push, lemma_paint_all_spares,
    lemma_paint_all_widens, lights, lit_by, paint_all, paint_cell, ratios, shade_explained,
};
use crate::shadow::{
    depths_left, first_col, full_wedge, in_reach, kind_in, last_col, lemma_pending_concat,
    lemma_pending_spans_at, pending, reach, scan, scan_all, shown_cells, slope_of, spans,
    kind_of, spans_at, sweep, symmetric, transform, walk, walk_row, Field, Kind, Quadrant, Row,
    Span, Tile, Wedge,
};

verus! {

/// A slope between -1 and 1 with a positive denominator of bounded size.
pub open spec fn slope_like(ratio: Ratio) -> bool {
    &&& 0 < ratio.den <= 0x10_0000_0000
    &&& -ratio.den <= ratio.num <= ratio.den
}

/// The columns of a row of slopes between -1 and 1 lie between minus its
/// depth and its depth.
pub proof fn lemma_col_in_row(depth: int, ratio: Ratio, k: int)
    requires
        depth >= 1,
        ratio.den > 0,
        -ratio.den <= ratio.num <= ratio.den,
        (2 * k - 1) * ratio.den <= 2 * (depth * ratio.num) <= (2 * k + 1) * ratio.den,
    ensures
        -depth <= k <= depth,
{
    let n = ratio.num;
    let d = ratio.den;
    assert(-(depth * d) <= depth * n <= depth * d) by (nonlinear_arith)
        requires
            depth >= 1,
            -d <= n <= d,
    ;
    assert(k <= depth) by (nonlinear_arith)
        requires
            (2 * k - 1) * d <= 2 * (depth * d),
            d > 0,
    ;
    assert(k >= -depth) by (nonlinear_arith)
        requires
            -2 * (depth * d) <= (2 * k + 1) * d,
            d > 0,
    ;
}

impl Row {
    /// The row can be walked: its depth and its slopes are of bounded size.
    pub open spec fn wf(&self) -> bool {
        &&& 1 <= self.depth <= 0x1_0000_0000
        &&& slope_like(self.start_slope@)
        &&& slope_like(self.end_slope@)
    }

    /// The row at `depth` between the two slopes.
    pub fn new(depth: i64, start_slope: Fraction, end_slope: Fraction) -> (row: Row)
        ensures
            row.depth == depth,
            row.start_slope == start_slope,
            row.end_slope == end_slope,
    {
        Row { depth, start_slope, end_slope }
    }

    /// The row behind this one, between the same slopes.
    pub fn next(&self) -> (row: Row)
        requires
            self.depth < i64::MAX,
        ensures
            row.depth == self.depth + 1,
            row.start_slope == self.start_slope,
            row.end_slope == self.end_slope,
    {
        Row::new(self.depth + 1, self.start_slope, self.end_slope)
    }

    /// The first column of the row: its start slope times its depth, a half
    /// rounded up.
    pub fn min_col(&self) -> (col: i64)
        requires
            self.wf(),
        ensures
            col == first_col(self.depth as int, self@.wedge),
            -self.depth <= col <= self.depth,
    {
        let product = self.start_slope.times_depth(self.depth);
        let col = round_ties_up(product);
        proof {
            lemma_col_in_row(self.depth as int, self.start_slope@, col as int);
        }
        col as i64
    }

    /// The last column of the row: its end slope times its depth, a half
    /// rounded down.
    pub fn max_col(&self) -> (col: i64)
        requires
            self.wf(),
        ensures
            col == last_col(self.depth as int, self@.wedge),
            -self.depth <= col <= self.depth,
    {
        let product = self.end_slope.times_depth(self.depth);
        let col = round_ties_down(product);
        proof {
            lemma_col_in_row(self.depth as int, self.end_slope@, col as int);
        }
        col as i64
    }

    /// The tiles of the row, from its first column to its last.
    pub fn tiles(&self) -> (tiles: Vec<Tile>)
        requires
            self.wf(),
            2 * self.depth + 1 <= usize::MAX,
        ensures
            tiles@ == row_tiles(*self),
    {
        let first = self.min_col();
        let last = self.max_col();
        let mut tiles: Vec<Tile> = Vec::new();
        let mut col = first;
        while col <= last
            invariant
                first <= col,
                col <= last + 1 || col == first,
                -self.depth <= first,
                last <= self.depth,
                1 <= self.depth <= 0x1_0000_0000,
                first == first_col(self.depth as int, self@.wedge),
                last == last_col(self.depth as int, self@.wedge),
                tiles.len() == col - first,
                forall|i: int|
                    0 <= i < tiles.len() ==> #[trigger] tiles[i] == (Tile {
                        depth: self.depth,
                        col: (first + i) as i64,
                    }),
            decreases last - col + 1,
        {
            tiles.push(Tile { depth: self.depth, col });
            col = col + 1;
        }
        assert(tiles@ =~= row_tiles(*self));
        tiles
    }
}

/// The tiles of a row, in the order of its columns.
pub open spec fn row_tiles(row: Row) -> Seq<Tile> {
    let first = first_col(row.depth as int, row@.wedge);
    let last = last_col(row.depth as int, row@.wedge);
    Seq::new(
        if last >= first {
            (last - first + 1) as nat
        } else {
            0
        },
        |i: int| Tile { depth: row.depth, col: (first + i) as i64 },
    )
}

impl Fraction {
    /// The fraction times a depth; the sizes of a row rule out an overflow.
    pub fn times_depth(&self, multiplier: i64) -> (product: Fraction)
        requires
            slope_like(self@),
            1 <= multiplier <= 0x1_0000_0000,
        ensures
            product@ == scaled(self@, multiplier as int),
            crate::fraction::roundable(product@),
    {
        assert(-0x10_0000_0000_0000_0000 <= multiplier * self.numerator
            <= 0x10_0000_0000_0000_0000) by (nonlinear_arith)
            requires
                1 <= multiplier <= 0x1_0000_0000,
                -0x10_0000_0000 <= self.numerator <= 0x10_0000_0000,
        ;
        self.multiply(multiplier)
    }
}

/// The slope through the near edge of a tile.
pub fn slope(tile: &Tile) -> (fraction: Fraction)
    ensures
        fraction@ == slope_of(tile.depth as int, tile.col as int),
{
    Fraction::new(2 * (tile.col as i128) - 1, 2 * (tile.depth as i128))
}

/// The centre of the tile lies between the slopes of the row, ends included.
pub fn is_symmetric(row: &Row, tile: &Tile) -> (inside: bool)
    requires
        row.wf(),
    ensures
        inside == symmetric(row.depth as int, row@.wedge, tile.col as int),
{
    let col: i128 = tile.col as i128;
    let depth: i128 = row.depth as i128;
    assert(-0x1_0000_0000_0000_0000_0000_0000_0000 <= col * row.start_slope.denominator
        <= 0x1_0000_0000_0000_0000_0000_0000_0000) by (nonlinear_arith)
        requires
            -0x8000_0000_0000_0000 <= col <= 0x8000_0000_0000_0000,
            0 < row.start_slope.denominator <= 0x10_0000_0000,
    ;
    assert(-0x1_0000_0000_0000_0000_0000_0000_0000 <= col * row.end_slope.denominator
        <= 0x1_0000_0000_0000_0000_0000_0000_0000) by (nonlinear_arith)
        requires
            -0x8000_0000_0000_0000 <= col <= 0x8000_0000_0000_0000,
            0 < row.end_slope.denominator <= 0x10_0000_0000,
    ;
    assert(-0x1_0000_0000_0000_0000_0000 <= depth * row.start_slope.numerator
        <= 0x1_0000_0000_0000_0000_0000) by (nonlinear_arith)
        requires
            1 <= depth <= 0x1_0000_0000,
            -0x10_0000_0000 <= row.start_slope.numerator <= 0x10_0000_0000,
    ;
    assert(-0x1_0000_0000_0000_0000_0000 <= depth * row.end_slope.numerator
        <= 0x1_0000_0000_0000_0000_0000) by (nonlinear_arith)
        requires
            1 <= depth <= 0x1_0000_0000,
            -0x10_0000_0000 <= row.end_slope.numerator <= 0x10_0000_0000,
    ;
    col * row.start_slope.denominator >= depth * row.start_slope.numerator && col
        * row.end_slope.denominator <= depth * row.end_slope.numerator
}

/// The depth of the last row of a quadrant that is scanned.
pub fn reach_of(quadrant: Quadrant, origin: &Point, boundaries: &Point) -> (limit: i64)
    ensures
        limit == reach(quadrant, origin@, *boundaries),
        limit <= 0xffff_ffff,
{
    match quadrant {
        Quadrant::North => origin.y as i64,
        Quadrant::South => boundaries.y as i64 - origin.y as i64,
        Quadrant::East => boundaries.x as i64 - origin.x as i64,
        Quadrant::West => origin.x as i64,
    }
}

/// What the cell at a tile of a quadrant is to the sweep, with the cell's
/// coordinates.
pub fn tile_kind(
    quadrant: Quadrant,
    origin: &Point,
    blocking: &Vec<u8>,
    boundaries: &Point,
    tile: &Tile,
) -> (seen: (Kind, i64, i64))
    requires
        -0x1_0000_0000 <= tile.depth <= 0x1_0000_0000,
        -0x1_0000_0000 <= tile.col <= 0x1_0000_0000,
    ensures
        (Cell { x: seen.1 as int, y: seen.2 as int }) == transform(
            quadrant,
            origin@,
            tile.depth as int,
            tile.col as int,
        ),
        seen.0 == kind_in(blocking@, *boundaries, Cell { x: seen.1 as int, y: seen.2 as int }),
{
    let ox: i64 = origin.x as i64;
    let oy: i64 = origin.y as i64;
    let (x, y): (i64, i64) = match quadrant {
        Quadrant::North => (ox + tile.col, oy - tile.depth),
        Quadrant::South => (ox + tile.col, oy + tile.depth),
        Quadrant::East => (ox + tile.depth, oy + tile.col),
        Quadrant::West => (ox - tile.depth, oy + tile.col),
    };
    let stride: i128 = boundaries.x as i128;
    assert(-0x1_0000_0000_0000_0000 <= y * stride <= 0x1_0000_0000_0000_0000) by (nonlinear_arith)
        requires
            -0x2_0000_0000 <= y <= 0x2_0000_0000,
            -0x8000_0000 <= stride < 0x8000_0000,
    ;
    let index: i128 = (x as i128) + (y as i128) * stride;
    let kind = if index >= 0 && index < (blocking.len() as i128) {
        let value = blocking[index as usize];
        if value == 1 {
            Kind::Wall
        } else if value == 0 {
            Kind::Floor
        } else {
            Kind::Neither
        }
    } else {
        Kind::Neither
    };
    (kind, x, y)
}

/// A row opened at `depth` and put on the stack joins the rows opened
/// before it.
proof fn lemma_spans_push(
    stack: Seq<Row>,
    opening: Row,
    waiting: Seq<Span>,
    depth: int,
    opened: Seq<Wedge>,
    wedge: Wedge,
)
    requires
        spans(stack) == waiting + spans_at(depth, opened),
        opening@ == (Span { depth, wedge }),
    ensures
        spans(stack.push(opening)) == waiting + spans_at(depth, opened.push(wedge)),
{
    let before = spans(stack);
    let after = spans(stack.push(opening));
    let target = waiting + spans_at(depth, opened.push(wedge));
    assert(before.len() == stack.len());
    assert(before.len() == waiting.len() + spans_at(depth, opened).len());
    assert(spans_at(depth, opened).len() == opened.len());
    assert(after.len() == target.len());
    assert forall|i: int| 0 <= i < after.len() implies after[i] == target[i] by {
        if i < stack.len() {
            assert(after[i] == before[i]);
        }
    }
    assert(after =~= target);
}

/// Every row of the stack can be walked.
pub open spec fn all_wf(rows: Seq<Row>) -> bool {
    forall|i: int| 0 <= i < rows.len() ==> (#[trigger] rows[i]).wf()
}

/// Walks one row: paints the cells it shows and puts the rows it opens on
/// the stack, in the order in which it opens them.
pub fn scan_row(
    quadrant: Quadrant,
    origin: &Point,
    blocking: &Vec<u8>,
    boundaries: &Point,
    max_distance: i32,
    row: Row,
    rows: &mut Vec<Row>,
    visibles: &mut Vec<Fraction>,
)
    requires
        row.wf(),
        row.depth <= 0xffff_ffff,
        all_wf(old(rows)@),
        blocking.len() == old(visibles).len(),
    ensures
        ({
            let field = field_of(*origin, blocking@, *boundaries);
            let walked = walk_row(field, quadrant, row.depth as int, row@.wedge);
            &&& spans(final(rows)@) == spans(old(rows)@) + spans_at(row.depth + 1, walked.wedges)
            &&& ratios(final(visibles)@) == paint_all(
                field,
                max_distance as int,
                ratios(old(visibles)@),
                walked.cells,
            )
            &&& final(visibles).len() == old(visibles).len()
            &&& all_wf(final(rows)@)
        }),
{
    let ghost field = field_of(*origin, blocking@, *boundaries);
    let ghost radius = max_distance as int;
    let ghost depth = row.depth as int;
    let ghost end = row.end_slope@;
    let ghost whole = walk_row(field, quadrant, depth, row@.wedge);
    let ghost shades = ratios(visibles@);
    let ghost waiting = spans(rows@);
    let first = row.min_col();
    let last = row.max_col();
    let mut col = first;
    let mut start = row.start_slope;
    let mut before = Kind::Neither;
    let ghost mut shown: Seq<Cell> = Seq::empty();
    let ghost mut opened: Seq<Wedge> = Seq::empty();
    assert(spans(rows@) =~= waiting + spans_at(depth + 1, opened));
    assert(whole.cells =~= shown + whole.cells);
    assert(whole.wedges =~= opened + whole.wedges);
    while col <= last
        invariant
            field == field_of(*origin, blocking@, *boundaries),
            radius == max_distance as int,
            depth == row.depth,
            end == row.end_slope@,
            row.wf(),
            row.depth <= 0xffff_ffff,
            first <= col,
            col <= last + 1 || col == first,
            -depth <= first,
            last <= depth,
            slope_like(start@),
            before != Kind::Neither ==> col > first,
            whole.cells == shown + walk(
                field,
                quadrant,
                depth,
                end,
                last as int,
                col as int,
                start@,
                before,
            ).cells,
            whole.wedges == opened + walk(
                field,
                quadrant,
                depth,
                end,
                last as int,
                col as int,
                start@,
                before,
            ).wedges,
            ratios(visibles@) == paint_all(field, radius, shades, shown),
            visibles.len() == blocking.len(),
            spans(rows@) == waiting + spans_at(depth + 1, opened),
            all_wf(rows@),
        decreases last - col + 1,
    {
        let tile = Tile { depth: row.depth, col };
        let (kind, x, y) = tile_kind(quadrant, origin, blocking, boundaries, &tile);
        let current = Row::new(row.depth, start, row.end_slope);
        let ghost cell = Cell { x: x as int, y: y as int };
        let ghost here = walk(field, quadrant, depth, end, last as int, col as int, start@, before);
        let ghost narrowed = if before == Kind::Wall && kind == Kind::Floor {
            slope_of(depth, col as int)
        } else {
            start@
        };
        let ghost rest = walk(
            field,
            quadrant,
            depth,
            end,
            last as int,
            col + 1,
            narrowed,
            kind,
        );
        assert(current@.wedge == Wedge { start: start@, end });
        if matches!(kind, Kind::Wall) || is_symmetric(&current, &tile) {
            paint_cell(x, y, origin, blocking, boundaries, max_distance, visibles);
            proof {
                lemma_paint_all_push(field, radius, shades, shown, cell);
                assert(shown + here.cells =~= shown.push(cell) + rest.cells);
                shown = shown.push(cell);
            }
        }
        if matches!(before, Kind::Floor) && matches!(kind, Kind::Wall) {
            let mut opening = current.next();
            opening.end_slope = slope(&tile);
            let ghost wedge = Wedge { start: start@, end: slope_of(depth, col as int) };
            let ghost stack = rows@;
            rows.push(opening);
            proof {
                assert(opening@ == Span { depth: depth + 1, wedge });
                lemma_spans_push(stack, opening, waiting, depth + 1, opened, wedge);
                assert(opened + here.wedges =~= opened.push(wedge) + rest.wedges);
                opened = opened.push(wedge);
                assert forall|i: int| 0 <= i < rows.len() implies (#[trigger] rows[i]).wf() by {
                    if i < stack.len() {
                        assert(stack[i].wf());
                    }
                }
            }
        }
        if matches!(before, Kind::Wall) && matches!(kind, Kind::Floor) {
            start = slope(&tile);
        }
        before = kind;
        col = col + 1;
    }
    if matches!(before, Kind::Floor) {
        let opening = Row::new(row.depth + 1, start, row.end_slope);
        let ghost wedge = Wedge { start: start@, end };
        let ghost stack = rows@;
        rows.push(opening);
        proof {
            assert(opening@ == Span { depth: depth + 1, wedge });
            lemma_spans_push(stack, opening, waiting, depth + 1, opened, wedge);
            assert(whole.wedges =~= opened.push(wedge));
            assert forall|i: int| 0 <= i < rows.len() implies (#[trigger] rows[i]).wf() by {
                if i < stack.len() {
                    assert(stack[i].wf());
                }
            }
        }
    } else {
        assert(whole.wedges =~= opened);
    }
    assert(whole.cells =~= shown);
}

/// Sweeps one quadrant: rows are taken from a stack, the last one put
/// there first, until none is left.
pub fn cast_quadrant(
    quadrant: Quadrant,
    origin: &Point,
    blocking: &Vec<u8>,
    boundaries: &Point,
    max_distance: i32,
    visibles: &mut Vec<Fraction>,
)
    requires
        blocking.len() == old(visibles).len(),
    ensures
        ratios(final(visibles)@) == paint_all(
            field_of(*origin, blocking@, *boundaries),
            max_distance as int,
            ratios(old(visibles)@),
            sweep(field_of(*origin, blocking@, *boundaries), quadrant).cells,
        ),
        final(visibles).len() == old(visibles).len(),
{
    let ghost field = field_of(*origin, blocking@, *boundaries);
    let ghost radius = max_distance as int;
    let ghost shades = ratios(visibles@);
    let limit = reach_of(quadrant, origin, boundaries);
    let mut rows: Vec<Row> = Vec::new();
    rows.push(Row::new(1, Fraction::new(-1, 1), Fraction::new(1, 1)));
    let ghost mut done: Seq<Cell> = Seq::empty();
    proof {
        assert(spans(rows@) =~= seq![Span { depth: 1, wedge: full_wedge() }]);
        let stack = spans(rows@);
        assert(stack.drop_last() =~= Seq::<Span>::empty());
        assert(pending(field, quadrant, stack.drop_last()).rows == 0);
        assert(pending(field, quadrant, stack).cells =~= sweep(field, quadrant).cells);
        assert(done + pending(field, quadrant, stack).cells =~= sweep(field, quadrant).cells);
    }
    while rows.len() > 0
        invariant
            field == field_of(*origin, blocking@, *boundaries),
            radius == max_distance as int,
            limit == reach(quadrant, origin@, *boundaries),
            limit <= 0xffff_ffff,
            all_wf(rows@),
            visibles.len() == blocking.len(),
            done + pending(field, quadrant, spans(rows@)).cells == sweep(field, quadrant).cells,
            ratios(visibles@) == paint_all(field, radius, shades, done),
        decreases pending(field, quadrant, spans(rows@)).rows,
    {
        let ghost stack = spans(rows@);
        let ghost lower = rows@.drop_last();
        let row = rows.pop().unwrap();
        proof {
            assert(rows@ =~= lower);
            assert(stack.last() == row@);
            assert(stack.drop_last() =~= spans(rows@));
            assert(row.wf());
            assert forall|i: int| 0 <= i < rows.len() implies (#[trigger] rows[i]).wf() by {
                assert(rows[i] == lower[i]);
            }
        }
        if row.depth <= limit {
            let ghost walked = walk_row(field, quadrant, row.depth as int, row@.wedge);
            let ghost under = spans(rows@);
            scan_row(quadrant, origin, blocking, boundaries, max_distance, row, &mut rows, visibles);
            proof {
                assert(in_reach(field, quadrant, row.depth as int));
                lemma_pending_concat(
                    field,
                    quadrant,
                    under,
                    spans_at(row.depth + 1, walked.wedges),
                );
                lemma_pending_spans_at(field, quadrant, row.depth + 1, walked.wedges);
                lemma_paint_all_concat(field, radius, shades, done, walked.cells);
                assert((done + walked.cells) + pending(field, quadrant, spans(rows@)).cells
                    =~= done + pending(field, quadrant, stack).cells);
                done = done + walked.cells;
            }
        }
    }
    proof {
        assert(spans(rows@) =~= Seq::<Span>::empty());
        assert(done =~= sweep(field, quadrant).cells);
    }
}

/// The mask that the sweep of the four quadrants gives.
pub open spec fn fov(origin: Point, blocking: Seq<u8>, boundaries: Point, max_distance: i32) -> Seq<
    Ratio,
> {
    let field = field_of(origin, blocking, boundaries);
    paint_all(field, max_distance as int, initial(field), shown_cells(field))
}

/// The cell lies on the far side of the origin in the quadrant's direction.
pub open spec fn away(quadrant: Quadrant, origin: Cell, cell: Cell) -> bool {
    match quadrant {
        Quadrant::North => cell.y < origin.y,
        Quadrant::South => cell.y > origin.y,
        Quadrant::East => cell.x > origin.x,
        Quadrant::West => cell.x < origin.x,
    }
}

/// None of the cells is the origin.
pub open spec fn off_origin(origin: Cell, cells: Seq<Cell>) -> bool {
    forall|i: int| 0 <= i < cells.len() ==> #[trigger] cells[i] != origin
}

/// A row at depth 1 or more shows no cell that is the origin.
pub proof fn lemma_walk_off_origin(
    field: Field,
    quadrant: Quadrant,
    depth: int,
    end: Ratio,
    last: int,
    col: int,
    start: Ratio,
    before: Kind,
)
    requires
        depth >= 1,
    ensures
        off_origin(field.origin, walk(field, quadrant, depth, end, last, col, start, before).cells),
    decreases last - col + 1,
{
    if col <= last {
        let cell = transform(quadrant, field.origin, depth, col);
        let kind = crate::shadow::kind_of(field, cell);
        let narrowed = if before == Kind::Wall && kind == Kind::Floor {
            slope_of(depth, col)
        } else {
            start
        };
        lemma_walk_off_origin(field, quadrant, depth, end, last, col + 1, narrowed, kind);
        assert(away(quadrant, field.origin, cell));
    }
}

/// A sweep shows no cell that is the origin.
pub proof fn lemma_scan_off_origin(field: Field, quadrant: Quadrant, depth: int, wedge: Wedge)
    ensures
        off_origin(field.origin, scan(field, quadrant, depth, wedge).cells),
    decreases depths_left(field, quadrant, depth), 0nat,
{
    if in_reach(field, quadrant, depth) {
        let row = walk_row(field, quadrant, depth, wedge);
        lemma_walk_off_origin(
            field,
            quadrant,
            depth,
            wedge.end,
            last_col(depth, wedge),
            first_col(depth, wedge),
            wedge.start,
            Kind::Neither,
        );
        lemma_scan_all_off_origin(field, quadrant, depth + 1, row.wedges);
    }
}

/// Sweeps at one depth show no cell that is the origin.
pub proof fn lemma_scan_all_off_origin(
    field: Field,
    quadrant: Quadrant,
    depth: int,
    wedges: Seq<Wedge>,
)
    ensures
        off_origin(field.origin, scan_all(field, quadrant, depth, wedges).cells),
    decreases depths_left(field, quadrant, depth), wedges.len() + 1,
{
    if wedges.len() > 0 {
        lemma_scan_off_origin(field, quadrant, depth, wedges.last());
        lemma_scan_all_off_origin(field, quadrant, depth, wedges.drop_last());
    }
}

/// No other cell inside the boundaries has the index of the origin.
pub open spec fn unshared(field: Field) -> bool {
    forall|cell: Cell|
        within_boundaries(cell, field.boundaries) && #[trigger] cell_index(cell, field.boundaries)
            == cell_index(field.origin, field.boundaries) ==> cell == field.origin
}

/// The origin is always lit: where its index lies in the mask and no other
/// cell inside the boundaries shares it, the mask holds the full value there.
pub proof fn lemma_fov_origin(origin: Point, blocking: Seq<u8>, boundaries: Point, max_distance: i32)
    requires
        0 <= cell_index(origin@, boundaries) < blocking.len(),
        unshared(field_of(origin, blocking, boundaries)),
    ensures
        fov(origin, blocking, boundaries, max_distance)[cell_index(origin@, boundaries)] == full(),
{
    let field = field_of(origin, blocking, boundaries);
    let cells = shown_cells(field);
    lemma_scan_off_origin(field, Quadrant::North, 1, full_wedge());
    lemma_scan_off_origin(field, Quadrant::South, 1, full_wedge());
    lemma_scan_off_origin(field, Quadrant::East, 1, full_wedge());
    lemma_scan_off_origin(field, Quadrant::West, 1, full_wedge());
    assert(off_origin(field.origin, cells));
    let index = cell_index(origin@, boundaries);
    assert forall|j: int|
        0 <= j < cells.len() && lights(
            field,
            max_distance as int,
            #[trigger] cells[j],
        ) implies cell_index(cells[j], field.boundaries) != index by {
        assert(cells[j] != field.origin);
    }
    lemma_paint_all_spares(field, max_distance as int, initial(field), cells, index);
}

/// Every entry of the mask is dark, or the full value at the origin's
/// index, or the falloff of a cell with that index that lies inside the
/// boundaries and the circle.
pub proof fn lemma_fov_explained(
    origin: Point,
    blocking: Seq<u8>,
    boundaries: Point,
    max_distance: i32,
)
    ensures
        explained(
            field_of(origin, blocking, boundaries),
            max_distance as int,
            fov(origin, blocking, boundaries, max_distance),
        ),
{
    let field = field_of(origin, blocking, boundaries);
    lemma_paint_all_explained(field, max_distance as int, initial(field), shown_cells(field));
}

/// A radius that widens another takes no lit cell away: an entry that is
/// not 0 with the narrow radius is not 0 with the wide one.
pub proof fn lemma_fov_widens(
    origin: Point,
    blocking: Seq<u8>,
    boundaries: Point,
    narrow: i32,
    wide: i32,
    index: int,
)
    requires
        widens(narrow as int, wide as int),
        0 <= index < blocking.len(),
        fov(origin, blocking, boundaries, narrow)[index].num != 0,
    ensures
        fov(origin, blocking, boundaries, wide)[index].num != 0,
{
    let field = field_of(origin, blocking, boundaries);
    lemma_paint_all_widens(
        field,
        narrow as int,
        wide as int,
        initial(field),
        initial(field),
        shown_cells(field),
    );
}

/// With a positive radius every entry of the mask lies between 0 and 1,
/// both included; a lit entry lies above 0.
pub proof fn lemma_fov_range(
    origin: Point,
    blocking: Seq<u8>,
    boundaries: Point,
    max_distance: i32,
    index: int,
)
    requires
        max_distance > 0,
        0 <= index < blocking.len(),
    ensures
        fov(origin, blocking, boundaries, max_distance)[index].den > 0,
        0 <= fov(origin, blocking, boundaries, max_distance)[index].num <= fov(
            origin,
            blocking,
            boundaries,
            max_distance,
        )[index].den,
{
    let field = field_of(origin, blocking, boundaries);
    let radius = max_distance as int;
    let shade = fov(origin, blocking, boundaries, max_distance)[index];
    lemma_fov_explained(origin, blocking, boundaries, max_distance);
    assert(shade_explained(field, radius, index, shade));
    if lit_by(field, radius, index, shade) {
        let cell = choose|cell: Cell| #[trigger]
            lights(field, radius, cell) && cell_index(cell, field.boundaries) == index && shade
                == falloff(field.origin, cell, radius);
        lemma_falloff_in_circle(field.origin, cell, radius);
    }
}

/// Computes the field of view from `origin` by symmetric shadowcasting.
/// Each entry of the mask is 0 for a cell that is not lit, 1 for the
/// origin, and for any other lit cell the falloff of its distance.
pub fn compute_fov(origin: Point, blocking: Vec<u8>, boundaries: Point, max_distance: i32) -> (visibles:
    Vec<Fraction>)
    ensures
        ratios(visibles@) == fov(origin, blocking@, boundaries, max_distance),
        visibles.len() == blocking.len(),
        explained(field_of(origin, blocking@, boundaries), max_distance as int, ratios(visibles@)),
        0 <= cell_index(origin@, boundaries) < blocking.len() && unshared(
            field_of(origin, blocking@, boundaries),
        ) ==> visibles[cell_index(origin@, boundaries)]@ == full(),
        fit(field_of(origin, blocking@, boundaries)) ==> forall|target: Point|
            fit(#[trigger] field_of(target, blocking@, boundaries)) && target@ != origin@ ==> (
            visibles[cell_index(target@, boundaries)].numerator != 0 <==> (within_circle(
                target@,
                origin@,
                max_distance as int,
            ) && in_sight(field_of(origin, blocking@, boundaries), target@))),
        fit(field_of(origin, blocking@, boundaries)) ==> forall|target: Point|
            kind_of(field_of(origin, blocking@, boundaries), target@) == Kind::Wall
                && within_boundaries(target@, boundaries) && unshared(
                #[trigger] field_of(target, blocking@, boundaries),
            ) && target@ != origin@ ==> (visibles[cell_index(target@, boundaries)].numerator != 0
                <==> (within_circle(target@, origin@, max_distance as int) && in_reach_of_sight(
                field_of(origin, blocking@, boundaries),
                target@,
            ))),
{
    let ghost field = field_of(origin, blocking@, boundaries);
    let ghost radius = max_distance as int;
    let mut visibles: Vec<Fraction> = vec![Fraction::new(0, 1); blocking.len()];
    let index = index_of(&origin, &boundaries);
    if index >= 0 && (index as u64) < (blocking.len() as u64) {
        visibles.set(index as usize, Fraction::new(1, 1));
    }
    assert(ratios(visibles@) =~= initial(field));
    let ghost north = sweep(field, Quadrant::North).cells;
    let ghost south = sweep(field, Quadrant::South).cells;
    let ghost east = sweep(field, Quadrant::East).cells;
    let ghost west = sweep(field, Quadrant::West).cells;
    cast_quadrant(Quadrant::North, &origin, &blocking, &boundaries, max_distance, &mut visibles);
    cast_quadrant(Quadrant::South, &origin, &blocking, &boundaries, max_distance, &mut visibles);
    cast_quadrant(Quadrant::East, &origin, &blocking, &boundaries, max_distance, &mut visibles);
    cast_quadrant(Quadrant::West, &origin, &blocking, &boundaries, max_distance, &mut visibles);
    proof {
        lemma_paint_all_concat(field, radius, initial(field), north, south);
        lemma_paint_all_concat(field, radius, initial(field), north + south, east);
        lemma_paint_all_concat(field, radius, initial(field), north + south + east, west);
        lemma_fov_explained(origin, blocking@, boundaries, max_distance);
        if 0 <= cell_index(origin@, boundaries) < blocking.len() && unshared(field) {
            lemma_fov_origin(origin, blocking@, boundaries, max_distance);
            assert(ratios(visibles@)[cell_index(origin@, boundaries)] == full());
        }
        if fit(field) {
            assert forall|target: Point|
                fit(#[trigger] field_of(target, blocking@, boundaries)) && target@
                    != origin@ implies (visibles[cell_index(target@, boundaries)].numerator != 0
                <==> (within_circle(target@, origin@, max_distance as int) && in_sight(
                field,
                target@,
            ))) by {
                lemma_fov_lights_what_is_in_sight(
                    origin,
                    target,
                    blocking@,
                    boundaries,
                    max_distance,
                );
                let index = cell_index(target@, boundaries);
                assert(ratios(visibles@)[index] == visibles[index]@);
            }
            assert forall|target: Point|
                kind_of(field, target@) == Kind::Wall && within_boundaries(target@, boundaries)
                    && unshared(#[trigger] field_of(target, blocking@, boundaries)) && target@
                    != origin@ implies (visibles[cell_index(target@, boundaries)].numerator != 0
                <==> (within_circle(target@, origin@, max_distance as int) && in_reach_of_sight(
                field,
                target@,
            ))) by {
                lemma_fov_lights_walls_in_reach(
                    origin,
                    target,
                    blocking@,
                    boundaries,
                    max_distance,
                );
                let index = cell_index(target@, boundaries);
                assert(ratios(visibles@)[index] == visibles[index]@);
            }
        }
    }
    visibles
}

} // verus!
