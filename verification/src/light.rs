//! The falloff of a lit cell, and the mask that the shown cells are painted
//! into.

use vstd::prelude::*;
use crate::fraction::{Fraction, Ratio};
use crate::geometry::{
    cell_index, index_of, inside_boundaries, inside_circle, lemma_circle_widens, point_struct,
    squared_distance, widens, within_boundaries, within_circle, Cell, Point,
};
use crate::shadow::Field;

verus! {

/// The value of a cell that is not lit: 0.
pub open spec fn dark() -> Ratio {
    Ratio { num: 0, den: 1 }
}

/// The value of the origin: 1.
pub open spec fn full() -> Ratio {
    Ratio { num: 1, den: 1 }
}

/// The value of a lit cell: 1 - d / (radius + 9/10)^2, with d the squared
/// distance from the origin, written over the denominator (10 radius + 9)^2.
/// A radius of 0 is taken as it stands.
pub open spec fn falloff(origin: Cell, cell: Cell, radius: int) -> Ratio {
    let span = (10 * radius + 9) * (10 * radius + 9);
    Ratio { num: span - 100 * squared_distance(cell, origin), den: span }
}

/// The cell can be lit: it lies in the boundaries, in the circle and its
/// index in the mask.
pub open spec fn lights(field: Field, radius: int, cell: Cell) -> bool {
    &&& within_boundaries(cell, field.boundaries)
    &&& within_circle(cell, field.origin, radius)
    &&& 0 <= cell_index(cell, field.boundaries) < field.blocking.len()
}

/// The mask with one shown cell painted in, if it can be lit.
pub open spec fn paint(field: Field, radius: int, shades: Seq<Ratio>, cell: Cell) -> Seq<Ratio> {
    if lights(field, radius, cell) {
        shades.update(cell_index(cell, field.boundaries), falloff(field.origin, cell, radius))
    } else {
        shades
    }
}

/// The mask with the shown cells painted in, one after the other.
pub open spec fn paint_all(field: Field, radius: int, shades: Seq<Ratio>, cells: Seq<Cell>) -> Seq<
    Ratio,
>
    decreases cells.len(),
{
    if cells.len() == 0 {
        shades
    } else {
        paint(field, radius, paint_all(field, radius, shades, cells.drop_last()), cells.last())
    }
}

/// The mask before any cell is shown: dark, but for the origin.
pub open spec fn initial(field: Field) -> Seq<Ratio> {
    let shades = Seq::new(field.blocking.len(), |i: int| dark());
    let index = cell_index(field.origin, field.boundaries);
    if 0 <= index < field.blocking.len() {
        shades.update(index, full())
    } else {
        shades
    }
}

/// The values that a sequence of fractions stands for.
pub open spec fn ratios(fractions: Seq<Fraction>) -> Seq<Ratio> {
    Seq::new(fractions.len(), |i: int| fractions[i]@)
}

/// Some cell that can be lit has this index and this value.
pub open spec fn lit_by(field: Field, radius: int, index: int, shade: Ratio) -> bool {
    exists|cell: Cell| #[trigger]
        lights(field, radius, cell) && cell_index(cell, field.boundaries) == index && shade
            == falloff(field.origin, cell, radius)
}

/// An entry of the mask is what it may be: dark, the full value at the
/// origin's index, or the falloff of a cell with that index that can be lit.
pub open spec fn shade_explained(field: Field, radius: int, index: int, shade: Ratio) -> bool {
    ||| shade == dark()
    ||| (shade == full() && index == cell_index(field.origin, field.boundaries))
    ||| lit_by(field, radius, index, shade)
}

/// Every entry of the mask is what it may be.
pub open spec fn explained(field: Field, radius: int, shades: Seq<Ratio>) -> bool {
    &&& shades.len() == field.blocking.len()
    &&& forall|index: int|
        0 <= index < shades.len() ==> shade_explained(field, radius, index, #[trigger] shades[index])
}

/// Painting one more cell after a run of cells.
pub proof fn lemma_paint_all_push(
    field: Field,
    radius: int,
    shades: Seq<Ratio>,
    cells: Seq<Cell>,
    cell: Cell,
)
    ensures
        paint_all(field, radius, shades, cells.push(cell)) == paint(
            field,
            radius,
            paint_all(field, radius, shades, cells),
            cell,
        ),
{
    assert(cells.push(cell).drop_last() =~= cells);
}

/// Painting two runs of cells one after the other.
pub proof fn lemma_paint_all_concat(
    field: Field,
    radius: int,
    shades: Seq<Ratio>,
    first: Seq<Cell>,
    second: Seq<Cell>,
)
    ensures
        paint_all(field, radius, shades, first + second) == paint_all(
            field,
            radius,
            paint_all(field, radius, shades, first),
            second,
        ),
    decreases second.len(),
{
    if second.len() == 0 {
        assert(first + second =~= first);
    } else {
        assert((first + second).drop_last() =~= first + second.drop_last());
        lemma_paint_all_concat(field, radius, shades, first, second.drop_last());
    }
}

/// The falloff is never 0: its denominator is odd and what is taken from
/// it is even.
pub proof fn lemma_falloff_not_zero(origin: Cell, cell: Cell, radius: int)
    ensures
        falloff(origin, cell, radius).num != 0,
        falloff(origin, cell, radius).den > 0,
{
    let t = 10 * radius + 9;
    let half = 5 * radius + 4;
    assert(t * t == 2 * (2 * half * half + 2 * half) + 1 && t * t > 0) by (nonlinear_arith)
        requires
            t == 2 * half + 1,
    ;
}

/// Inside the circle of a positive radius the falloff lies above 0 and at
/// most at 1.
pub proof fn lemma_falloff_in_circle(origin: Cell, cell: Cell, radius: int)
    requires
        radius > 0,
        within_circle(cell, origin, radius),
    ensures
        0 < falloff(origin, cell, radius).num <= falloff(origin, cell, radius).den,
{
    let d = squared_distance(cell, origin);
    assert(d >= 0) by (nonlinear_arith)
        requires
            d == (cell.x - origin.x) * (cell.x - origin.x) + (cell.y - origin.y) * (cell.y
                - origin.y),
    ;
    assert(100 * d < (10 * radius + 9) * (10 * radius + 9)) by (nonlinear_arith)
        requires
            radius > 0,
            4 * d <= (2 * radius + 1) * (2 * radius + 1),
    ;
}

/// Painting keeps the length of the mask and keeps every entry explained.
pub proof fn lemma_paint_all_explained(
    field: Field,
    radius: int,
    shades: Seq<Ratio>,
    cells: Seq<Cell>,
)
    requires
        explained(field, radius, shades),
    ensures
        explained(field, radius, paint_all(field, radius, shades, cells)),
    decreases cells.len(),
{
    if cells.len() > 0 {
        lemma_paint_all_explained(field, radius, shades, cells.drop_last());
        let before = paint_all(field, radius, shades, cells.drop_last());
        let cell = cells.last();
        let after = paint(field, radius, before, cell);
        assert forall|index: int| 0 <= index < after.len() implies shade_explained(
            field,
            radius,
            index,
            #[trigger] after[index],
        ) by {
            if lights(field, radius, cell) && index == cell_index(cell, field.boundaries) {
                assert(lit_by(field, radius, index, after[index]));
            } else {
                assert(shade_explained(field, radius, index, before[index]));
            }
        }
    }
}

/// Painting cells leaves an index alone that none of them has.
pub proof fn lemma_paint_all_spares(
    field: Field,
    radius: int,
    shades: Seq<Ratio>,
    cells: Seq<Cell>,
    index: int,
)
    requires
        0 <= index < shades.len(),
        shades.len() == field.blocking.len(),
        forall|j: int|
            0 <= j < cells.len() && lights(field, radius, #[trigger] cells[j]) ==> cell_index(
                cells[j],
                field.boundaries,
            ) != index,
    ensures
        paint_all(field, radius, shades, cells).len() == shades.len(),
        paint_all(field, radius, shades, cells)[index] == shades[index],
    decreases cells.len(),
{
    if cells.len() > 0 {
        let fewer = cells.drop_last();
        assert forall|j: int| 0 <= j < fewer.len() && lights(
            field,
            radius,
            #[trigger] fewer[j],
        ) implies cell_index(fewer[j], field.boundaries) != index by {
            assert(fewer[j] == cells[j]);
        }
        lemma_paint_all_spares(field, radius, shades, fewer, index);
        assert(cells.last() == cells[cells.len() - 1]);
    }
}

/// With a radius that widens another, the same cells painted into two masks
/// leave lit in the second what is lit in the first.
pub proof fn lemma_paint_all_widens(
    field: Field,
    narrow: int,
    wide: int,
    dimmer: Seq<Ratio>,
    brighter: Seq<Ratio>,
    cells: Seq<Cell>,
)
    requires
        widens(narrow, wide),
        dimmer.len() == field.blocking.len(),
        dimmer.len() == brighter.len(),
        forall|index: int|
            0 <= index < dimmer.len() && (#[trigger] dimmer[index]).num != 0
                ==> brighter[index].num != 0,
    ensures
        paint_all(field, narrow, dimmer, cells).len() == paint_all(
            field,
            wide,
            brighter,
            cells,
        ).len(),
        forall|index: int|
            0 <= index < dimmer.len() && (#[trigger] paint_all(
                field,
                narrow,
                dimmer,
                cells,
            )[index]).num != 0 ==> paint_all(field, wide, brighter, cells)[index].num != 0,
        paint_all(field, narrow, dimmer, cells).len() == dimmer.len(),
    decreases cells.len(),
{
    if cells.len() > 0 {
        let fewer = cells.drop_last();
        let cell = cells.last();
        lemma_paint_all_widens(field, narrow, wide, dimmer, brighter, fewer);
        let low = paint_all(field, narrow, dimmer, fewer);
        let high = paint_all(field, wide, brighter, fewer);
        lemma_falloff_not_zero(field.origin, cell, wide);
        if lights(field, narrow, cell) {
            lemma_circle_widens(cell, field.origin, narrow, wide);
        }
        assert forall|index: int|
            0 <= index < dimmer.len() && (#[trigger] paint(field, narrow, low, cell)[index]).num
                != 0 implies paint(field, wide, high, cell)[index].num != 0 by {
            if index != cell_index(cell, field.boundaries) || !lights(field, narrow, cell) {
                assert(low[index].num != 0);
            }
        }
    }
}

/// One of the cells can be lit and has the index.
pub open spec fn painted_at(field: Field, radius: int, cells: Seq<Cell>, index: int) -> bool {
    exists|j: int|
        0 <= j < cells.len() && lights(field, radius, #[trigger] cells[j]) && cell_index(
            cells[j],
            field.boundaries,
        ) == index
}

/// An entry that painting has changed was painted by one of the cells.
pub proof fn lemma_paint_all_source(
    field: Field,
    radius: int,
    shades: Seq<Ratio>,
    cells: Seq<Cell>,
    index: int,
)
    requires
        0 <= index < shades.len(),
        shades.len() == field.blocking.len(),
        paint_all(field, radius, shades, cells)[index] != shades[index],
    ensures
        painted_at(field, radius, cells, index),
{
    if !painted_at(field, radius, cells, index) {
        lemma_paint_all_spares(field, radius, shades, cells, index);
    }
}

/// The entry of a cell that was painted is not 0.
pub proof fn lemma_paint_all_lit(
    field: Field,
    radius: int,
    shades: Seq<Ratio>,
    cells: Seq<Cell>,
    j: int,
)
    requires
        0 <= j < cells.len(),
        lights(field, radius, cells[j]),
        shades.len() == field.blocking.len(),
    ensures
        paint_all(field, radius, shades, cells).len() == shades.len(),
        paint_all(field, radius, shades, cells)[cell_index(cells[j], field.boundaries)].num != 0,
    decreases cells.len(),
{
    let fewer = cells.drop_last();
    let before = paint_all(field, radius, shades, fewer);
    lemma_paint_all_length(field, radius, shades, fewer);
    lemma_falloff_not_zero(field.origin, cells.last(), radius);
    if j < cells.len() - 1 {
        assert(fewer[j] == cells[j]);
        lemma_paint_all_lit(field, radius, shades, fewer, j);
    }
}

/// Painting keeps the length of the mask.
pub proof fn lemma_paint_all_length(
    field: Field,
    radius: int,
    shades: Seq<Ratio>,
    cells: Seq<Cell>,
)
    requires
        shades.len() == field.blocking.len(),
    ensures
        paint_all(field, radius, shades, cells).len() == shades.len(),
    decreases cells.len(),
{
    if cells.len() > 0 {
        lemma_paint_all_length(field, radius, shades, cells.drop_last());
    }
}

/// The falloff of a cell: see `falloff`.
pub fn distance(coord: &Point, origin: &Point, radius: &i32) -> (value: Fraction)
    ensures
        value@ == falloff(origin@, coord@, *radius as int),
{
    let dx: i128 = coord.x as i128 - origin.x as i128;
    let dy: i128 = coord.y as i128 - origin.y as i128;
    let t: i128 = 10 * (*radius as i128) + 9;
    assert(0 <= dx * dx <= 0x1_0000_0000_0000_0000) by (nonlinear_arith)
        requires
            -0x1_0000_0000 <= dx <= 0x1_0000_0000,
    ;
    assert(0 <= dy * dy <= 0x1_0000_0000_0000_0000) by (nonlinear_arith)
        requires
            -0x1_0000_0000 <= dy <= 0x1_0000_0000,
    ;
    assert(0 <= t * t <= 0x100_0000_0000_0000_0000) by (nonlinear_arith)
        requires
            -0x10_0000_0000 <= t <= 0x10_0000_0000,
    ;
    let span: i128 = t * t;
    Fraction::new(span - 100 * (dx * dx + dy * dy), span)
}

/// The grid that the inputs describe.
pub open spec fn field_of(origin: Point, blocking: Seq<u8>, boundaries: Point) -> Field {
    Field { origin: origin@, blocking, boundaries }
}

/// Paints one shown cell into the mask, if it can be lit.
pub fn paint_cell(
    x: i64,
    y: i64,
    origin: &Point,
    blocking: &Vec<u8>,
    boundaries: &Point,
    max_distance: i32,
    visibles: &mut Vec<Fraction>,
)
    requires
        blocking.len() == old(visibles).len(),
    ensures
        ratios(final(visibles)@) == paint(
            field_of(*origin, blocking@, *boundaries),
            max_distance as int,
            ratios(old(visibles)@),
            Cell { x: x as int, y: y as int },
        ),
        final(visibles).len() == old(visibles).len(),
{
    if -0x8000_0000 <= x && x <= 0x7fff_ffff && -0x8000_0000 <= y && y <= 0x7fff_ffff {
        let spot = point_struct(x as i32, y as i32);
        if inside_boundaries(&spot, boundaries) && inside_circle(&spot, origin, &max_distance) {
            let index = index_of(&spot, boundaries);
            if index >= 0 && (index as u64) < (visibles.len() as u64) {
                let value = distance(&spot, origin, &max_distance);
                let ghost before = ratios(visibles@);
                visibles.set(index as usize, value);
                assert(ratios(visibles@) =~= before.update(index as int, value@));
                return ;
            }
        }
    }
    assert(ratios(visibles@) =~= ratios(old(visibles)@));
}

} // verus!
