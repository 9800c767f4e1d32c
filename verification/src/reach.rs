//! What the flood fill reaches: walks over the grid, the grids on which the
//! fill marks exactly the cells that a walk reaches, and the proofs.

use vstd::prelude::*;
use crate::flood::{
    finished, fuel, is_passable, is_target, lemma_step_burns_fuel, markable, run, start, step,
    Flood, Scene, Search,
};
use crate::geometry::{
    adjacent, cell_index, direction, lemma_circle_widens, shifted, widens, Cell, Point,
};

verus! {

/// The traversal goes on from this cell: it can be marked and its mask
/// value lets the traversal pass.
pub open spec fn expanding(scene: Scene, cell: Cell) -> bool {
    markable(scene, cell) && is_passable(
        scene.search,
        scene.mask[cell_index(cell, scene.boundaries)],
    )
}

/// Two consecutive cells of a path touch.
pub open spec fn linked(path: Seq<Cell>, i: int) -> bool {
    adjacent(path[i], path[i + 1])
}

/// A walk leaves the origin by a neighbour and goes from neighbour to
/// neighbour. Every cell between the origin and the last one lets the
/// traversal pass; the last one only has to be markable.
pub open spec fn is_walk(scene: Scene, path: Seq<Cell>) -> bool {
    &&& path.len() >= 2
    &&& path[0] == scene.origin
    &&& forall|i: int| 0 <= i < path.len() - 1 ==> #[trigger] linked(path, i)
    &&& forall|i: int| 1 <= i < path.len() - 1 ==> expanding(scene, #[trigger] path[i])
    &&& markable(scene, path.last())
}

/// Some walk ends at the cell.
pub open spec fn reachable(scene: Scene, cell: Cell) -> bool {
    exists|path: Seq<Cell>| #[trigger] is_walk(scene, path) && path.last() == cell
}

/// The cell lies in a column that the flat index tells apart from every
/// other column.
pub open spec fn proper(cell: Cell, boundaries: Point) -> bool {
    0 <= cell.x < boundaries.x
}

/// The origin and every cell that the traversal goes on from keep away from
/// the first and the last column of the flat layout. On such a grid no two
/// cells that the traversal looks at share an index.
pub open spec fn enclosed(scene: Scene) -> bool {
    &&& 0 < scene.origin.x < scene.boundaries.x - 1
    &&& forall|cell: Cell| #[trigger] expanding(scene, cell) ==> 0 < cell.x < scene.boundaries.x - 1
}

/// Some markable cell has this index.
pub open spec fn covered(scene: Scene, index: int) -> bool {
    exists|cell: Cell| #[trigger]
        markable(scene, cell) && cell_index(cell, scene.boundaries) == index
}

/// The cell is marked in the mask.
pub open spec fn lit(scene: Scene, visible: Seq<u8>, cell: Cell) -> bool {
    let index = cell_index(cell, scene.boundaries);
    0 <= index < visible.len() && visible[index] == 1
}

/// The cell's index is visited.
pub open spec fn seen(scene: Scene, visited: Seq<bool>, cell: Cell) -> bool {
    let index = cell_index(cell, scene.boundaries);
    0 <= index < visited.len() && visited[index]
}

/// The neighbour of a cell in one of the eight directions.
pub open spec fn neighbour(cell: Cell, k: int) -> Cell {
    shifted(cell, direction(k))
}

/// The cell is marked, unless it cannot be.
pub open spec fn lit_if_markable(scene: Scene, visible: Seq<u8>, cell: Cell) -> bool {
    markable(scene, cell) ==> lit(scene, visible, cell)
}

/// The neighbours of `cell` in the directions below `bound` are marked as
/// far as they can be.
pub open spec fn ring_lit(scene: Scene, visible: Seq<u8>, cell: Cell, bound: int) -> bool {
    forall|k: int| 0 <= k < bound ==> #[trigger] lit_if_markable(scene, visible, neighbour(cell, k))
}

/// The traversal goes on from this cell, now or earlier: the origin, or a
/// marked cell that lets it pass.
pub open spec fn source(scene: Scene, visible: Seq<u8>, cell: Cell) -> bool {
    cell == scene.origin || (expanding(scene, cell) && lit(scene, visible, cell))
}

/// A cell in the queue is the origin, or a marked cell that a walk reaches
/// and that lets the traversal pass.
pub open spec fn queued_well(scene: Scene, visible: Seq<u8>, cell: Cell) -> bool {
    cell == scene.origin || (expanding(scene, cell) && lit(scene, visible, cell) && reachable(
        scene,
        cell,
    ))
}

/// A source still waits in the queue, or all its neighbours are dealt with.
pub open spec fn settled(scene: Scene, queue: Seq<Cell>, visible: Seq<u8>, cell: Cell) -> bool {
    queue.contains(cell) || ring_lit(scene, visible, cell, 8)
}

/// A marked cell is markable, reached by a walk, and no target.
pub open spec fn lit_rightly(scene: Scene, cell: Cell) -> bool {
    &&& markable(scene, cell)
    &&& reachable(scene, cell)
    &&& !is_target(scene.search, scene.mask[cell_index(cell, scene.boundaries)])
}

/// The search stopped at `index` for a good reason: a walk reaches a target
/// with that index.
pub open spec fn hit(scene: Scene, cell: Cell, index: int) -> bool {
    &&& markable(scene, cell)
    &&& cell_index(cell, scene.boundaries) == index
    &&& is_target(scene.search, scene.mask[index])
    &&& reachable(scene, cell)
}

/// What holds while a traversal of an enclosed scene has found no target.
pub open spec fn exploring(scene: Scene, flood: Flood) -> bool {
    &&& forall|j: int|
        0 <= j < flood.queue.len() ==> queued_well(scene, flood.visible, #[trigger] flood.queue[j])
    &&& forall|cell: Cell|
        proper(cell, scene.boundaries) && #[trigger] lit(scene, flood.visible, cell)
            ==> lit_rightly(scene, cell)
    &&& forall|cell: Cell|
        proper(cell, scene.boundaries) && #[trigger] seen(scene, flood.visited, cell)
            ==> lit_if_markable(scene, flood.visible, cell)
    &&& forall|cell: Cell|
        source(scene, flood.visible, cell) ==> #[trigger] settled(
            scene,
            flood.queue,
            flood.visible,
            cell,
        )
    &&& flood.queue.len() > 0 ==> ring_lit(scene, flood.visible, flood.queue[0], flood.next)
    &&& forall|index: int|
        0 <= index < flood.visible.len() && #[trigger] flood.visible[index] == 1
            ==> flood.visited[index]
}

/// A walk reaches a target with this index.
pub open spec fn hit_at(scene: Scene, index: int) -> bool {
    exists|cell: Cell| #[trigger] hit(scene, cell, index)
}

/// What holds at every moment of a traversal of an enclosed scene.
pub open spec fn consistent(scene: Scene, flood: Flood) -> bool {
    &&& flood.visited.len() == scene.mask.len()
    &&& flood.visible.len() == scene.mask.len()
    &&& 0 <= flood.next <= 8
    &&& flood.found is Some ==> hit_at(scene, flood.found->0)
    &&& flood.found is None ==> exploring(scene, flood)
}

/// Two cells in proper columns with the same index are the same cell.
pub proof fn lemma_proper_cells_differ(a: Cell, b: Cell, boundaries: Point)
    requires
        proper(a, boundaries),
        proper(b, boundaries),
        cell_index(a, boundaries) == cell_index(b, boundaries),
    ensures
        a == b,
{
    let w = boundaries.x as int;
    assert(a.y == b.y) by (nonlinear_arith)
        requires
            0 <= a.x < w,
            0 <= b.x < w,
            a.x + a.y * w == b.x + b.y * w,
    ;
}

/// A walk that ends at a source can be taken one cell further.
pub proof fn lemma_walk_on(scene: Scene, from: Cell, to: Cell)
    requires
        from == scene.origin || (expanding(scene, from) && reachable(scene, from)),
        adjacent(from, to),
        markable(scene, to),
    ensures
        reachable(scene, to),
{
    if from == scene.origin {
        let path = seq![from, to];
        assert(linked(path, 0));
        assert(is_walk(scene, path));
        assert(path.last() == to);
    } else {
        let before = choose|path: Seq<Cell>| #[trigger] is_walk(scene, path) && path.last() == from;
        let path = before.push(to);
        assert forall|i: int| 0 <= i < path.len() - 1 implies #[trigger] linked(path, i) by {
            if i < before.len() - 1 {
                assert(linked(before, i));
            }
        }
        assert forall|i: int| 1 <= i < path.len() - 1 implies expanding(
            scene,
            #[trigger] path[i],
        ) by {
            if i < before.len() - 1 {
                assert(expanding(scene, before[i]));
            }
        }
        assert(is_walk(scene, path));
        assert(path.last() == to);
    }
}

/// On an enclosed scene every neighbour of a cell in the queue lies in a
/// proper column and touches that cell.
pub proof fn lemma_neighbour_proper(scene: Scene, visible: Seq<u8>, cell: Cell, k: int)
    requires
        enclosed(scene),
        queued_well(scene, visible, cell),
        0 <= k < 8,
    ensures
        proper(neighbour(cell, k), scene.boundaries),
        adjacent(cell, neighbour(cell, k)),
{
    assert(neighbour(cell, k) == shifted(cell, direction(k)));
}

/// A step of an unfinished traversal keeps an enclosed scene consistent.
pub proof fn lemma_step_consistent(scene: Scene, flood: Flood)
    requires
        enclosed(scene),
        consistent(scene, flood),
        !finished(flood),
    ensures
        consistent(scene, step(scene, flood)),
{
    let after = step(scene, flood);
    let front = flood.queue[0];
    assert(queued_well(scene, flood.visible, front));
    if 0 <= flood.next < 8 {
        let k = flood.next;
        let child = neighbour(front, k);
        let index = cell_index(child, scene.boundaries);
        lemma_neighbour_proper(scene, flood.visible, front, k);
        if !(0 <= index < scene.mask.len()) || flood.visited[index] {
            assert(after.queue == flood.queue);
            assert(after.visible == flood.visible);
            assert(after.visited == flood.visited);
            if 0 <= index < scene.mask.len() {
                assert(seen(scene, flood.visited, child));
            }
            assert(lit_if_markable(scene, flood.visible, child));
            assert(ring_lit(scene, after.visible, front, k + 1)) by {
                assert forall|j: int| 0 <= j < k + 1 implies #[trigger] lit_if_markable(
                    scene,
                    after.visible,
                    neighbour(front, j),
                ) by {
                    if j < k {
                        assert(lit_if_markable(scene, flood.visible, neighbour(front, j)));
                    }
                }
            }
        } else if !markable(scene, child) {
            assert(after.queue == flood.queue);
            assert(after.visible == flood.visible);
            assert(after.visited == flood.visited.update(index, true));
            assert forall|cell: Cell|
                proper(cell, scene.boundaries) && #[trigger] seen(
                    scene,
                    after.visited,
                    cell,
                ) implies lit_if_markable(scene, after.visible, cell) by {
                if cell_index(cell, scene.boundaries) == index {
                    lemma_proper_cells_differ(cell, child, scene.boundaries);
                } else {
                    assert(seen(scene, flood.visited, cell));
                }
            }
            assert(ring_lit(scene, after.visible, front, k + 1)) by {
                assert forall|j: int| 0 <= j < k + 1 implies #[trigger] lit_if_markable(
                    scene,
                    after.visible,
                    neighbour(front, j),
                ) by {
                    if j < k {
                        assert(lit_if_markable(scene, flood.visible, neighbour(front, j)));
                    }
                }
            }
        } else {
            lemma_walk_on(scene, front, child);
            if is_target(scene.search, scene.mask[index]) {
                assert(hit(scene, child, index));
                assert(after.found == Some(index));
                assert(after.visited == flood.visited.update(index, true));
                assert(after.visible == flood.visible);
                lemma_hit_consistent(scene, after, child, index);
            } else {
                lemma_mark_consistent(scene, flood);
            }
        }
    } else {
        assert(after.queue == flood.queue.drop_first());
        assert(after.visible == flood.visible);
        assert(after.visited == flood.visited);
        assert(flood.next == 8);
        assert forall|cell: Cell| source(scene, after.visible, cell) implies #[trigger] settled(
            scene,
            after.queue,
            after.visible,
            cell,
        ) by {
            assert(settled(scene, flood.queue, flood.visible, cell));
            if !ring_lit(scene, flood.visible, cell, 8) {
                let j = choose|j: int| 0 <= j < flood.queue.len() && flood.queue[j] == cell;
                if j > 0 {
                    assert(after.queue[j - 1] == cell);
                }
            }
        }
        assert forall|j: int| 0 <= j < after.queue.len() implies queued_well(
            scene,
            after.visible,
            #[trigger] after.queue[j],
        ) by {
            assert(after.queue[j] == flood.queue[j + 1]);
        }
    }
}

/// A search that stopped at a target reached by a walk is consistent.
proof fn lemma_hit_consistent(scene: Scene, after: Flood, cell: Cell, index: int)
    requires
        after.visited.len() == scene.mask.len(),
        after.visible.len() == scene.mask.len(),
        0 <= after.next <= 8,
        after.found == Some(index),
        hit(scene, cell, index),
    ensures
        consistent(scene, after),
{
}

/// The step that marks a fresh cell keeps an enclosed scene consistent.
proof fn lemma_mark_consistent(scene: Scene, flood: Flood)
    requires
        enclosed(scene),
        consistent(scene, flood),
        !finished(flood),
        0 <= flood.next < 8,
        ({
            let child = neighbour(flood.queue[0], flood.next);
            let index = cell_index(child, scene.boundaries);
            &&& proper(child, scene.boundaries)
            &&& markable(scene, child)
            &&& !flood.visited[index]
            &&& !is_target(scene.search, scene.mask[index])
            &&& reachable(scene, child)
        }),
    ensures
        consistent(scene, step(scene, flood)),
{
    let after = step(scene, flood);
    let front = flood.queue[0];
    let k = flood.next;
    let child = neighbour(front, k);
    let index = cell_index(child, scene.boundaries);
    let passes = is_passable(scene.search, scene.mask[index]);
    assert(after.visible == flood.visible.update(index, 1u8));
    assert(after.visited == flood.visited.update(index, true));
    assert(after.queue == if passes {
        flood.queue.push(child)
    } else {
        flood.queue
    });
    assert(lit(scene, after.visible, child));
    assert forall|cell: Cell| lit(scene, flood.visible, cell) implies lit(
        scene,
        after.visible,
        cell,
    ) by {}
    assert forall|j: int| 0 <= j < after.queue.len() implies queued_well(
        scene,
        after.visible,
        #[trigger] after.queue[j],
    ) by {
        if j < flood.queue.len() {
            assert(queued_well(scene, flood.visible, flood.queue[j]));
        }
    }
    assert forall|cell: Cell|
        proper(cell, scene.boundaries) && #[trigger] lit(
            scene,
            after.visible,
            cell,
        ) implies lit_rightly(scene, cell) by {
        if cell_index(cell, scene.boundaries) == index {
            lemma_proper_cells_differ(cell, child, scene.boundaries);
        } else {
            assert(lit(scene, flood.visible, cell));
        }
    }
    assert forall|cell: Cell|
        proper(cell, scene.boundaries) && #[trigger] seen(
            scene,
            after.visited,
            cell,
        ) implies lit_if_markable(scene, after.visible, cell) by {
        if cell_index(cell, scene.boundaries) == index {
            lemma_proper_cells_differ(cell, child, scene.boundaries);
        } else {
            assert(seen(scene, flood.visited, cell));
            assert(lit_if_markable(scene, flood.visible, cell));
        }
    }
    assert forall|cell: Cell| source(scene, after.visible, cell) implies #[trigger] settled(
        scene,
        after.queue,
        after.visible,
        cell,
    ) by {
        if source(scene, flood.visible, cell) {
            assert(settled(scene, flood.queue, flood.visible, cell));
            if flood.queue.contains(cell) {
                let j = choose|j: int| 0 <= j < flood.queue.len() && flood.queue[j] == cell;
                assert(after.queue[j] == cell);
            } else {
                lemma_ring_stays_lit(scene, flood.visible, index, cell, 8);
            }
        } else {
            assert(cell_index(cell, scene.boundaries) == index);
            lemma_proper_cells_differ(cell, child, scene.boundaries);
            assert(passes);
            assert(after.queue[flood.queue.len() as int] == child);
        }
    }
    assert(after.queue[0] == front);
    lemma_ring_stays_lit(scene, flood.visible, index, front, k);
    assert forall|j: int| 0 <= j < k + 1 implies #[trigger] lit_if_markable(
        scene,
        after.visible,
        neighbour(front, j),
    ) by {
        if j < k {
            assert(lit_if_markable(scene, after.visible, neighbour(front, j)));
        }
    }
}

/// Marking one more cell leaves marked what was marked around a cell.
proof fn lemma_ring_stays_lit(scene: Scene, visible: Seq<u8>, index: int, cell: Cell, bound: int)
    requires
        ring_lit(scene, visible, cell, bound),
        0 <= index < visible.len(),
    ensures
        ring_lit(scene, visible.update(index, 1u8), cell, bound),
{
    assert forall|k: int| 0 <= k < bound implies #[trigger] lit_if_markable(
        scene,
        visible.update(index, 1u8),
        neighbour(cell, k),
    ) by {
        assert(lit_if_markable(scene, visible, neighbour(cell, k)));
    }
}

/// What holds of a state holds of the end of the run from it, if every
/// step of an unfinished traversal keeps it.
pub proof fn lemma_run_keeps(scene: Scene, flood: Flood, kept: spec_fn(Flood) -> bool)
    requires
        kept(flood),
        forall|f: Flood|
            #[trigger] kept(f) && !finished(f) && f.visited.len() == scene.mask.len() ==> kept(
                step(scene, f),
            ),
    ensures
        kept(run(scene, flood)),
        finished(run(scene, flood)) || run(scene, flood).visited.len() != scene.mask.len(),
    decreases fuel(flood),
{
    if !(finished(flood) || flood.visited.len() != scene.mask.len()) {
        lemma_step_burns_fuel(scene, flood);
        lemma_run_keeps(scene, step(scene, flood), kept);
    }
}

/// The traversal starts consistent.
pub proof fn lemma_start_consistent(scene: Scene)
    ensures
        consistent(scene, start(scene)),
{
    let first = start(scene);
    assert forall|cell: Cell| source(scene, first.visible, cell) implies #[trigger] settled(
        scene,
        first.queue,
        first.visible,
        cell,
    ) by {
        assert(first.queue[0] == scene.origin);
    }
}

/// The run of an enclosed scene ends consistent and finished.
pub proof fn lemma_run_consistent(scene: Scene)
    requires
        enclosed(scene),
    ensures
        consistent(scene, run(scene, start(scene))),
        finished(run(scene, start(scene))),
{
    let kept = |f: Flood| consistent(scene, f);
    let first = start(scene);
    lemma_start_consistent(scene);
    assert forall|f: Flood|
        #[trigger] kept(f) && !finished(f) && f.visited.len() == scene.mask.len() implies kept(
        step(scene, f),
    ) by {
        lemma_step_consistent(scene, f);
    }
    lemma_run_keeps(scene, first, kept);
}

/// Once the queue of an enclosed scene is empty, every cell on a walk is
/// marked.
pub proof fn lemma_walk_is_lit(scene: Scene, flood: Flood, path: Seq<Cell>, i: int)
    requires
        enclosed(scene),
        exploring(scene, flood),
        flood.queue.len() == 0,
        is_walk(scene, path),
        1 <= i < path.len(),
    ensures
        lit(scene, flood.visible, path[i]),
    decreases i,
{
    let from = path[i - 1];
    if i > 1 {
        lemma_walk_is_lit(scene, flood, path, i - 1);
        assert(expanding(scene, path[i - 1]));
    }
    assert(source(scene, flood.visible, from));
    assert(settled(scene, flood.queue, flood.visible, from));
    assert(linked(path, i - 1));
    let k = choose|k: int| 0 <= k < 8 && path[i] == #[trigger] shifted(from, direction(k));
    assert(lit_if_markable(scene, flood.visible, neighbour(from, k)));
    if i < path.len() - 1 {
        assert(expanding(scene, path[i]));
    }
}

/// A walk reaches some cell with this index.
pub open spec fn reached_index(scene: Scene, index: int) -> bool {
    exists|cell: Cell| #[trigger] reachable(scene, cell) && cell_index(cell, scene.boundaries) == index
}

/// A walk reaches some target.
pub open spec fn target_reachable(scene: Scene) -> bool {
    exists|cell: Cell| #[trigger]
        reachable(scene, cell) && is_target(
            scene.search,
            scene.mask[cell_index(cell, scene.boundaries)],
        )
}

/// The proper cell with a given index.
pub open spec fn cell_at(index: int, boundaries: Point) -> Cell {
    Cell { x: index % (boundaries.x as int), y: index / (boundaries.x as int) }
}

/// Where the stride is positive, `cell_at` gives a proper cell with the
/// index asked for.
pub proof fn lemma_cell_at(index: int, boundaries: Point)
    requires
        boundaries.x > 0,
    ensures
        proper(cell_at(index, boundaries), boundaries),
        cell_index(cell_at(index, boundaries), boundaries) == index,
{
    let w = boundaries.x as int;
    assert(index == w * (index / w) + index % w && 0 <= index % w < w) by (nonlinear_arith)
        requires
            w > 0,
    ;
    assert((index / w) * w == w * (index / w)) by (nonlinear_arith);
}

/// The flood fill of an enclosed scene marks exactly the indices of the
/// cells that walks reach, unless it stops at a target; and it stops at a
/// target exactly if a walk reaches one, at the index of such a target.
pub proof fn lemma_enclosed_run(scene: Scene)
    requires
        enclosed(scene),
    ensures
        ({
            let end = run(scene, start(scene));
            &&& end.found is Some <==> target_reachable(scene)
            &&& end.found is Some ==> hit_at(scene, end.found->0)
            &&& end.found is None ==> forall|index: int|
                0 <= index < scene.mask.len() ==> (end.visible[index] == 1 <==> #[trigger] reached_index(
                    scene,
                    index,
                ))
        }),
{
    let end = run(scene, start(scene));
    lemma_run_consistent(scene);
    if end.found is Some {
        let cell = choose|cell: Cell| #[trigger] hit(scene, cell, end.found->0);
        assert(reachable(scene, cell));
    } else {
        assert(end.queue.len() == 0);
        if target_reachable(scene) {
            let cell = choose|cell: Cell| #[trigger]
                reachable(scene, cell) && is_target(
                    scene.search,
                    scene.mask[cell_index(cell, scene.boundaries)],
                );
            lemma_reachable_is_lit(scene, end, cell);
            lemma_reachable_is_proper(scene, cell);
            assert(lit_rightly(scene, cell));
        }
        assert forall|index: int| 0 <= index < scene.mask.len() implies (end.visible[index] == 1
            <==> #[trigger] reached_index(scene, index)) by {
            if end.visible[index] == 1 {
                let cell = cell_at(index, scene.boundaries);
                lemma_cell_at(index, scene.boundaries);
                assert(lit(scene, end.visible, cell));
                assert(lit_rightly(scene, cell));
            }
            if reached_index(scene, index) {
                let cell = choose|cell: Cell| #[trigger]
                    reachable(scene, cell) && cell_index(cell, scene.boundaries) == index;
                lemma_reachable_is_lit(scene, end, cell);
            }
        }
    }
}

/// Once the queue of an enclosed scene is empty, every reachable cell is
/// marked.
pub proof fn lemma_reachable_is_lit(scene: Scene, flood: Flood, cell: Cell)
    requires
        enclosed(scene),
        exploring(scene, flood),
        flood.queue.len() == 0,
        reachable(scene, cell),
    ensures
        lit(scene, flood.visible, cell),
{
    let path = choose|path: Seq<Cell>| #[trigger] is_walk(scene, path) && path.last() == cell;
    lemma_walk_is_lit(scene, flood, path, path.len() - 1);
}

/// On an enclosed scene every reachable cell lies in a proper column.
pub proof fn lemma_reachable_is_proper(scene: Scene, cell: Cell)
    requires
        enclosed(scene),
        reachable(scene, cell),
    ensures
        proper(cell, scene.boundaries),
{
    let path = choose|path: Seq<Cell>| #[trigger] is_walk(scene, path) && path.last() == cell;
    let last = path.len() - 1;
    assert(linked(path, last - 1));
    if last > 1 {
        assert(expanding(scene, path[last - 1]));
    }
}

/// The flood fill of an enclosed scene marks every markable neighbour of
/// the origin, unless it stops at a target.
pub proof fn lemma_origin_ring(scene: Scene, k: int)
    requires
        enclosed(scene),
        0 <= k < 8,
        markable(scene, neighbour(scene.origin, k)),
        run(scene, start(scene)).found is None,
    ensures
        lit(scene, run(scene, start(scene)).visible, neighbour(scene.origin, k)),
{
    let end = run(scene, start(scene));
    let to = neighbour(scene.origin, k);
    lemma_run_consistent(scene);
    assert(to == shifted(scene.origin, direction(k)));
    lemma_walk_on(scene, scene.origin, to);
    lemma_reachable_is_lit(scene, end, to);
}

/// Two scenes that differ in the radius alone, the second widening the first.
pub open spec fn widened(narrow: Scene, wide: Scene) -> bool {
    &&& narrow.origin == wide.origin
    &&& narrow.mask == wide.mask
    &&& narrow.boundaries == wide.boundaries
    &&& narrow.search == wide.search
    &&& widens(narrow.radius, wide.radius)
}

/// A walk of the narrow scene is a walk of the wide one.
pub proof fn lemma_walk_widens(narrow: Scene, wide: Scene, path: Seq<Cell>)
    requires
        widened(narrow, wide),
        is_walk(narrow, path),
    ensures
        is_walk(wide, path),
{
    assert forall|i: int| 0 <= i < path.len() - 1 implies #[trigger] linked(path, i) by {
        assert(linked(path, i));
    }
    assert forall|i: int| 1 <= i < path.len() - 1 implies expanding(wide, #[trigger] path[i]) by {
        assert(expanding(narrow, path[i]));
        lemma_circle_widens(path[i], narrow.origin, narrow.radius, wide.radius);
    }
    lemma_circle_widens(path.last(), narrow.origin, narrow.radius, wide.radius);
}

/// Where the wide scene is enclosed, so is the narrow one.
pub proof fn lemma_enclosed_narrows(narrow: Scene, wide: Scene)
    requires
        widened(narrow, wide),
        enclosed(wide),
    ensures
        enclosed(narrow),
{
    assert forall|cell: Cell| #[trigger] expanding(narrow, cell) implies 0 < cell.x
        < narrow.boundaries.x - 1 by {
        lemma_circle_widens(cell, narrow.origin, narrow.radius, wide.radius);
        assert(expanding(wide, cell));
    }
}

/// A larger radius takes no marked cell away: on an enclosed scene without
/// targets, every index that the fill marks with the narrow radius it also
/// marks with the wide one.
pub proof fn lemma_wider_marks_more(narrow: Scene, wide: Scene, index: int)
    requires
        widened(narrow, wide),
        enclosed(wide),
        narrow.search == Search::Reveal,
        0 <= index < narrow.mask.len(),
        run(narrow, start(narrow)).visible[index] == 1,
    ensures
        run(wide, start(wide)).visible[index] == 1,
{
    lemma_enclosed_narrows(narrow, wide);
    lemma_enclosed_run(narrow);
    lemma_enclosed_run(wide);
    assert(!target_reachable(narrow));
    assert(!target_reachable(wide));
    assert(reached_index(narrow, index));
    let cell = choose|cell: Cell| #[trigger]
        reachable(narrow, cell) && cell_index(cell, narrow.boundaries) == index;
    let path = choose|path: Seq<Cell>| #[trigger] is_walk(narrow, path) && path.last() == cell;
    lemma_walk_widens(narrow, wide, path);
    assert(reachable(wide, cell));
    assert(reached_index(wide, index));
}

/// What holds at every moment of every traversal: the masks keep their
/// length, a marked index is that of a markable cell, and the search stops
/// only at a target that is one.
pub open spec fn plain(scene: Scene, flood: Flood) -> bool {
    &&& flood.visited.len() == scene.mask.len()
    &&& flood.visible.len() == scene.mask.len()
    &&& forall|index: int|
        0 <= index < scene.mask.len() ==> #[trigger] flood.visible[index] == 0 || (
        flood.visible[index] == 1 && covered(scene, index))
    &&& flood.found is Some ==> {
        &&& 0 <= flood.found->0 < scene.mask.len()
        &&& is_target(scene.search, scene.mask[flood.found->0])
        &&& covered(scene, flood.found->0)
    }
}

/// Every run ends finished, with `plain` true of its end.
pub proof fn lemma_run_plain(scene: Scene)
    ensures
        plain(scene, run(scene, start(scene))),
        finished(run(scene, start(scene))),
{
    let kept = |f: Flood| plain(scene, f);
    assert forall|f: Flood|
        #[trigger] kept(f) && !finished(f) && f.visited.len() == scene.mask.len() implies kept(
        step(scene, f),
    ) by {
        if 0 <= f.next < 8 {
            let child = shifted(f.queue[0], direction(f.next));
            let index = cell_index(child, scene.boundaries);
            if markable(scene, child) {
                assert(covered(scene, index));
            }
        }
    }
    lemma_run_keeps(scene, start(scene), kept);
}

} // verus!
