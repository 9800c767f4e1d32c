//! The breadth-first flood fill: its step-by-step model, and the traversal
//! that follows it.

use vstd::prelude::*;
use std::collections::VecDeque;
use crate::nearest::{lemma_found_is_nearest, nearest_hit};
use crate::reach::{
    covered, enclosed, lemma_enclosed_run, lemma_origin_ring, lemma_run_plain, neighbour,
    reached_index, target_reachable,
};
use crate::geometry::{
    cell_index, direction, directions, inside_boundaries, inside_circle, point_struct, shifted,
    within_boundaries, within_circle, Cell, Point,
};

verus! {

/// What a traversal is for.
#[derive(Copy, Clone, Debug, PartialEq, Eq, Structural)]
pub enum Search {
    /// Mark every cell reached; a cell with a non-zero mask value is marked
    /// but not walked through.
    Reveal,
    /// Stop at the first cell whose mask value is 1; every other cell is
    /// walked through.
    Find,
}

/// The inputs of a traversal.
pub struct Scene {
    pub origin: Cell,
    pub mask: Seq<u8>,
    pub boundaries: Point,
    pub radius: int,
    pub search: Search,
}

/// A moment of a traversal. The front of `queue` is the cell being expanded
/// and `next` is the direction it tries next; at 8 the cell is done.
pub struct Flood {
    pub queue: Seq<Cell>,
    pub next: int,
    pub visited: Seq<bool>,
    pub visible: Seq<u8>,
    pub found: Option<int>,
}

/// The cell can be marked: it lies in the boundaries, in the circle and its
/// index in the mask.
pub open spec fn markable(scene: Scene, cell: Cell) -> bool {
    &&& within_boundaries(cell, scene.boundaries)
    &&& within_circle(cell, scene.origin, scene.radius)
    &&& 0 <= cell_index(cell, scene.boundaries) < scene.mask.len()
}

/// The traversal stops at a cell with this mask value.
pub open spec fn is_target(search: Search, value: u8) -> bool {
    search == Search::Find && value == 1
}

/// The traversal goes on from a cell with this mask value.
pub open spec fn is_passable(search: Search, value: u8) -> bool {
    match search {
        Search::Reveal => value == 0,
        Search::Find => value != 1,
    }
}

/// The traversal before its first step: the origin waits in the queue and
/// no index is visited, the origin's included.
pub open spec fn start(scene: Scene) -> Flood {
    Flood {
        queue: seq![scene.origin],
        next: 0,
        visited: Seq::new(scene.mask.len(), |i: int| false),
        visible: Seq::new(scene.mask.len(), |i: int| 0u8),
        found: None,
    }
}

/// The traversal has ended.
pub open spec fn finished(flood: Flood) -> bool {
    flood.found is Some || flood.queue.len() == 0
}

/// What reaching `child` does. An index outside the mask, or one visited
/// before, changes nothing. Otherwise the index is visited for good, and
/// only then the cell is tested: outside the boundaries or the circle it is
/// dropped; a target ends the search; any other cell is marked, and queued if
/// it is passable.
pub open spec fn visit(scene: Scene, flood: Flood, child: Cell) -> Flood {
    let index = cell_index(child, scene.boundaries);
    if !(0 <= index < scene.mask.len()) || flood.visited[index] {
        flood
    } else {
        let visited = flood.visited.update(index, true);
        if !within_boundaries(child, scene.boundaries) || !within_circle(
            child,
            scene.origin,
            scene.radius,
        ) {
            Flood { visited, ..flood }
        } else if is_target(scene.search, scene.mask[index]) {
            Flood { visited, found: Some(index), ..flood }
        } else {
            Flood {
                visited,
                visible: flood.visible.update(index, 1u8),
                queue: if is_passable(scene.search, scene.mask[index]) {
                    flood.queue.push(child)
                } else {
                    flood.queue
                },
                ..flood
            }
        }
    }
}

/// One step: the front cell tries its next direction, or leaves the queue
/// once it has tried all eight.
pub open spec fn step(scene: Scene, flood: Flood) -> Flood {
    if 0 <= flood.next < 8 {
        let child = shifted(flood.queue[0], direction(flood.next));
        Flood { next: flood.next + 1, ..visit(scene, flood, child) }
    } else {
        Flood { queue: flood.queue.drop_first(), next: 0, ..flood }
    }
}

/// How many indices are not visited yet.
pub open spec fn unvisited(visited: Seq<bool>) -> nat
    decreases visited.len(),
{
    if visited.len() == 0 {
        0
    } else {
        unvisited(visited.drop_last()) + if visited.last() {
            0nat
        } else {
            1nat
        }
    }
}

/// A bound on the steps that are left; every step lowers it.
pub open spec fn fuel(flood: Flood) -> int {
    9 * (2 * unvisited(flood.visited) + flood.queue.len()) - if 0 <= flood.next < 8 {
        flood.next
    } else {
        8
    }
}

/// The traversal run to its end. A traversal whose masks do not have the
/// length of the scene's mask does not move.
pub open spec fn run(scene: Scene, flood: Flood) -> Flood
    decreases fuel(flood),
    via run_decreases
{
    if finished(flood) || flood.visited.len() != scene.mask.len() {
        flood
    } else {
        run(scene, step(scene, flood))
    }
}

/// Every step of the run lowers the fuel.
#[via_fn]
proof fn run_decreases(scene: Scene, flood: Flood) {
    if !(finished(flood) || flood.visited.len() != scene.mask.len()) {
        lemma_step_burns_fuel(scene, flood);
    }
}

/// Visiting a fresh index leaves one index fewer to visit.
pub proof fn lemma_unvisited_update(visited: Seq<bool>, index: int)
    requires
        0 <= index < visited.len(),
        !visited[index],
    ensures
        unvisited(visited.update(index, true)) == unvisited(visited) - 1,
    decreases visited.len(),
{
    let after = visited.update(index, true);
    if index == visited.len() - 1 {
        assert(after.drop_last() =~= visited.drop_last());
    } else {
        assert(after.drop_last() =~= visited.drop_last().update(index, true));
        lemma_unvisited_update(visited.drop_last(), index);
    }
}

/// Every step of an unfinished traversal lowers the fuel, which stays
/// positive while the queue holds a cell.
pub proof fn lemma_step_burns_fuel(scene: Scene, flood: Flood)
    requires
        flood.queue.len() > 0,
        flood.visited.len() == scene.mask.len(),
    ensures
        0 <= fuel(step(scene, flood)) < fuel(flood),
        step(scene, flood).visited.len() == scene.mask.len(),
{
    if 0 <= flood.next < 8 {
        let child = shifted(flood.queue[0], direction(flood.next));
        let index = cell_index(child, scene.boundaries);
        if 0 <= index < scene.mask.len() && !flood.visited[index] {
            lemma_unvisited_update(flood.visited, index);
        }
    }
}

/// The cells that a sequence of points stands for.
pub open spec fn cells(points: Seq<Point>) -> Seq<Cell> {
    Seq::new(points.len(), |i: int| points[i]@)
}

/// What a traversal hands back: the mask of marked cells and, for a search,
/// the index it stopped at.
pub struct Outcome {
    pub visible: Vec<u8>,
    pub found: Option<usize>,
}

/// The outcome is that of the model run from its start.
pub open spec fn is_outcome_of(outcome: Outcome, scene: Scene) -> bool {
    let end = run(scene, start(scene));
    &&& outcome.visible@ == end.visible
    &&& match outcome.found {
        Some(index) => end.found == Some(index as int),
        None => end.found is None,
    }
}

/// Walks the grid from `origin` through the eight neighbours of each cell,
/// breadth first, as `search` says.
pub fn traverse(
    origin: &Point,
    mask: &Vec<u8>,
    boundaries: &Point,
    max_distance: i32,
    search: Search,
) -> (outcome: Outcome)
    ensures
        is_outcome_of(
            outcome,
            Scene {
                origin: origin@,
                mask: mask@,
                boundaries: *boundaries,
                radius: max_distance as int,
                search,
            },
        ),
{
    let ghost scene = Scene {
        origin: origin@,
        mask: mask@,
        boundaries: *boundaries,
        radius: max_distance as int,
        search,
    };
    let cell_count: usize = mask.len();
    let mut visited: Vec<bool> = vec![false; cell_count];
    let mut visible: Vec<u8> = vec![0u8; cell_count];
    let mut queue: VecDeque<Point> = VecDeque::new();
    queue.push_back(*origin);
    let offsets = directions();
    let ghost mut flood = start(scene);
    assert(flood.visited =~= visited@);
    assert(flood.visible =~= visible@);
    assert(flood.queue =~= cells(queue@));
    while queue.len() > 0
        invariant
            scene.origin == origin@,
            scene.mask == mask@,
            scene.boundaries == *boundaries,
            scene.radius == max_distance as int,
            scene.search == search,
            cell_count == mask.len(),
            forall|k: int| 0 <= k < 8 ==> (#[trigger] offsets[k])@ == direction(k),
            flood.queue == cells(queue@),
            flood.next == 0,
            flood.visited == visited@,
            flood.visible == visible@,
            flood.found is None,
            visited.len() == cell_count,
            visible.len() == cell_count,
            run(scene, flood) == run(scene, start(scene)),
        decreases fuel(flood),
    {
        let ghost fuel_before = fuel(flood);
        let current = queue.pop_front().unwrap();
        assert(flood.queue =~= seq![current@] + cells(queue@));
        let mut k: usize = 0;
        while k < 8
            invariant
                scene.origin == origin@,
                scene.mask == mask@,
                scene.boundaries == *boundaries,
                scene.radius == max_distance as int,
                scene.search == search,
                cell_count == mask.len(),
                forall|k: int| 0 <= k < 8 ==> (#[trigger] offsets[k])@ == direction(k),
                0 <= k <= 8,
                flood.queue == seq![current@] + cells(queue@),
                flood.next == k,
                flood.visited == visited@,
                flood.visible == visible@,
                flood.found is None,
                visited.len() == cell_count,
                visible.len() == cell_count,
                run(scene, flood) == run(scene, start(scene)),
                0 <= fuel(flood) <= fuel_before,
            decreases 8 - k,
        {
            let offset = offsets[k];
            let x: i64 = current.x as i64 + offset.x as i64;
            let y: i64 = current.y as i64 + offset.y as i64;
            let stride: i64 = boundaries.x as i64;
            assert(-0x4000_0001_0000_0000 <= y * stride <= 0x4000_0001_0000_0000)
                by (nonlinear_arith)
                requires
                    -0x8000_0001 <= y <= 0x8000_0000,
                    -0x8000_0000 <= stride < 0x8000_0000,
            ;
            let index: i64 = x + y * stride;
            let ghost child = shifted(current@, direction(k as int));
            proof {
                assert(flood.queue[0] == current@);
                assert(child == Cell { x: x as int, y: y as int });
                assert(index == cell_index(child, scene.boundaries));
                lemma_step_burns_fuel(scene, flood);
                flood = step(scene, flood);
            }
            if index >= 0 && (index as u64) < (cell_count as u64) {
                let slot: usize = index as usize;
                if !visited[slot] {
                    visited.set(slot, true);
                    if -0x8000_0000 <= x && x <= 0x7fff_ffff && -0x8000_0000 <= y && y
                        <= 0x7fff_ffff {
                        let child_point = point_struct(x as i32, y as i32);
                        assert(child_point@ == child);
                        if inside_boundaries(&child_point, boundaries) && inside_circle(
                            &child_point,
                            origin,
                            &max_distance,
                        ) {
                            let value: u8 = mask[slot];
                            if matches!(search, Search::Find) && value == 1 {
                                return Outcome { visible, found: Some(slot) };
                            }
                            visible.set(slot, 1u8);
                            if is_passable_value(search, value) {
                                queue.push_back(child_point);
                                assert(flood.queue =~= seq![current@] + cells(queue@));
                            }
                        }
                    }
                }
            }
            k = k + 1;
        }
        proof {
            lemma_step_burns_fuel(scene, flood);
            flood = step(scene, flood);
            assert(flood.queue =~= cells(queue@));
        }
    }
    Outcome { visible, found: None }
}

/// The traversal goes on from a cell with this mask value.
pub fn is_passable_value(search: Search, value: u8) -> (passable: bool)
    ensures
        passable == is_passable(search, value),
{
    match search {
        Search::Reveal => value == 0,
        Search::Find => value != 1,
    }
}

/// The scene of a reveal: every cell reached is marked, and a cell whose
/// blocking value is not 0 stops the fill.
pub open spec fn reveal_scene(
    origin: Point,
    blocking: Seq<u8>,
    boundaries: Point,
    max_distance: i32,
) -> Scene {
    Scene {
        origin: origin@,
        mask: blocking,
        boundaries,
        radius: max_distance as int,
        search: Search::Reveal,
    }
}

/// The scene of a search: the fill stops at the first cell whose ground
/// value is 1.
pub open spec fn find_scene(
    origin: Point,
    ground: Seq<u8>,
    boundaries: Point,
    max_distance: i32,
) -> Scene {
    Scene {
        origin: origin@,
        mask: ground,
        boundaries,
        radius: max_distance as int,
        search: Search::Find,
    }
}

/// Reveals the area around `origin`: the mask of the cells that the flood
/// fill marks. Walls next to open floor are marked; the fill does not go
/// through them. A `max_distance` of 0 sets no limit.
pub fn unveil_room(origin: Point, blocking: Vec<u8>, boundaries: Point, max_distance: i32) -> (visibles:
    Vec<u8>)
    ensures
        ({
            let scene = reveal_scene(origin, blocking@, boundaries, max_distance);
            &&& visibles@ == run(scene, start(scene)).visible
            &&& visibles.len() == blocking.len()
            &&& forall|i: int|
                0 <= i < visibles.len() ==> #[trigger] visibles[i] == 0 || (visibles[i] == 1
                    && covered(scene, i))
            &&& enclosed(scene) ==> forall|i: int|
                0 <= i < visibles.len() ==> (visibles[i] == 1 <==> #[trigger] reached_index(
                    scene,
                    i,
                ))
            &&& enclosed(scene) ==> forall|k: int|
                0 <= k < 8 && markable(scene, #[trigger] neighbour(origin@, k)) ==> visibles[cell_index(
                    neighbour(origin@, k),
                    boundaries,
                )] == 1
        }),
{
    let outcome = traverse(&origin, &blocking, &boundaries, max_distance, Search::Reveal);
    proof {
        let scene = reveal_scene(origin, blocking@, boundaries, max_distance);
        lemma_run_plain(scene);
        if enclosed(scene) {
            lemma_enclosed_run(scene);
            assert forall|k: int|
                0 <= k < 8 && markable(
                    scene,
                    #[trigger] neighbour(origin@, k),
                ) implies outcome.visible[cell_index(neighbour(origin@, k), boundaries)] == 1 by {
                lemma_origin_ring(scene, k);
            }
        }
    }
    outcome.visible
}

/// Finds the nearest cell whose ground value is 1 and returns its index.
/// Without such a cell it returns 0, which is also the index of the first
/// cell.
pub fn find_next(origin: Point, ground: Vec<u8>, boundaries: Point, max_distance: i32) -> (index:
    usize)
    ensures
        ({
            let scene = find_scene(origin, ground@, boundaries, max_distance);
            let found = run(scene, start(scene)).found;
            &&& found is Some ==> index == found->0
            &&& found is None ==> index == 0
            &&& found is Some ==> index < ground.len() && ground[index as int] == 1 && covered(
                scene,
                index as int,
            )
            &&& enclosed(scene) ==> (found is Some <==> target_reachable(scene))
            &&& enclosed(scene) && found is Some ==> nearest_hit(scene, index as int)
        }),
{
    let outcome = traverse(&origin, &ground, &boundaries, max_distance, Search::Find);
    proof {
        let scene = find_scene(origin, ground@, boundaries, max_distance);
        lemma_run_plain(scene);
        if enclosed(scene) {
            lemma_enclosed_run(scene);
            if run(scene, start(scene)).found is Some {
                lemma_found_is_nearest(scene);
            }
        }
    }
    match outcome.found {
        Some(index) => index,
        None => 0,
    }
}

} // verus!
