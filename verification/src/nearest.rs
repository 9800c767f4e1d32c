//! How far the flood fill has got: walks counted by their steps, and the
//! proof that a search stops at a target that no other target is nearer than.

use vstd::prelude::*;
use crate::flood::{finished, is_target, markable, run, start, step, Flood, Scene};
use crate::geometry::{adjacent, cell_index, direction, shifted, Cell};
use crate::reach::{
    consistent, enclosed, expanding, exploring, hit, is_walk, lemma_enclosed_run,
    lemma_neighbour_proper, lemma_run_keeps, lemma_step_consistent, linked, lit, lit_if_markable,
    lit_rightly, neighbour, proper, queued_well, reachable, ring_lit, settled, source,
    target_reachable,
};

verus! {

/// Some walk of at most `steps` steps ends at the cell.
pub open spec fn within(scene: Scene, cell: Cell, steps: int) -> bool {
    exists|path: Seq<Cell>| #[trigger]
        is_walk(scene, path) && path.last() == cell && path.len() - 1 <= steps
}

/// A walk of at most `steps` steps can be taken from `from` to its
/// neighbour `to`: `from` is the origin, or a cell that the traversal goes on
/// from and that a walk of at most `steps` steps reaches.
pub open spec fn feeds(scene: Scene, from: Cell, to: Cell, steps: int) -> bool {
    &&& adjacent(from, to)
    &&& from == scene.origin || (expanding(scene, from) && within(scene, from, steps))
}

/// Some cell feeds the cell.
pub open spec fn fed(scene: Scene, cell: Cell, steps: int) -> bool {
    exists|from: Cell| #[trigger] feeds(scene, from, cell, steps)
}

/// A cell within some steps is within any larger number of steps; a walk
/// has at least one step.
pub proof fn lemma_within_more(scene: Scene, cell: Cell, fewer: int, more: int)
    requires
        fewer <= more,
        within(scene, cell, fewer),
    ensures
        within(scene, cell, more),
        reachable(scene, cell),
        fewer >= 1,
{
    let path = choose|path: Seq<Cell>| #[trigger]
        is_walk(scene, path) && path.last() == cell && path.len() - 1 <= fewer;
    assert(is_walk(scene, path) && path.last() == cell && path.len() - 1 <= more);
}

/// A walk taken one step further is one step longer.
pub proof fn lemma_within_on(scene: Scene, from: Cell, to: Cell, steps: int)
    requires
        steps >= 0,
        feeds(scene, from, to, steps),
        markable(scene, to),
    ensures
        within(scene, to, steps + 1),
{
    if from == scene.origin {
        let path = seq![from, to];
        assert(linked(path, 0));
        assert(is_walk(scene, path) && path.last() == to && path.len() - 1 <= steps + 1);
    } else {
        let before = choose|path: Seq<Cell>| #[trigger]
            is_walk(scene, path) && path.last() == from && path.len() - 1 <= steps;
        let path = before.push(to);
        assert forall|i: int| 0 <= i < path.len() - 1 implies #[trigger] linked(path, i) by {
            if i < before.len() - 1 {
                assert(linked(before, i));
            }
        }
        assert forall|i: int| 1 <= i < path.len() - 1 implies expanding(
            scene,
            #[trigger] path[i],
        ) by {
            if i < before.len() - 1 {
                assert(expanding(scene, before[i]));
            }
        }
        assert(is_walk(scene, path) && path.last() == to && path.len() - 1 <= steps + 1);
    }
}

/// A walk comes from somewhere: its last step is taken from the origin or
/// from a cell that a walk one step shorter reaches.
pub proof fn lemma_within_back(scene: Scene, cell: Cell, steps: int)
    requires
        within(scene, cell, steps + 1),
    ensures
        within(scene, cell, steps) || fed(scene, cell, steps),
{
    let path = choose|path: Seq<Cell>| #[trigger]
        is_walk(scene, path) && path.last() == cell && path.len() - 1 <= steps + 1;
    if path.len() - 1 <= steps {
        assert(is_walk(scene, path) && path.last() == cell && path.len() - 1 <= steps);
    } else {
        let last = path.len() - 1;
        let from = path[last - 1];
        assert(linked(path, last - 1));
        if last > 1 {
            let shorter = path.drop_last();
            assert(expanding(scene, path[last - 1]));
            assert forall|i: int| 0 <= i < shorter.len() - 1 implies #[trigger] linked(
                shorter,
                i,
            ) by {
                assert(linked(path, i));
            }
            assert forall|i: int| 1 <= i < shorter.len() - 1 implies expanding(
                scene,
                #[trigger] shorter[i],
            ) by {
                assert(expanding(scene, path[i]));
            }
            assert(is_walk(scene, shorter) && shorter.last() == from && shorter.len() - 1
                <= steps);
        }
        assert(feeds(scene, from, cell, steps));
    }
}

/// Every markable cell that a walk of at most `steps` steps reaches is
/// marked.
pub open spec fn lit_within(scene: Scene, visible: Seq<u8>, steps: int) -> bool {
    forall|cell: Cell|
        markable(scene, cell) && #[trigger] within(scene, cell, steps) ==> lit(
            scene,
            visible,
            cell,
        )
}

/// The queue is in layers: the front lies `level` steps from the origin
/// and no cell behind it lies nearer or more than one step farther, the
/// nearer ones first.
pub open spec fn queue_layered(scene: Scene, queue: Seq<Cell>, level: int) -> bool {
    &&& level == 0 ==> queue[0] == scene.origin
    &&& level >= 1 ==> within(scene, queue[0], level) && !within(scene, queue[0], level - 1)
    &&& forall|j: int|
        1 <= j < queue.len() ==> within(scene, #[trigger] queue[j], level + 1) && !within(
            scene,
            queue[j],
            level - 1,
        )
    &&& forall|j: int, k: int|
        1 <= j < k < queue.len() && within(scene, #[trigger] queue[k], level) ==> within(
            scene,
            #[trigger] queue[j],
            level,
        )
}

/// The traversal has dealt with every cell up to `level` steps from the
/// origin, and its queue is in layers from there on.
pub open spec fn layered(scene: Scene, flood: Flood, level: int) -> bool {
    &&& level >= 0
    &&& flood.queue.len() > 0 ==> queue_layered(scene, flood.queue, level)
    &&& lit_within(scene, flood.visible, level)
}

/// No target lies within `steps` steps of the origin.
pub open spec fn no_target_within(scene: Scene, steps: int) -> bool {
    forall|cell: Cell|
        markable(scene, cell) && #[trigger] within(scene, cell, steps) ==> !is_target(
            scene.search,
            scene.mask[cell_index(cell, scene.boundaries)],
        )
}

/// A walk of at most `steps` steps reaches a target with this index.
pub open spec fn hit_within(scene: Scene, index: int, steps: int) -> bool {
    exists|cell: Cell| #[trigger] hit(scene, cell, index) && within(scene, cell, steps)
}

/// A walk reaches a target with this index, and no walk with fewer steps
/// reaches any target.
pub open spec fn nearest_hit(scene: Scene, index: int) -> bool {
    exists|steps: int| #[trigger]
        hit_within(scene, index, steps) && no_target_within(scene, steps - 1)
}

/// Some level fits the traversal.
pub open spec fn some_layer(scene: Scene, flood: Flood) -> bool {
    exists|level: int| #[trigger] layered(scene, flood, level)
}

/// What holds at every moment of the traversal of an enclosed scene, with
/// the layers of the queue.
pub open spec fn levelled(scene: Scene, flood: Flood) -> bool {
    &&& consistent(scene, flood)
    &&& flood.found is None ==> some_layer(scene, flood)
    &&& flood.found is Some ==> nearest_hit(scene, flood.found->0)
}

/// Once every source up to `level` steps has left the queue, every cell up to
/// one step more is marked.
pub proof fn lemma_level_up(scene: Scene, flood: Flood, level: int)
    requires
        enclosed(scene),
        level >= 0,
        exploring(scene, flood),
        lit_within(scene, flood.visible, level),
        level >= 1 || ring_lit(scene, flood.visible, scene.origin, 8),
        forall|j: int| 0 <= j < flood.queue.len() ==> !within(scene, #[trigger] flood.queue[j], level),
    ensures
        lit_within(scene, flood.visible, level + 1),
{
    assert forall|cell: Cell|
        markable(scene, cell) && #[trigger] within(scene, cell, level + 1) implies lit(
        scene,
        flood.visible,
        cell,
    ) by {
        lemma_within_back(scene, cell, level);
        if !within(scene, cell, level) {
            let from = choose|from: Cell| #[trigger] feeds(scene, from, cell, level);
            let k = choose|k: int| 0 <= k < 8 && cell == #[trigger] shifted(from, direction(k));
            assert(cell == neighbour(from, k));
            if from == scene.origin && level >= 1 {
                lemma_within_on(scene, from, cell, 0);
                lemma_within_more(scene, cell, 1, level);
            } else {
                if from != scene.origin {
                    assert(lit(scene, flood.visible, from));
                    assert(source(scene, flood.visible, from));
                    assert(settled(scene, flood.queue, flood.visible, from));
                    if flood.queue.contains(from) {
                        let j = choose|j: int| 0 <= j < flood.queue.len() && flood.queue[j] == from;
                        assert(!within(scene, flood.queue[j], level));
                    }
                }
                assert(ring_lit(scene, flood.visible, from, 8));
                assert(lit_if_markable(scene, flood.visible, neighbour(from, k)));
            }
        }
    }
}

/// A step of an unfinished traversal keeps an enclosed scene levelled.
pub proof fn lemma_step_levelled(scene: Scene, flood: Flood)
    requires
        enclosed(scene),
        levelled(scene, flood),
        !finished(flood),
    ensures
        levelled(scene, step(scene, flood)),
{
    let after = step(scene, flood);
    lemma_step_consistent(scene, flood);
    let level = choose|level: int| #[trigger] layered(scene, flood, level);
    let front = flood.queue[0];
    assert(queued_well(scene, flood.visible, front));
    if 0 <= flood.next < 8 {
        let k = flood.next;
        let child = neighbour(front, k);
        let index = cell_index(child, scene.boundaries);
        lemma_neighbour_proper(scene, flood.visible, front, k);
        if !(0 <= index < scene.mask.len()) || flood.visited[index] || !markable(scene, child) {
            assert(after.queue == flood.queue);
            assert(after.visible == flood.visible);
            assert(layered(scene, after, level));
        } else {
            assert(feeds(scene, front, child, level));
            lemma_within_on(scene, front, child, level);
            assert(!within(scene, child, level)) by {
                if within(scene, child, level) {
                    assert(lit(scene, flood.visible, child));
                    assert(flood.visible[index] == 1);
                }
            }
            if is_target(scene.search, scene.mask[index]) {
                assert(hit(scene, child, index));
                assert(hit_within(scene, index, level + 1));
                assert forall|cell: Cell|
                    markable(scene, cell) && #[trigger] within(
                        scene,
                        cell,
                        level,
                    ) implies !is_target(
                    scene.search,
                    scene.mask[cell_index(cell, scene.boundaries)],
                ) by {
                    assert(lit(scene, flood.visible, cell));
                    lemma_reached_cell_proper(scene, cell, level);
                    assert(lit_rightly(scene, cell));
                }
                assert(no_target_within(scene, level + 1 - 1));
                assert(after.found == Some(index));
            } else {
                assert(after.visible == flood.visible.update(index, 1u8));
                assert forall|cell: Cell| lit(scene, flood.visible, cell) implies lit(
                    scene,
                    after.visible,
                    cell,
                ) by {}
                assert(lit_within(scene, after.visible, level));
                if after.queue != flood.queue {
                    assert(after.queue == flood.queue.push(child));
                    let grown = after.queue;
                    assert forall|j: int| 1 <= j < grown.len() implies within(
                        scene,
                        #[trigger] grown[j],
                        level + 1,
                    ) && !within(scene, grown[j], level - 1) by {
                        if j < flood.queue.len() {
                            assert(grown[j] == flood.queue[j]);
                        } else {
                            if within(scene, child, level - 1) {
                                lemma_within_more(scene, child, level - 1, level);
                            }
                        }
                    }
                    assert forall|j: int, m: int|
                        1 <= j < m < grown.len() && within(
                            scene,
                            #[trigger] grown[m],
                            level,
                        ) implies within(scene, #[trigger] grown[j], level) by {
                        assert(grown[j] == flood.queue[j]);
                        if m < flood.queue.len() {
                            assert(grown[m] == flood.queue[m]);
                        }
                    }
                    assert(grown[0] == flood.queue[0]);
                    assert(queue_layered(scene, grown, level));
                }
                assert(layered(scene, after, level));
            }
        }
    } else {
        assert(after.queue == flood.queue.drop_first());
        assert(after.visible == flood.visible);
        assert(flood.next == 8);
        let rest = after.queue;
        if rest.len() == 0 {
            assert(layered(scene, after, level));
        } else {
            assert forall|j: int| 0 <= j < rest.len() implies rest[j] == flood.queue[j + 1] by {}
            assert(rest[0] == flood.queue[1]);
            if level >= 1 && within(scene, rest[0], level) {
                assert forall|j: int, m: int|
                    1 <= j < m < rest.len() && within(
                        scene,
                        #[trigger] rest[m],
                        level,
                    ) implies within(scene, #[trigger] rest[j], level) by {
                    assert(rest[j] == flood.queue[j + 1]);
                    assert(rest[m] == flood.queue[m + 1]);
                }
                assert forall|j: int| 1 <= j < rest.len() implies within(
                    scene,
                    #[trigger] rest[j],
                    level + 1,
                ) && !within(scene, rest[j], level - 1) by {
                    assert(rest[j] == flood.queue[j + 1]);
                }
                assert(queue_layered(scene, rest, level));
                assert(layered(scene, after, level));
            } else {
                assert forall|j: int| 0 <= j < rest.len() implies !within(
                    scene,
                    #[trigger] rest[j],
                    level,
                ) by {
                    assert(rest[j] == flood.queue[j + 1]);
                    if within(scene, rest[j], level) {
                        lemma_within_more(scene, rest[j], level, level);
                        if j > 0 {
                            assert(within(scene, flood.queue[1], level));
                        }
                    }
                }
                lemma_level_up(scene, after, level);
                assert forall|j: int| 1 <= j < rest.len() implies within(
                    scene,
                    #[trigger] rest[j],
                    level + 2,
                ) && !within(scene, rest[j], level) by {
                    assert(rest[j] == flood.queue[j + 1]);
                    lemma_within_more(scene, rest[j], level + 1, level + 2);
                }
                assert forall|j: int, m: int|
                    1 <= j < m < rest.len() && within(
                        scene,
                        #[trigger] rest[m],
                        level + 1,
                    ) implies within(scene, #[trigger] rest[j], level + 1) by {
                    assert(rest[j] == flood.queue[j + 1]);
                }
                assert(queue_layered(scene, rest, level + 1));
                assert(layered(scene, after, level + 1));
            }
        }
    }
}

/// On an enclosed scene a cell that a walk reaches lies in a proper column.
pub proof fn lemma_reached_cell_proper(scene: Scene, cell: Cell, steps: int)
    requires
        enclosed(scene),
        within(scene, cell, steps),
    ensures
        proper(cell, scene.boundaries),
{
    lemma_within_more(scene, cell, steps, steps);
    crate::reach::lemma_reachable_is_proper(scene, cell);
}

/// The run of an enclosed scene ends levelled.
pub proof fn lemma_run_levelled(scene: Scene)
    requires
        enclosed(scene),
    ensures
        levelled(scene, run(scene, start(scene))),
{
    let kept = |f: Flood| levelled(scene, f);
    let first = start(scene);
    crate::reach::lemma_start_consistent(scene);
    assert(layered(scene, first, 0)) by {
        assert forall|cell: Cell|
            markable(scene, cell) && #[trigger] within(scene, cell, 0) implies lit(
            scene,
            first.visible,
            cell,
        ) by {
            lemma_within_more(scene, cell, 0, 0);
        }
    }
    assert forall|f: Flood|
        #[trigger] kept(f) && !finished(f) && f.visited.len() == scene.mask.len() implies kept(
        step(scene, f),
    ) by {
        lemma_step_levelled(scene, f);
    }
    lemma_run_keeps(scene, first, kept);
}

/// A search on an enclosed scene stops at a nearest target: a walk reaches
/// a target with the index found, and no walk with fewer steps reaches any
/// target.
pub proof fn lemma_found_is_nearest(scene: Scene)
    requires
        enclosed(scene),
        run(scene, start(scene)).found is Some,
    ensures
        nearest_hit(scene, run(scene, start(scene)).found->0),
{
    lemma_run_levelled(scene);
}

/// Where walks reach targets of one index only, a search on an enclosed
/// scene finds that index.
pub proof fn lemma_only_target(scene: Scene, target: Cell)
    requires
        enclosed(scene),
        reachable(scene, target),
        is_target(scene.search, scene.mask[cell_index(target, scene.boundaries)]),
        forall|cell: Cell|
            #[trigger] reachable(scene, cell) && is_target(
                scene.search,
                scene.mask[cell_index(cell, scene.boundaries)],
            ) ==> cell_index(cell, scene.boundaries) == cell_index(target, scene.boundaries),
    ensures
        run(scene, start(scene)).found == Some(cell_index(target, scene.boundaries)),
{
    let found = run(scene, start(scene)).found;
    lemma_enclosed_run(scene);
    assert(target_reachable(scene));
    let cell = choose|cell: Cell| #[trigger] hit(scene, cell, found->0);
    assert(reachable(scene, cell));
}

} // verus!
