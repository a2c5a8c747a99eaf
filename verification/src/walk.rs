//! Walks over the map: sequences of steps that never cross a recorded wall,
//! never leave the `i32` grid, and only enter cells the map knows (visited
//! cells and frontier cells).
use vstd::prelude::*;
use crate::dir::{Dir, GridCell, in_grid, step};
use crate::map::DynMap;

verus! {

/// Whether the map lets the robot step from `p` in direction `d`.
pub open spec fn open_step(map: DynMap, p: GridCell, d: Dir) -> bool {
    !map.wall(p, d) && in_grid(step(p, d))
}

/// Whether the map knows cell `c`: it was visited, or is on the frontier.
pub open spec fn known(map: DynMap, c: GridCell) -> bool {
    map.visited_cells().contains(c) || map.frontier_cells().contains(c)
}

/// Whether a walk may step from `p` in direction `d`: no recorded wall, and
/// the cell reached is known.
pub open spec fn search_step(map: DynMap, p: GridCell, d: Dir) -> bool {
    open_step(map, p, d) && known(map, step(p, d))
}

/// The cell reached from `p` by following the steps of `w`.
pub open spec fn walk_end(p: GridCell, w: Seq<Dir>) -> GridCell
    decreases w.len(),
{
    if w.len() == 0 {
        p
    } else {
        step(walk_end(p, w.drop_last()), w.last())
    }
}

/// Whether `w`, followed from `p`, only takes open steps into known cells.
pub open spec fn walk_ok(map: DynMap, p: GridCell, w: Seq<Dir>) -> bool
    decreases w.len(),
{
    if w.len() == 0 {
        in_grid(p)
    } else {
        walk_ok(map, p, w.drop_last()) && search_step(map, walk_end(p, w.drop_last()), w.last())
    }
}

/// Extending a walk by one step.
pub proof fn lemma_walk_push(map: DynMap, p: GridCell, w: Seq<Dir>, d: Dir)
    ensures
        walk_end(p, w.push(d)) == step(walk_end(p, w), d),
        walk_ok(map, p, w.push(d)) == (walk_ok(map, p, w) && search_step(map, walk_end(p, w), d)),
        w.push(d).len() == w.len() + 1,
        w.len() > 0 ==> w.push(d)[0] == w[0],
{
    assert(w.push(d).drop_last() =~= w);
}

/// A walk stays on the grid.
pub proof fn lemma_walk_in_grid(map: DynMap, p: GridCell, w: Seq<Dir>)
    requires
        walk_ok(map, p, w),
    ensures
        in_grid(walk_end(p, w)),
        in_grid(p),
    decreases w.len(),
{
    if w.len() > 0 {
        lemma_walk_in_grid(map, p, w.drop_last());
    }
}

/// Every prefix of a walk is a walk.
pub proof fn lemma_walk_prefix(map: DynMap, p: GridCell, w: Seq<Dir>, j: int)
    requires
        walk_ok(map, p, w),
        0 <= j <= w.len(),
    ensures
        walk_ok(map, p, w.take(j)),
    decreases w.len(),
{
    if j == w.len() {
        assert(w.take(j) =~= w);
    } else {
        lemma_walk_prefix(map, p, w.drop_last(), j);
        assert(w.drop_last().take(j) =~= w.take(j));
    }
}

/// Let `done` be a set of cells whose open neighbours all lie in `reached`.
/// A walk from a reached cell either stays in `done` up to its end, or meets a
/// reached cell outside `done` after some prefix of its steps.
pub proof fn lemma_walk_leaves(
    map: DynMap,
    s: GridCell,
    w: Seq<Dir>,
    reached: Set<GridCell>,
    done: Set<GridCell>,
) -> (j: int)
    requires
        walk_ok(map, s, w),
        reached.contains(s),
        done.subset_of(reached),
        forall|c: GridCell, d: Dir|
            done.contains(c) && search_step(map, c, d) ==> reached.contains(#[trigger] step(c, d)),
    ensures
        j == -1 ==> done.contains(walk_end(s, w)),
        j != -1 ==> 0 <= j <= w.len() && reached.contains(walk_end(s, w.take(j))) && !done.contains(
            walk_end(s, w.take(j)),
        ),
    decreases w.len(),
{
    if w.len() == 0 {
        assert(w.take(0) =~= w);
        if done.contains(s) {
            -1
        } else {
            0
        }
    } else {
        let w1 = w.drop_last();
        let j1 = lemma_walk_leaves(map, s, w1, reached, done);
        if j1 != -1 {
            assert(w1.take(j1) =~= w.take(j1));
            j1
        } else {
            let e = walk_end(s, w);
            assert(reached.contains(step(walk_end(s, w1), w.last())));
            if done.contains(e) {
                -1
            } else {
                assert(w.take(w.len() as int) =~= w);
                w.len() as int
            }
        }
    }
}


/// A walk only steps between neighbouring cells, never across a recorded
/// wall, and every cell it enters after the start is visited or on the
/// frontier.
pub proof fn lemma_walk_cells(map: DynMap, p: GridCell, w: Seq<Dir>, k: int)
    requires
        walk_ok(map, p, w),
        0 < k <= w.len(),
    ensures
        map.visited_cells().contains(walk_end(p, w.take(k))) || map.frontier_cells().contains(
            walk_end(p, w.take(k)),
        ),
        walk_end(p, w.take(k)) == step(walk_end(p, w.take(k - 1)), w[k - 1]),
        !map.wall(walk_end(p, w.take(k - 1)), w[k - 1]),
    decreases w.len(),
{
    if k < w.len() {
        lemma_walk_cells(map, p, w.drop_last(), k);
        assert(w.drop_last().take(k) =~= w.take(k));
        assert(w.drop_last().take(k - 1) =~= w.take(k - 1));
        assert(w.drop_last()[k - 1] == w[k - 1]);
    } else {
        assert(w.take(k) =~= w);
        assert(w.take(k - 1) =~= w.drop_last());
    }
}

} // verus!
