//! Choosing the next move: toward the nearest frontier cell while exploring,
//! toward the start cell when returning.
use vstd::prelude::*;
use crate::dir::{Dir, GridCell, cell_of};
use crate::map::DynMap;
use crate::bfs::{Goal, bfs_first_step, goal_holds, goal_reachable, nearest_goal_walk};

verus! {

/// The start cell, origin of the map's coordinates.
pub open spec fn origin() -> GridCell {
    (0, 0)
}

/// The next move toward the closest frontier cell, through visited and
/// frontier cells, or `None` when no frontier cell is reachable (or the map
/// has none, or `pos` is one). Of
/// the first steps of the shortest walks to frontier cells, it takes the
/// one of lowest index (North, East, South, West).
pub fn explore_next(map: &DynMap, pos: (i32, i32)) -> (r: Option<Dir>)
    requires
        map.wf(),
    ensures
        map.frontier_cells() == Set::<GridCell>::empty() ==> r is None,
        map.frontier_cells().contains(cell_of(pos)) ==> r is None,
        r is None ==> map.frontier_cells().contains(cell_of(pos)) || !goal_reachable(
            *map,
            cell_of(pos),
            Goal::Frontier,
        ),
        r matches Some(d) ==> exists|w: Seq<Dir>|
            #![trigger nearest_goal_walk(*map, cell_of(pos), Goal::Frontier, w)]
            nearest_goal_walk(*map, cell_of(pos), Goal::Frontier, w) && w.len() > 0 && w[0] == d,
        r matches Some(d) ==> forall|w: Seq<Dir>|
            #![trigger nearest_goal_walk(*map, cell_of(pos), Goal::Frontier, w)]
            nearest_goal_walk(*map, cell_of(pos), Goal::Frontier, w) ==> d.idx() <= w[0].idx(),
{
    if map.frontier_is_empty() {
        proof {
            assert forall|w: Seq<Dir>| #![trigger crate::walk::walk_ok(*map, cell_of(pos), w)]
                crate::walk::walk_ok(*map, cell_of(pos), w) implies !goal_holds(
                *map,
                Goal::Frontier,
                crate::walk::walk_end(cell_of(pos), w),
            ) by {}
        }
        return None;
    }
    bfs_first_step(map, pos, Goal::Frontier, None)
}

/// The next move toward the start cell `(0, 0)` through visited and frontier cells, or
/// `None` when already there or when it cannot be reached. Of the first
/// steps of the shortest walks home, it takes the one of lowest index
/// (North, East, South, West).
pub fn return_next(map: &DynMap, pos: (i32, i32)) -> (r: Option<Dir>)
    requires
        map.wf(),
    ensures
        cell_of(pos) == origin() ==> r is None,
        r is None ==> cell_of(pos) == origin() || !goal_reachable(
            *map,
            cell_of(pos),
            Goal::Cell(0, 0),
        ),
        r matches Some(d) ==> exists|w: Seq<Dir>|
            #![trigger nearest_goal_walk(*map, cell_of(pos), Goal::Cell(0, 0), w)]
            nearest_goal_walk(*map, cell_of(pos), Goal::Cell(0, 0), w) && w.len() > 0 && w[0] == d,
        r matches Some(d) ==> forall|w: Seq<Dir>|
            #![trigger nearest_goal_walk(*map, cell_of(pos), Goal::Cell(0, 0), w)]
            nearest_goal_walk(*map, cell_of(pos), Goal::Cell(0, 0), w) ==> d.idx() <= w[0].idx(),
{
    bfs_first_step(map, pos, Goal::Cell(0, 0), None)
}

} // verus!
