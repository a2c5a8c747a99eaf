//! Breadth-first search for the first step toward the nearest goal cell.
//!
//! The search runs over the cells the map knows, visited cells and frontier
//! cells, joined by edges with no recorded wall. A frontier cell's own walls
//! are unknown, but the edge that reached it was confirmed open, so the
//! search passes through it. It serves both return-to-start (goal: one cell)
//! and frontier exploration (goal: any frontier cell).
use vstd::prelude::*;
use std::collections::{HashMap, HashSet, VecDeque};
use crate::dir::{Dir, GridCell, cell_of, in_grid, step, neighbor, has_neighbor};
use crate::map::{DynMap, key_of, cell_key, cells_of_keys, lemma_cell_key, lemma_cell_key_injective};
use crate::walk::{search_step, walk_end, walk_ok, lemma_walk_push, lemma_walk_prefix, lemma_walk_leaves, lemma_walk_in_grid};

verus! {

broadcast use vstd::std_specs::hash::group_hash_axioms;

/// What the search looks for.
#[derive(Clone, Copy, Debug, PartialEq, Eq, Structural)]
pub enum Goal {
    /// Any cell on the map's frontier.
    Frontier,
    /// One given cell `(row, col)`.
    Cell(i32, i32),
}

/// Whether cell `p` satisfies the goal on this map.
pub open spec fn goal_holds(map: DynMap, goal: Goal, p: GridCell) -> bool {
    match goal {
        Goal::Frontier => map.frontier_cells().contains(p),
        Goal::Cell(r, c) => p == (r as int, c as int),
    }
}

/// Whether `w` is a walk from `s` to a goal cell that no walk to a goal cell is shorter than.
pub open spec fn nearest_goal_walk(map: DynMap, s: GridCell, goal: Goal, w: Seq<Dir>) -> bool {
    &&& walk_ok(map, s, w)
    &&& goal_holds(map, goal, walk_end(s, w))
    &&& forall|w2: Seq<Dir>|
        #![trigger walk_ok(map, s, w2)]
        walk_ok(map, s, w2) && goal_holds(map, goal, walk_end(s, w2)) ==> w2.len() >= w.len()
}

/// Whether some walk from `s` reaches a goal cell.
pub open spec fn goal_reachable(map: DynMap, s: GridCell, goal: Goal) -> bool {
    exists|w: Seq<Dir>|
        #![trigger walk_ok(map, s, w)]
        walk_ok(map, s, w) && goal_holds(map, goal, walk_end(s, w))
}

/// Whether cell `pos` satisfies the goal.
pub fn goal_met(map: &DynMap, goal: Goal, pos: (i32, i32)) -> (r: bool)
    requires
        map.wf(),
    ensures
        r == goal_holds(*map, goal, cell_of(pos)),
{
    match goal {
        Goal::Frontier => map.in_frontier(pos),
        Goal::Cell(r, c) => pos.0 == r && pos.1 == c,
    }
}

/// The place of direction `d` in the order in which the search tries
/// directions: the preferred one first, then the others in index order.
pub open spec fn order_rank(prefer: Option<Dir>, d: Dir) -> int {
    match prefer {
        None => d.idx(),
        Some(p) => if d == p {
            0
        } else if d.idx() < p.idx() {
            d.idx() + 1
        } else {
            d.idx()
        },
    }
}

/// The order in which directions are tried: the preferred one first, then the
/// others in index order.
pub fn direction_order(prefer: Option<Dir>) -> (order: [usize; 4])
    ensures
        forall|j: int| 0 <= j < 4 ==> order_rank(prefer, #[trigger] Dir::of_index(order[j] as int)) == j,
        forall|j: int| 0 <= j < 4 ==> order[j] < 4,
        forall|d: Dir| #![trigger d.idx()] exists|j: int| 0 <= j < 4 && order[j] as int == d.idx(),
        prefer matches Some(p) ==> order[0] as int == p.idx(),
        prefer is None ==> order@ == seq![0usize, 1, 2, 3],
{
    let order: [usize; 4] = match prefer {
        Some(Dir::North) => [0, 1, 2, 3],
        Some(Dir::East) => [1, 0, 2, 3],
        Some(Dir::South) => [2, 0, 1, 3],
        Some(Dir::West) => [3, 0, 1, 2],
        None => [0, 1, 2, 3],
    };
    proof {
        assert forall|d: Dir| #![trigger d.idx()] exists|j: int| 0 <= j < 4 && order[j] as int == d.idx() by {
            if order[0] as int == d.idx() {
            } else if order[1] as int == d.idx() {
            } else if order[2] as int == d.idx() {
            } else {
                assert(order[3] as int == d.idx());
            }
        }
        if prefer is None {
            assert(order@ =~= seq![0usize, 1, 2, 3]);
        }
    }
    order
}

/// The search only marks as seen the keys of known cells and of the start,
/// so it sees at most one more cell than the map knows.
proof fn lemma_seen_bound(map: DynMap, seen: Set<u64>, sk: u64)
    requires
        map.wf(),
        seen.subset_of(map.visited_keys().union(map.frontier_keys()).insert(sk)),
    ensures
        seen.finite(),
        seen.len() <= map.visited_keys().len() + map.frontier_keys().len() + 1,
{
    let u = map.visited_keys().union(map.frontier_keys());
    vstd::set_lib::lemma_len_union(map.visited_keys(), map.frontier_keys());
    vstd::set_lib::lemma_len_subset(seen, u.insert(sk));
}

/// Search state invariants shared by the outer and inner loop.
spec fn search_inv(
    map: DynMap,
    s: GridCell,
    goal: Goal,
    paths: Map<GridCell, Seq<Dir>>,
    done: Set<GridCell>,
    seen: Set<u64>,
    first: Map<u64, Dir>,
) -> bool {
    &&& paths.dom().contains(s)
    &&& paths[s] == Seq::<Dir>::empty()
    &&& done.subset_of(paths.dom())
    &&& seen.finite()
    &&& forall|c: GridCell| #[trigger] paths.dom().contains(c) ==> in_grid(c)
    &&& forall|c: GridCell|
        in_grid(c) ==> (seen.contains(cell_key(c) as u64) <==> #[trigger] paths.dom().contains(c))
    &&& forall|c: GridCell| #[trigger]
        paths.dom().contains(c) ==> walk_ok(map, s, paths[c]) && walk_end(s, paths[c]) == c
            && !goal_holds(map, goal, c)
    &&& forall|c: GridCell| #[trigger]
        paths.dom().contains(c) && c != s ==> first.contains_key(cell_key(c) as u64) && paths[c].len()
            > 0 && first[cell_key(c) as u64] == paths[c][0]
    &&& forall|w: Seq<Dir>|
        #![trigger walk_ok(map, s, w)]
        walk_ok(map, s, w) && paths.dom().contains(walk_end(s, w)) ==> w.len() >= paths[walk_end(
            s,
            w,
        )].len()
    &&& forall|c: GridCell, d: Dir|
        done.contains(c) && search_step(map, c, d) ==> paths.dom().contains(#[trigger] step(c, d))
}

/// Under the search invariants, with every reached cell outside `done` at
/// distance at least `lvl`, any walk to an unreached cell is longer than `lvl`.
proof fn lemma_unreached_far(
    map: DynMap,
    s: GridCell,
    goal: Goal,
    paths: Map<GridCell, Seq<Dir>>,
    done: Set<GridCell>,
    seen: Set<u64>,
    first: Map<u64, Dir>,
    lvl: int,
    w: Seq<Dir>,
)
    requires
        search_inv(map, s, goal, paths, done, seen, first),
        forall|c: GridCell| #[trigger]
            paths.dom().contains(c) && !done.contains(c) ==> paths[c].len() >= lvl,
        walk_ok(map, s, w),
        !paths.dom().contains(walk_end(s, w)),
    ensures
        w.len() >= lvl + 1,
{
    let j = lemma_walk_leaves(map, s, w, paths.dom(), done);
    if j != -1 {
        let c = walk_end(s, w.take(j));
        lemma_walk_prefix(map, s, w, j);
        assert(walk_ok(map, s, w.take(j)));
        assert(w.take(j).len() >= paths[c].len());
        if j == w.len() {
            assert(w.take(j) =~= w);
        }
    }
}

/// The order rank of a walk's first step (0 for the empty walk).
spec fn first_rank(prefer: Option<Dir>, w: Seq<Dir>) -> int {
    if w.len() == 0 {
        0
    } else {
        order_rank(prefer, w[0])
    }
}

/// The search visits cells by length of their walk, then by the order rank
/// of its first step.
spec fn path_key(prefer: Option<Dir>, paths: Map<GridCell, Seq<Dir>>, c: GridCell) -> int {
    paths[c].len() * 4 + first_rank(prefer, paths[c])
}

/// No walk to `c` as short as `pc` starts with a direction tried earlier.
spec fn least_first_step(map: DynMap, s: GridCell, prefer: Option<Dir>, c: GridCell, pc: Seq<Dir>) -> bool {
    forall|w: Seq<Dir>|
        #![trigger walk_ok(map, s, w)]
        walk_ok(map, s, w) && walk_end(s, w) == c && w.len() == pc.len() ==> order_rank(prefer, w[0])
            >= order_rank(prefer, pc[0])
}

spec fn rank_inv(map: DynMap, s: GridCell, prefer: Option<Dir>, paths: Map<GridCell, Seq<Dir>>) -> bool {
    forall|c: GridCell| #[trigger]
        paths.dom().contains(c) && c != s ==> least_first_step(map, s, prefer, c, paths[c])
}

proof fn lemma_order_rank_range(prefer: Option<Dir>)
    ensures
        forall|d: Dir| 0 <= #[trigger] order_rank(prefer, d) < 4,
{
    assert forall|d: Dir| 0 <= #[trigger] order_rank(prefer, d) < 4 by {
        crate::dir::lemma_index_roundtrip(d);
    }
}

proof fn lemma_step_injective(p: GridCell, d1: Dir, d2: Dir)
    requires
        step(p, d1) == step(p, d2),
    ensures
        d1 == d2,
{
}

/// A one-step walk from `s` is the step of its only direction.
proof fn lemma_single_step(map: DynMap, s: GridCell, w: Seq<Dir>)
    requires
        w.len() == 1,
        walk_ok(map, s, w),
    ensures
        walk_end(s, w) == step(s, w[0]),
        search_step(map, s, w[0]),
{
    assert(w.drop_last() =~= Seq::<Dir>::empty());
}

/// Under the search invariants, with every reached cell outside `done` at
/// distance at least `lvl`: a walk of length `lvl + 1` to an unreached cell
/// passes, after `lvl` steps, through a reached cell outside `done` at
/// distance `lvl`, from which its last step is open.
proof fn lemma_prefix_cell(
    map: DynMap,
    s: GridCell,
    goal: Goal,
    paths: Map<GridCell, Seq<Dir>>,
    done: Set<GridCell>,
    seen: Set<u64>,
    first: Map<u64, Dir>,
    lvl: int,
    w: Seq<Dir>,
) -> (c: GridCell)
    requires
        search_inv(map, s, goal, paths, done, seen, first),
        forall|c: GridCell| #[trigger]
            paths.dom().contains(c) && !done.contains(c) ==> paths[c].len() >= lvl,
        lvl >= 0,
        walk_ok(map, s, w),
        w.len() == lvl + 1,
        !paths.dom().contains(walk_end(s, w)),
    ensures
        c == walk_end(s, w.take(lvl)),
        walk_ok(map, s, w.take(lvl)),
        paths.dom().contains(c),
        !done.contains(c),
        paths[c].len() == lvl,
        walk_end(s, w) == step(c, w[lvl]),
{
    let pre = w.take(lvl);
    assert(w.drop_last() =~= pre);
    lemma_walk_prefix(map, s, w, lvl);
    let c = walk_end(s, pre);
    if !paths.dom().contains(c) {
        lemma_unreached_far(map, s, goal, paths, done, seen, first, lvl, pre);
    }
    assert(pre.len() >= paths[c].len());
    c
}

/// Every walk of length `lvl + 1` to an unreached cell starts with a
/// direction tried no earlier than the first step toward `p`, the cell being
/// expanded, when the cells still queued at distance `lvl` come after `p`.
proof fn lemma_nearest_rank(
    map: DynMap,
    s: GridCell,
    goal: Goal,
    prefer: Option<Dir>,
    paths: Map<GridCell, Seq<Dir>>,
    done: Set<GridCell>,
    seen: Set<u64>,
    first: Map<u64, Dir>,
    lvl: int,
    p: GridCell,
    q: Seq<(i32, i32)>,
    n0: int,
    w: Seq<Dir>,
)
    requires
        search_inv(map, s, goal, paths, done, seen, first),
        rank_inv(map, s, prefer, paths),
        forall|c: GridCell| #[trigger]
            paths.dom().contains(c) && !done.contains(c) ==> paths[c].len() >= lvl,
        paths.dom().contains(p),
        paths[p].len() == lvl,
        p != s,
        0 <= n0 <= q.len(),
        forall|c: GridCell| #[trigger]
            paths.dom().contains(c) && !done.contains(c) && c != p ==> exists|i: int|
                0 <= i < q.len() && cell_of(q[i]) == c,
        forall|i: int| 0 <= i < q.len() ==> #[trigger] paths.dom().contains(cell_of(q[i])),
        forall|i: int| n0 <= i < q.len() ==> #[trigger] paths[cell_of(q[i])].len() == lvl + 1,
        forall|i: int|
            0 <= i < n0 ==> #[trigger] path_key(prefer, paths, cell_of(q[i])) >= path_key(
                prefer,
                paths,
                p,
            ),
        walk_ok(map, s, w),
        w.len() == lvl + 1,
        !paths.dom().contains(walk_end(s, w)),
    ensures
        order_rank(prefer, w[0]) >= order_rank(prefer, paths[p][0]),
{
    let c = lemma_prefix_cell(map, s, goal, paths, done, seen, first, lvl, w);
    let pre = w.take(lvl);
    assert(paths[p].len() > 0);
    assert(pre[0] == w[0]);
    if c == p {
        assert(least_first_step(map, s, prefer, p, paths[p]));
        assert(walk_ok(map, s, pre));
    } else {
        let i = choose|i: int| 0 <= i < q.len() && cell_of(q[i]) == c;
        assert(i < n0);
        assert(path_key(prefer, paths, c) >= path_key(prefer, paths, p));
        assert(c != s);
        assert(least_first_step(map, s, prefer, c, paths[c]));
        assert(walk_ok(map, s, pre));
    }
}

/// The first direction to step from `start` toward the nearest cell that
/// satisfies `goal`, following edges with no recorded wall into visited or
/// frontier cells only (never leaving the `i32` grid). The search expands
/// each of those cells at most once, and the start: at most
/// visited + frontier + 1 cells. `None` when `start` itself satisfies
/// the goal or no goal cell is reachable. Of the first steps of the
/// shortest walks to goal cells, the one returned comes first in the order
/// the search tries directions: `prefer`, then the others in index order.
pub fn bfs_first_step(map: &DynMap, start: (i32, i32), goal: Goal, prefer: Option<Dir>) -> (r:
    Option<Dir>)
    requires
        map.wf(),
    ensures
        goal_holds(*map, goal, cell_of(start)) ==> r is None,
        r is None ==> goal_holds(*map, goal, cell_of(start)) || !goal_reachable(
            *map,
            cell_of(start),
            goal,
        ),
        r matches Some(d) ==> exists|w: Seq<Dir>|
            #![trigger nearest_goal_walk(*map, cell_of(start), goal, w)]
            nearest_goal_walk(*map, cell_of(start), goal, w) && w.len() > 0 && w[0] == d,
        r matches Some(d) ==> forall|w: Seq<Dir>|
            #![trigger nearest_goal_walk(*map, cell_of(start), goal, w)]
            nearest_goal_walk(*map, cell_of(start), goal, w) ==> order_rank(prefer, d)
                <= order_rank(prefer, w[0]),
{
    let ghost s = cell_of(start);
    if goal_met(map, goal, start) {
        return None;
    }
    let mut came_first: HashMap<u64, Dir> = HashMap::new();
    let mut seen: HashSet<u64> = HashSet::new();
    let mut queue: VecDeque<(i32, i32)> = VecDeque::new();
    queue.push_back(start);
    let sk = key_of(start);
    seen.insert(sk);
    let order = direction_order(prefer);

    let ghost mut paths: Map<GridCell, Seq<Dir>> = map![s => Seq::<Dir>::empty()];
    let ghost mut done: Set<GridCell> = Set::empty();
    let ghost mut lvl: int = 0;
    proof {
        lemma_cell_key(s);
        assert forall|c: GridCell|
            in_grid(c) implies (seen@.contains(cell_key(c) as u64) <==> #[trigger] paths.dom().contains(
            c,
        )) by {
            lemma_cell_key(c);
            if cell_key(c) == cell_key(s) {
                lemma_cell_key_injective(c, s);
            }
        }
        assert forall|w: Seq<Dir>|
            #![trigger walk_ok(*map, s, w)]
            walk_ok(*map, s, w) && paths.dom().contains(walk_end(s, w)) implies w.len() >= paths[walk_end(
            s,
            w,
        )].len() by {}
        assert(cell_of(queue@[0]) == s);
    }

    while queue.len() > 0
        invariant
            map.wf(),
            s == cell_of(start),
            !goal_holds(*map, goal, s),
            search_inv(*map, s, goal, paths, done, seen@, came_first@),
            forall|j: int| 0 <= j < 4 ==> order[j] < 4,
            forall|d: Dir| #![trigger d.idx()] exists|j: int| 0 <= j < 4 && order[j] as int == d.idx(),
            lvl >= 0,
            forall|i: int|
                0 <= i < queue@.len() ==> #[trigger] paths.dom().contains(cell_of(queue@[i])),
            forall|i: int|
                0 <= i < queue@.len() ==> lvl <= #[trigger] paths[cell_of(queue@[i])].len() <= lvl
                    + 1,
            forall|i: int, k: int|
                0 <= i <= k < queue@.len() ==> #[trigger] paths[cell_of(queue@[i])].len()
                    <= #[trigger] paths[cell_of(queue@[k])].len(),
            forall|c: GridCell| #[trigger]
                paths.dom().contains(c) && !done.contains(c) ==> exists|i: int|
                    0 <= i < queue@.len() && cell_of(queue@[i]) == c,
            forall|j: int|
                0 <= j < 4 ==> order_rank(prefer, #[trigger] Dir::of_index(order[j] as int)) == j,
            rank_inv(*map, s, prefer, paths),
            forall|i: int, k: int|
                0 <= i <= k < queue@.len() ==> #[trigger] path_key(prefer, paths, cell_of(queue@[i]))
                    <= #[trigger] path_key(prefer, paths, cell_of(queue@[k])),
            queue@.len() > 0 ==> forall|i: int|
                0 <= i < queue@.len() ==> #[trigger] path_key(prefer, paths, cell_of(queue@[i]))
                    <= path_key(prefer, paths, cell_of(queue@[0])) + 4,
            forall|i: int| 0 < i < queue@.len() ==> #[trigger] cell_of(queue@[i]) != s,
            seen@.subset_of(map.visited_keys().union(map.frontier_keys()).insert(sk)),
        decreases map.visited_keys().len() + map.frontier_keys().len() + 1 - seen@.len()
            + queue@.len(),
    {
        proof {
            lemma_seen_bound(*map, seen@, sk);
        }
        let ghost q_before = queue@;
        let pos = match queue.pop_front() {
            Some(p) => p,
            None => start,
        };
        let ghost p = cell_of(pos);
        let ghost q0 = queue@;
        let ghost s0 = seen@.len();
        proof {
            assert(pos == q_before[0]);
            lvl = paths[p].len() as int;
            assert forall|c: GridCell| #[trigger]
                paths.dom().contains(c) && !done.contains(c) && c != p implies exists|i: int|
                0 <= i < q0.len() && cell_of(q0[i]) == c by {
                let i = choose|i: int| 0 <= i < q_before.len() && cell_of(q_before[i]) == c;
                assert(i != 0);
                assert(q0[i - 1] == q_before[i]);
            }
            assert forall|c: GridCell| #[trigger]
                paths.dom().contains(c) && !done.contains(c) implies paths[c].len() >= lvl by {
                if c != p {
                    let i = choose|i: int| 0 <= i < q_before.len() && cell_of(q_before[i]) == c;
                    assert(paths[cell_of(q_before[0])].len() <= paths[cell_of(q_before[i])].len());
                }
            }
            assert forall|i: int| 0 <= i < q0.len() implies #[trigger] path_key(
                prefer,
                paths,
                cell_of(q0[i]),
            ) >= path_key(prefer, paths, p) && path_key(prefer, paths, cell_of(q0[i])) <= path_key(
                prefer,
                paths,
                p,
            ) + 4 && cell_of(q0[i]) != s by {
                assert(q0[i] == q_before[i + 1]);
                assert(path_key(prefer, paths, cell_of(q_before[0])) <= path_key(
                    prefer,
                    paths,
                    cell_of(q_before[i + 1]),
                ));
            }
            assert(p == s ==> path_key(prefer, paths, p) == 0);
        }
        let pk = key_of(pos);
        let mut j: usize = 0;
        while j < 4
            invariant
                map.wf(),
                s == cell_of(start),
                p == cell_of(pos),
                pk as int == cell_key(p),
                !goal_holds(*map, goal, s),
                search_inv(*map, s, goal, paths, done, seen@, came_first@),
                forall|j: int| 0 <= j < 4 ==> order[j] < 4,
                forall|d: Dir| #![trigger d.idx()] exists|j: int| 0 <= j < 4 && order[j] as int == d.idx(),
                paths.dom().contains(p),
                lvl == paths[p].len(),
                0 <= j <= 4,
                seen@.len() + q0.len() == s0 + queue@.len(),
                seen@.subset_of(map.visited_keys().union(map.frontier_keys()).insert(sk)),
                queue@.len() >= q0.len(),
                forall|i: int| 0 <= i < q0.len() ==> #[trigger] queue@[i] == q0[i],
                forall|i: int|
                    0 <= i < queue@.len() ==> #[trigger] paths.dom().contains(cell_of(queue@[i])),
                forall|i: int|
                    0 <= i < queue@.len() ==> lvl <= #[trigger] paths[cell_of(queue@[i])].len()
                        <= lvl + 1,
                forall|i: int, k: int|
                    0 <= i <= k < queue@.len() ==> #[trigger] paths[cell_of(queue@[i])].len()
                        <= #[trigger] paths[cell_of(queue@[k])].len(),
                forall|c: GridCell| #[trigger]
                    paths.dom().contains(c) && !done.contains(c) && c != p ==> exists|i: int|
                        0 <= i < queue@.len() && cell_of(queue@[i]) == c,
                forall|c: GridCell| #[trigger]
                    paths.dom().contains(c) && !done.contains(c) ==> paths[c].len() >= lvl,
                forall|k: int|
                    0 <= k < j ==> (search_step(*map, p, Dir::of_index(order[k] as int))
                        ==> paths.dom().contains(#[trigger] step(p, Dir::of_index(order[k] as int)))),
                forall|j: int|
                    0 <= j < 4 ==> order_rank(prefer, #[trigger] Dir::of_index(order[j] as int)) == j,
                rank_inv(*map, s, prefer, paths),
                forall|i: int|
                    0 <= i < q0.len() ==> #[trigger] path_key(prefer, paths, cell_of(queue@[i]))
                        >= path_key(prefer, paths, p),
                forall|i: int|
                    q0.len() <= i < queue@.len() ==> #[trigger] paths[cell_of(queue@[i])].len() == lvl
                        + 1,
                forall|i: int, k: int|
                    0 <= i <= k < queue@.len() ==> #[trigger] path_key(
                        prefer,
                        paths,
                        cell_of(queue@[i]),
                    ) <= #[trigger] path_key(prefer, paths, cell_of(queue@[k])),
                forall|i: int|
                    0 <= i < queue@.len() ==> #[trigger] path_key(prefer, paths, cell_of(queue@[i]))
                        <= (if p == s {
                        4 + j
                    } else {
                        path_key(prefer, paths, p) + 4
                    }),
                forall|i: int| 0 <= i < queue@.len() ==> #[trigger] cell_of(queue@[i]) != s,
            decreases 4 - j,
        {
            let dir = Dir::from_index(order[j]);
            if !map.has_wall(pos, dir) && has_neighbor(pos, dir) {
                let nb = neighbor(pos, dir);
                let nk = key_of(nb);
                let ghost n = cell_of(nb);
                proof {
                    lemma_cell_key(n);
                }
                if (map.is_visited(nb) || map.in_frontier(nb)) && !seen.contains(&nk) {
                    let ghost w = paths[p].push(dir);
                    proof {
                        lemma_walk_push(*map, s, paths[p], dir);
                        assert(!paths.dom().contains(n));
                    }
                    let first = if pos.0 == start.0 && pos.1 == start.1 {
                        dir
                    } else {
                        match came_first.get(&pk) {
                            Some(f) => *f,
                            None => dir,
                        }
                    };
                    proof {
                        assert(w[0] == first);
                    }
                    if goal_met(map, goal, nb) {
                        proof {
                            assert forall|w2: Seq<Dir>|
                                #![trigger walk_ok(*map, s, w2)]
                                walk_ok(*map, s, w2) && goal_holds(*map, goal, walk_end(s, w2))
                                    implies w2.len() >= w.len() by {
                                lemma_unreached_far(
                                    *map,
                                    s,
                                    goal,
                                    paths,
                                    done,
                                    seen@,
                                    came_first@,
                                    lvl,
                                    w2,
                                );
                            }
                            assert(nearest_goal_walk(*map, s, goal, w));
                            assert forall|w2: Seq<Dir>|
                                #![trigger nearest_goal_walk(*map, s, goal, w2)]
                                nearest_goal_walk(*map, s, goal, w2) implies order_rank(prefer, first)
                                <= order_rank(prefer, w2[0]) by {
                                assert(walk_ok(*map, s, w));
                                lemma_unreached_far(
                                    *map,
                                    s,
                                    goal,
                                    paths,
                                    done,
                                    seen@,
                                    came_first@,
                                    lvl,
                                    w2,
                                );
                                assert(w2.len() == lvl + 1);
                                if p != s {
                                    lemma_nearest_rank(
                                        *map,
                                        s,
                                        goal,
                                        prefer,
                                        paths,
                                        done,
                                        seen@,
                                        came_first@,
                                        lvl,
                                        p,
                                        queue@,
                                        q0.len() as int,
                                        w2,
                                    );
                                } else {
                                    lemma_single_step(*map, s, w2);
                                    let d2 = w2[0];
                                    crate::dir::lemma_index_roundtrip(d2);
                                    let k = choose|k: int| 0 <= k < 4 && order[k] as int == d2.idx();
                                    assert(Dir::of_index(order[k] as int) == d2);
                                    if k < j {
                                        assert(paths.dom().contains(step(p, d2)));
                                    }
                                }
                            }
                        }
                        return Some(first);
                    }
                    let ghost seen_before = seen@;
                    let ghost first_before = came_first@;
                    let ghost q_prev = queue@;
                    came_first.insert(nk, first);
                    seen.insert(nk);
                    queue.push_back(nb);
                    proof {
                        let old_paths = paths;
                        assert forall|w2: Seq<Dir>|
                            #![trigger walk_ok(*map, s, w2)]
                            walk_ok(*map, s, w2) && walk_end(s, w2) == n implies w2.len()
                                >= w.len() by {
                            lemma_unreached_far(
                                *map,
                                s,
                                goal,
                                old_paths,
                                done,
                                seen_before,
                                first_before,
                                lvl,
                                w2,
                            );
                        }
                        assert(least_first_step(*map, s, prefer, n, w)) by {
                            assert forall|w3: Seq<Dir>|
                                #![trigger walk_ok(*map, s, w3)]
                                walk_ok(*map, s, w3) && walk_end(s, w3) == n && w3.len() == w.len()
                                    implies order_rank(prefer, w3[0]) >= order_rank(prefer, w[0]) by {
                                if p != s {
                                    lemma_nearest_rank(
                                        *map,
                                        s,
                                        goal,
                                        prefer,
                                        old_paths,
                                        done,
                                        seen_before,
                                        first_before,
                                        lvl,
                                        p,
                                        q_prev,
                                        q0.len() as int,
                                        w3,
                                    );
                                } else {
                                    lemma_single_step(*map, s, w3);
                                    lemma_step_injective(s, w3[0], dir);
                                }
                            }
                        }
                        paths = paths.insert(n, w);
                        assert forall|c: GridCell| #[trigger]
                            paths.dom().contains(c) && c != s implies least_first_step(
                            *map,
                            s,
                            prefer,
                            c,
                            paths[c],
                        ) by {
                            if c != n {
                                assert(old_paths.dom().contains(c));
                            }
                        }
                        lemma_order_rank_range(prefer);
                        assert(path_key(prefer, paths, n) == (if p == s {
                            4 + j
                        } else {
                            path_key(prefer, paths, p) + 4
                        }));
                        assert forall|i: int| 0 <= i < q_prev.len() implies #[trigger] path_key(
                            prefer,
                            paths,
                            cell_of(queue@[i]),
                        ) == path_key(prefer, old_paths, cell_of(q_prev[i])) by {
                            assert(queue@[i] == q_prev[i]);
                            assert(old_paths.dom().contains(cell_of(q_prev[i])));
                        }
                        assert forall|c: GridCell|
                            in_grid(c) implies (seen@.contains(cell_key(c) as u64)
                            <==> #[trigger] paths.dom().contains(c)) by {
                            lemma_cell_key(c);
                            if cell_key(c) == cell_key(n) {
                                lemma_cell_key_injective(c, n);
                            }
                        }
                        assert forall|c: GridCell| #[trigger]
                            paths.dom().contains(c) && c != s implies came_first@.contains_key(
                            cell_key(c) as u64,
                        ) && paths[c].len() > 0 && came_first@[cell_key(c) as u64]
                            == paths[c][0] by {
                            if c != n {
                                lemma_cell_key(c);
                                if cell_key(c) == cell_key(n) {
                                    lemma_cell_key_injective(c, n);
                                }
                            }
                        }
                        assert(queue@.last() == nb);
                        assert forall|c: GridCell| #[trigger]
                            paths.dom().contains(c) && !done.contains(c) && c != p implies exists|
                            i: int,
                        | 0 <= i < queue@.len() && cell_of(queue@[i]) == c by {
                            if c == n {
                                assert(cell_of(queue@[queue@.len() - 1]) == c);
                            } else {
                                let i = choose|i: int|
                                    0 <= i < q_prev.len() && cell_of(q_prev[i]) == c;
                                assert(queue@[i] == q_prev[i]);
                            }
                        }
                    }
                }
            }
            j = j + 1;
        }
        proof {
            assert forall|c: GridCell, d: Dir|
                done.insert(p).contains(c) && search_step(*map, c, d) implies paths.dom().contains(
                #[trigger] step(c, d),
            ) by {
                if c == p {
                    let k = choose|k: int| 0 <= k < 4 && order[k] as int == d.idx();
                    assert(Dir::of_index(order[k] as int) == d);
                }
            }
            done = done.insert(p);
            lemma_order_rank_range(prefer);
            if queue@.len() > 0 {
                let c0 = cell_of(queue@[0]);
                assert(paths.dom().contains(c0));
                if q0.len() > 0 {
                    assert(path_key(prefer, paths, c0) >= path_key(prefer, paths, p));
                } else {
                    assert(paths[c0].len() == lvl + 1);
                }
                if p == s {
                    assert(c0 != s);
                    assert(paths[c0].len() > 0);
                }
            }
            assert forall|c: GridCell| #[trigger]
                paths.dom().contains(c) && !done.contains(c) implies exists|i: int|
                0 <= i < queue@.len() && cell_of(queue@[i]) == c by {}
            lemma_seen_bound(*map, seen@, sk);
        }
    }
    proof {
        assert forall|w: Seq<Dir>|
            #![trigger walk_ok(*map, s, w)]
            walk_ok(*map, s, w) implies !goal_holds(*map, goal, walk_end(s, w)) by {
            if goal_holds(*map, goal, walk_end(s, w)) {
                let j = lemma_walk_leaves(*map, s, w, paths.dom(), done);
                if j != -1 {
                    let c = walk_end(s, w.take(j));
                    assert(paths.dom().contains(c) && !done.contains(c));
                    let i = choose|i: int| 0 <= i < queue@.len() && cell_of(queue@[i]) == c;
                }
            }
        }
    }
    None
}


/// The search tries the preferred direction first and the others after it
/// in index order (North, East, South, West); with no preference, in index
/// order. Each direction has its own place, one of 0..4.
pub proof fn lemma_try_order(prefer: Option<Dir>, d1: Dir, d2: Dir)
    ensures
        0 <= order_rank(prefer, d1) < 4,
        d1 != d2 ==> order_rank(prefer, d1) != order_rank(prefer, d2),
        prefer is None ==> order_rank(prefer, d1) == d1.idx(),
        prefer == Some(d1) ==> order_rank(prefer, d1) == 0,
        prefer != Some(d1) && prefer != Some(d2) && d1.idx() < d2.idx() ==> order_rank(prefer, d1)
            < order_rank(prefer, d2),
{
}

} // verus!
