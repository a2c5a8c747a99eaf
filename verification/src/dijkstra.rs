//! Cheapest route over visited cells, counting moves and turns.
//!
//! The search runs Dijkstra's algorithm on `(cell, heading)` states. Its
//! priority queue is a vector from which the entry smallest in
//! `(cost, row, col, heading)` order is taken each round.
use vstd::prelude::*;
use std::collections::HashMap;
use vstd::arithmetic::div_mod::lemma_fundamental_div_mod_converse;
use crate::dir::{Dir, GridCell, cell_of, in_grid, step, neighbor, has_neighbor};
use crate::map::{DynMap, key_of, cell_key, lemma_cell_key, lemma_cell_key_injective};
use crate::walk::{open_step, walk_end};
use crate::route::{
    MOVE_COST, TURN90_COST, turn_cost, heading_after, route_cost, route_ok, optimal_route,
    lemma_route_push, lemma_route_prefix, lemma_route_concat, lemma_route_first_turn,
    lemma_closed_route_cost, lemma_turn_cost_range, lemma_route_in_grid, lemma_optimal_route_simple,
};

verus! {

broadcast use vstd::std_specs::hash::group_hash_axioms;

/// A search state: a cell and the heading the robot arrived with.
pub type RouteState = (GridCell, int);

/// The key of a search state.
pub open spec fn state_key(p: GridCell, h: int) -> int {
    cell_key(p) * 4 + h
}

proof fn lemma_state_key(p: GridCell, h: int)
    requires
        in_grid(p),
        0 <= h < 4,
    ensures
        0 <= state_key(p, h) <= u128::MAX,
        state_key(p, h) / 4 == cell_key(p),
        state_key(p, h) % 4 == h,
{
    lemma_cell_key(p);
    lemma_fundamental_div_mod_converse(state_key(p, h), 4, cell_key(p), h);
}

proof fn lemma_state_key_injective(p: GridCell, h: int, q: GridCell, k: int)
    requires
        in_grid(p),
        in_grid(q),
        0 <= h < 4,
        0 <= k < 4,
        state_key(p, h) == state_key(q, k),
    ensures
        p == q,
        h == k,
{
    lemma_state_key(p, h);
    lemma_state_key(q, k);
    lemma_cell_key_injective(p, q);
}

fn skey(p: (i32, i32), h: u8) -> (k: u128)
    requires
        h < 4,
    ensures
        k as int == state_key(cell_of(p), h as int),
{
    proof {
        lemma_state_key(cell_of(p), h as int);
    }
    (key_of(p) as u128) * 4 + (h as u128)
}

/// The states over a set of cells.
pub open spec fn states_over(cells: Set<GridCell>) -> Set<RouteState> {
    Set::new(|st: RouteState| cells.contains(st.0) && 0 <= st.1 < 4)
}

proof fn lemma_states_over_finite(cells: Set<GridCell>)
    requires
        cells.finite(),
    ensures
        states_over(cells).finite(),
{
    let f0 = |c: GridCell| (c, 0int);
    let f1 = |c: GridCell| (c, 1int);
    let f2 = |c: GridCell| (c, 2int);
    let f3 = |c: GridCell| (c, 3int);
    cells.lemma_map_finite(f0);
    cells.lemma_map_finite(f1);
    cells.lemma_map_finite(f2);
    cells.lemma_map_finite(f3);
    let u = cells.map(f0).union(cells.map(f1)).union(cells.map(f2)).union(cells.map(f3));
    assert forall|st: RouteState| #[trigger] states_over(cells).contains(st) implies u.contains(st) by {
        if st.1 == 0 {
            assert(cells.map(f0).contains(f0(st.0)));
        } else if st.1 == 1 {
            assert(cells.map(f1).contains(f1(st.0)));
        } else if st.1 == 2 {
            assert(cells.map(f2).contains(f2(st.0)));
        } else {
            assert(cells.map(f3).contains(f3(st.0)));
        }
    }
    vstd::set_lib::lemma_set_subset_finite(u, states_over(cells));
}

/// The state reached by following route `w` from `s` with heading `sh`.
pub open spec fn route_state(s: GridCell, sh: int, w: Seq<Dir>) -> RouteState {
    (walk_end(s, w), heading_after(sh, w))
}

/// Whether the route search may step from `p` in direction `d`.
pub open spec fn edge_ok(map: DynMap, g: GridCell, p: GridCell, d: Dir) -> bool {
    open_step(map, p, d) && (map.visited_cells().contains(step(p, d)) || step(p, d) == g)
}

/// Cost of stepping in direction `d` when heading `h`.
pub open spec fn edge_cost(h: int, d: Dir) -> int {
    MOVE_COST + turn_cost(h, d.idx())
}

/// The state a queue entry stands for.
pub open spec fn entry_state(e: (u32, i32, i32, u8)) -> RouteState {
    ((e.1 as int, e.2 as int), e.3 as int)
}

/// The search invariant. `settled` states have their cheapest cost; `closed`
/// ones (a subset) also have every outgoing edge relaxed.
spec fn search_inv(
    map: DynMap,
    s: GridCell,
    sh: int,
    g: GridCell,
    best: Map<RouteState, Seq<Dir>>,
    settled: Set<RouteState>,
    closed: Set<RouteState>,
    dist: Map<u128, u32>,
    prev: Map<u128, ((i32, i32), u8, Dir)>,
    universe: Set<RouteState>,
) -> bool {
    &&& best.dom().contains((s, sh))
    &&& best[(s, sh)] == Seq::<Dir>::empty()
    &&& closed.subset_of(settled)
    &&& settled.subset_of(best.dom())
    &&& best.dom().subset_of(universe)
    &&& forall|st: RouteState| #[trigger]
        best.dom().contains(st) ==> {
            &&& in_grid(st.0)
            &&& 0 <= st.1 < 4
            &&& route_ok(map, s, g, best[st])
            &&& route_state(s, sh, best[st]) == st
            &&& dist.contains_key(state_key(st.0, st.1) as u128)
            &&& dist[state_key(st.0, st.1) as u128] as int == route_cost(sh, best[st])
        }
    &&& forall|p: GridCell, h: int|
        in_grid(p) && 0 <= h < 4 && #[trigger] dist.contains_key(state_key(p, h) as u128)
            ==> best.dom().contains((p, h))
    &&& forall|st: RouteState, w: Seq<Dir>|
        #![trigger settled.contains(st), route_ok(map, s, g, w)]
        settled.contains(st) && route_ok(map, s, g, w) && route_state(s, sh, w) == st
            && route_cost(sh, w) < u32::MAX ==> route_cost(sh, w) >= route_cost(sh, best[st])
    &&& forall|st: RouteState, d: Dir|
        #![trigger closed.contains(st), step(st.0, d)]
        closed.contains(st) && edge_ok(map, g, st.0, d) && route_cost(sh, best[st]) + edge_cost(
            st.1,
            d,
        ) < u32::MAX ==> best.dom().contains((step(st.0, d), d.idx())) && route_cost(
            sh,
            best[(step(st.0, d), d.idx())],
        ) <= route_cost(sh, best[st]) + edge_cost(st.1, d)
    &&& links_inv(best, settled, prev, s, sh)
}

/// Every reached state but the root links to a settled state whose route,
/// extended by the linked step, is the state's route.
spec fn links_inv(
    best: Map<RouteState, Seq<Dir>>,
    settled: Set<RouteState>,
    prev: Map<u128, ((i32, i32), u8, Dir)>,
    s: GridCell,
    sh: int,
) -> bool {
    forall|st: RouteState| #[trigger]
        best.dom().contains(st) && st != (s, sh) ==> prev.contains_key(
            state_key(st.0, st.1) as u128,
        ) && settled.contains(
            (
                cell_of(prev[state_key(st.0, st.1) as u128].0),
                prev[state_key(st.0, st.1) as u128].1 as int,
            ),
        ) && best[st] == best[(
            cell_of(prev[state_key(st.0, st.1) as u128].0),
            prev[state_key(st.0, st.1) as u128].1 as int,
        )].push(prev[state_key(st.0, st.1) as u128].2)
}

/// Where a cheap-enough route first leaves the closed states: either the
/// whole route runs through closed states, or some prefix ends in a reached
/// state outside them whose recorded cost is no more than the prefix's.
proof fn lemma_route_cut(
    map: DynMap,
    s: GridCell,
    sh: int,
    g: GridCell,
    best: Map<RouteState, Seq<Dir>>,
    settled: Set<RouteState>,
    closed: Set<RouteState>,
    dist: Map<u128, u32>,
    prev: Map<u128, ((i32, i32), u8, Dir)>,
    universe: Set<RouteState>,
    w: Seq<Dir>,
) -> (k: int)
    requires
        search_inv(map, s, sh, g, best, settled, closed, dist, prev, universe),
        route_ok(map, s, g, w),
        route_cost(sh, w) < u32::MAX,
    ensures
        k == -1 ==> closed.contains(route_state(s, sh, w)) && route_cost(
            sh,
            best[route_state(s, sh, w)],
        ) <= route_cost(sh, w),
        k != -1 ==> 0 <= k <= w.len() && best.dom().contains(route_state(s, sh, w.take(k)))
            && !closed.contains(route_state(s, sh, w.take(k))) && route_cost(
            sh,
            best[route_state(s, sh, w.take(k))],
        ) <= route_cost(sh, w.take(k)),
    decreases w.len(),
{
    if w.len() == 0 {
        assert(w.take(0) =~= w);
        assert(route_state(s, sh, w) == (s, sh));
        if closed.contains((s, sh)) {
            -1
        } else {
            0
        }
    } else {
        let w1 = w.drop_last();
        let d = w.last();
        assert(w1.push(d) =~= w);
        lemma_route_push(map, s, g, sh, w1, d);
        lemma_turn_cost_range(heading_after(sh, w1), d.idx());
        let k1 = lemma_route_cut(map, s, sh, g, best, settled, closed, dist, prev, universe, w1);
        if k1 != -1 {
            assert(w1.take(k1) =~= w.take(k1));
            k1
        } else {
            let st1 = route_state(s, sh, w1);
            assert(edge_ok(map, g, st1.0, d));
            assert(closed.contains(st1));
            let t = (step(st1.0, d), d.idx());
            assert(best.dom().contains(t));
            assert(route_state(s, sh, w) == t);
            if closed.contains(t) {
                -1
            } else {
                assert(w.take(w.len() as int) =~= w);
                w.len() as int
            }
        }
    }
}

/// Extra cost of turning from heading `from` to heading `to`.
fn turn_extra(from: u8, to: u8) -> (r: u32)
    requires
        from < 4,
        to < 4,
    ensures
        r as int == turn_cost(from as int, to as int),
{
    match (to + 4 - from) % 4 {
        0 => 0,
        2 => 2 * TURN90_COST,
        _ => TURN90_COST,
    }
}

/// Whether `a` comes no later than `b` in lexicographic order.
pub open spec fn rank_le(a: (int, int, int, int), b: (int, int, int, int)) -> bool {
    a.0 < b.0 || (a.0 == b.0 && (a.1 < b.1 || (a.1 == b.1 && (a.2 < b.2 || (a.2 == b.2 && a.3
        <= b.3)))))
}

/// The search's order on a route's end: its cost, then the row, the column
/// and the heading of the state it reaches.
pub open spec fn route_rank(s: GridCell, sh: int, w: Seq<Dir>) -> (int, int, int, int) {
    (route_cost(sh, w), route_state(s, sh, w).0.0, route_state(s, sh, w).0.1, route_state(s, sh, w).1)
}

/// A queue entry's place in the search's order.
spec fn entry_rank(e: (u32, i32, i32, u8)) -> (int, int, int, int) {
    (e.0 as int, e.1 as int, e.2 as int, e.3 as int)
}

/// Whether entry `a` comes before entry `b` in `(cost, row, col, heading)` order.
fn entry_before(a: (u32, i32, i32, u8), b: (u32, i32, i32, u8)) -> (r: bool)
    ensures
        r == !rank_le(entry_rank(b), entry_rank(a)),
{
    if a.0 != b.0 {
        a.0 < b.0
    } else if a.1 != b.1 {
        a.1 < b.1
    } else if a.2 != b.2 {
        a.2 < b.2
    } else {
        a.3 < b.3
    }
}

/// Removes and returns the first entry in `(cost, row, col, heading)` order.
fn pop_min(heap: &mut Vec<(u32, i32, i32, u8)>) -> (r: ((u32, i32, i32, u8), usize))
    requires
        old(heap).len() > 0,
    ensures
        r.1 < old(heap).len(),
        r.0 == old(heap)[r.1 as int],
        final(heap)@ == old(heap)@.remove(r.1 as int),
        forall|k: int| 0 <= k < old(heap).len() ==> r.0.0 <= #[trigger] old(heap)[k].0,
        forall|k: int|
            0 <= k < old(heap).len() ==> rank_le(entry_rank(r.0), entry_rank(#[trigger] old(heap)[k])),
{
    let mut m: usize = 0;
    let mut k: usize = 1;
    while k < heap.len()
        invariant
            heap@ == old(heap)@,
            0 <= m < heap.len(),
            1 <= k <= heap.len(),
            forall|j: int| 0 <= j < k ==> heap[m as int].0 <= #[trigger] heap[j].0,
            forall|j: int|
                0 <= j < k ==> rank_le(entry_rank(heap[m as int]), entry_rank(#[trigger] heap[j])),
        decreases heap.len() - k,
    {
        if entry_before(heap[k], heap[m]) {
            m = k;
        }
        k = k + 1;
    }
    let e = heap.remove(m);
    (e, m)
}

/// The queue invariant: every entry names a reached state and costs at least
/// that state's recorded cost, and every reached state that is not settled
/// has an entry with exactly its recorded cost.
spec fn queue_inv(
    heap: Seq<(u32, i32, i32, u8)>,
    best: Map<RouteState, Seq<Dir>>,
    settled: Set<RouteState>,
    shi: int,
) -> bool {
    &&& forall|i: int|
        0 <= i < heap.len() ==> best.dom().contains(entry_state(#[trigger] heap[i])) && heap[i].3
            < 4 && heap[i].0 >= route_cost(shi, best[entry_state(heap[i])])
    &&& forall|st: RouteState| #[trigger]
        best.dom().contains(st) && !settled.contains(st) ==> exists|i: int|
            0 <= i < heap.len() && heap[i].0 as int == route_cost(shi, best[st]) && entry_state(
                heap[i],
            ) == st
}

/// Taking entry `ei` out of the queue keeps the queue invariant for every
/// state but the entry's own, and for that one too when the entry was stale.
proof fn lemma_queue_remove(
    heap0: Seq<(u32, i32, i32, u8)>,
    ei: int,
    best: Map<RouteState, Seq<Dir>>,
    settled: Set<RouteState>,
    shi: int,
)
    requires
        queue_inv(heap0, best, settled, shi),
        0 <= ei < heap0.len(),
    ensures
        queue_inv(heap0.remove(ei), best, settled.insert(entry_state(heap0[ei])), shi),
        heap0[ei].0 > route_cost(shi, best[entry_state(heap0[ei])]) ==> queue_inv(
            heap0.remove(ei),
            best,
            settled,
            shi,
        ),
{
    let heap = heap0.remove(ei);
    let e = heap0[ei];
    assert forall|i: int| 0 <= i < heap.len() implies best.dom().contains(
        entry_state(#[trigger] heap[i]),
    ) && heap[i].3 < 4 && heap[i].0 >= route_cost(shi, best[entry_state(heap[i])]) by {
        if i < ei {
            assert(heap[i] == heap0[i]);
        } else {
            assert(heap[i] == heap0[i + 1]);
        }
    }
    assert forall|u: RouteState| #[trigger]
        best.dom().contains(u) && !settled.contains(u) && (u != entry_state(e) || e.0
            > route_cost(shi, best[entry_state(e)])) implies exists|i: int|
        0 <= i < heap.len() && heap[i].0 as int == route_cost(shi, best[u]) && entry_state(heap[i])
            == u by {
        let i = choose|i: int|
            0 <= i < heap0.len() && heap0[i].0 as int == route_cost(shi, best[u]) && entry_state(
                heap0[i],
            ) == u;
        assert(i != ei);
        if i < ei {
            assert(heap[i] == heap0[i]);
        } else {
            assert(heap[i - 1] == heap0[i]);
        }
    }
}

/// An entry of least cost whose cost equals its state's recorded cost names a
/// state whose recorded cost no cheap-enough route beats.
proof fn lemma_pop_optimal(
    map: DynMap,
    s: GridCell,
    shi: int,
    g: GridCell,
    best: Map<RouteState, Seq<Dir>>,
    settled: Set<RouteState>,
    dist: Map<u128, u32>,
    prev: Map<u128, ((i32, i32), u8, Dir)>,
    universe: Set<RouteState>,
    heap0: Seq<(u32, i32, i32, u8)>,
    e: (u32, i32, i32, u8),
)
    requires
        search_inv(map, s, shi, g, best, settled, settled, dist, prev, universe),
        queue_inv(heap0, best, settled, shi),
        forall|k: int| 0 <= k < heap0.len() ==> e.0 <= #[trigger] heap0[k].0,
        best.dom().contains(entry_state(e)),
        e.0 as int == route_cost(shi, best[entry_state(e)]),
    ensures
        forall|w: Seq<Dir>|
            #![trigger route_ok(map, s, g, w)]
            route_ok(map, s, g, w) && route_state(s, shi, w) == entry_state(e) && route_cost(shi, w)
                < u32::MAX ==> route_cost(shi, w) >= route_cost(shi, best[entry_state(e)]),
{
    assert forall|w: Seq<Dir>|
        #![trigger route_ok(map, s, g, w)]
        route_ok(map, s, g, w) && route_state(s, shi, w) == entry_state(e) && route_cost(shi, w)
            < u32::MAX implies route_cost(shi, w) >= route_cost(shi, best[entry_state(e)]) by {
        let kk = lemma_route_cut(map, s, shi, g, best, settled, settled, dist, prev, universe, w);
        if kk != -1 {
            let u = route_state(s, shi, w.take(kk));
            lemma_route_prefix(map, s, g, shi, w, kk);
            let i = choose|i: int|
                0 <= i < heap0.len() && heap0[i].0 as int == route_cost(shi, best[u])
                    && entry_state(heap0[i]) == u;
            assert(e.0 <= heap0[i].0);
        }
    }
}

/// Whether `best1` reaches every state `best0` reaches, at no greater cost,
/// and keeps the routes of the states in `keep`.
spec fn improves(
    best0: Map<RouteState, Seq<Dir>>,
    best1: Map<RouteState, Seq<Dir>>,
    keep: Set<RouteState>,
    shi: int,
) -> bool {
    &&& best0.dom().subset_of(best1.dom())
    &&& forall|u: RouteState| #[trigger]
        best0.dom().contains(u) ==> route_cost(shi, best1[u]) <= route_cost(shi, best0[u])
    &&& forall|u: RouteState| #[trigger] keep.contains(u) ==> best1[u] == best0[u]
}

/// The state that the predecessor link of `v` points to.
spec fn link_state(prev: Map<u128, ((i32, i32), u8, Dir)>, v: RouteState) -> RouteState {
    (cell_of(prev[state_key(v.0, v.1) as u128].0), prev[state_key(v.0, v.1) as u128].1 as int)
}

/// A reached state's place in the search's order: its recorded cost, then
/// its row, column and heading.
spec fn best_rank(best: Map<RouteState, Seq<Dir>>, shi: int, u: RouteState) -> (int, int, int, int) {
    (route_cost(shi, best[u]), u.0.0, u.0.1, u.1)
}

/// Every reached state links to a predecessor that comes no later in the
/// search's order than any closed state whose edge reaches it at its
/// recorded cost.
spec fn tie_inv(
    map: DynMap,
    g: GridCell,
    best: Map<RouteState, Seq<Dir>>,
    closed: Set<RouteState>,
    prev: Map<u128, ((i32, i32), u8, Dir)>,
    s: GridCell,
    shi: int,
) -> bool {
    forall|u: RouteState, d: Dir|
        #![trigger closed.contains(u), step(u.0, d)]
        closed.contains(u) && edge_ok(map, g, u.0, d) && best.dom().contains(
            (step(u.0, d), d.idx()),
        ) && (step(u.0, d), d.idx()) != (s, shi) && route_cost(shi, best[u]) + edge_cost(u.1, d)
            == route_cost(shi, best[(step(u.0, d), d.idx())]) ==> rank_le(
            best_rank(best, shi, link_state(prev, (step(u.0, d), d.idx()))),
            best_rank(best, shi, u),
        )
}

/// Settled states come no later in the search's order than any queue entry.
spec fn settled_below(
    best: Map<RouteState, Seq<Dir>>,
    settled: Set<RouteState>,
    heap: Seq<(u32, i32, i32, u8)>,
    shi: int,
) -> bool {
    forall|u: RouteState, j: int|
        #![trigger settled.contains(u), heap[j]]
        settled.contains(u) && 0 <= j < heap.len() ==> rank_le(
            best_rank(best, shi, u),
            entry_rank(heap[j]),
        )
}

/// Relaxes the edge from the settled state `(pos, h)` in direction `i`.
fn relax(
    map: &DynMap,
    goal: (i32, i32),
    dist: &mut HashMap<u128, u32>,
    prev: &mut HashMap<u128, ((i32, i32), u8, Dir)>,
    heap: &mut Vec<(u32, i32, i32, u8)>,
    pos: (i32, i32),
    h: u8,
    cost: u32,
    i: u8,
    Ghost(s): Ghost<GridCell>,
    Ghost(shi): Ghost<int>,
    Ghost(best): Ghost<Map<RouteState, Seq<Dir>>>,
    Ghost(settled): Ghost<Set<RouteState>>,
    Ghost(closed): Ghost<Set<RouteState>>,
    Ghost(universe): Ghost<Set<RouteState>>,
    Ghost(cells): Ghost<Set<GridCell>>,
) -> (nb: Ghost<Map<RouteState, Seq<Dir>>>)
    requires
        map.wf(),
        h < 4,
        i < 4,
        universe == states_over(cells),
        cells.contains(cell_of(goal)),
        map.visited_cells().subset_of(cells),
        search_inv(
            *map,
            s,
            shi,
            cell_of(goal),
            best,
            settled,
            closed,
            old(dist)@,
            old(prev)@,
            universe,
        ),
        queue_inv(old(heap)@, best, settled, shi),
        settled.contains((cell_of(pos), h as int)),
        cost as int == route_cost(shi, best[(cell_of(pos), h as int)]),
        tie_inv(*map, cell_of(goal), best, closed, old(prev)@, s, shi),
        settled_below(best, settled, old(heap)@, shi),
        forall|u: RouteState| #[trigger] settled.contains(u) ==> route_cost(shi, best[u]) <= cost,
    ensures
        tie_inv(*map, cell_of(goal), nb@, closed, final(prev)@, s, shi),
        settled_below(nb@, settled, final(heap)@, shi),
        search_inv(
            *map,
            s,
            shi,
            cell_of(goal),
            nb@,
            settled,
            closed,
            final(dist)@,
            final(prev)@,
            universe,
        ),
        queue_inv(final(heap)@, nb@, settled, shi),
        improves(best, nb@, settled, shi),
        final(heap)@.len() >= old(heap)@.len(),
        closed.contains((cell_of(pos), h as int)) ==> final(heap)@ == old(heap)@,
        ({
            let d = Dir::of_index(i as int);
            let st = (cell_of(pos), h as int);
            edge_ok(*map, cell_of(goal), st.0, d) && cost + edge_cost(st.1, d) < u32::MAX
                ==> nb@.dom().contains((step(st.0, d), d.idx())) && route_cost(
                shi,
                nb@[(step(st.0, d), d.idx())],
            ) <= cost + edge_cost(st.1, d)
        }),
{
    let ghost g = cell_of(goal);
    let ghost st: RouteState = (cell_of(pos), h as int);
    let dir = Dir::from_index(i as usize);
    if !map.has_wall(pos, dir) && has_neighbor(pos, dir) {
        let nb = neighbor(pos, dir);
        if map.is_visited(nb) || (nb.0 == goal.0 && nb.1 == goal.1) {
            let step_cost = MOVE_COST + turn_extra(h, i);
            match cost.checked_add(step_cost) {
                Some(new_cost) => {
                    let nk = skey(nb, i);
                    let ghost t: RouteState = (cell_of(nb), i as int);
                    proof {
                        lemma_state_key(t.0, t.1);
                        assert(t == (step(st.0, dir), dir.idx()));
                    }
                    let better = match dist.get(&nk) {
                        Some(d) => new_cost < *d,
                        None => new_cost < u32::MAX,
                    };
                    if better {
                        let ghost nw = best[st].push(dir);
                        proof {
                            lemma_route_push(*map, s, g, shi, best[st], dir);
                            assert(route_state(s, shi, nw) == t);
                            assert(route_cost(shi, nw) == new_cost as int);
                            if settled.contains(t) {
                                assert(route_cost(shi, nw) >= route_cost(shi, best[t]));
                            }
                        }
                        let ghost heap2 = heap@;
                        dist.insert(nk, new_cost);
                        prev.insert(nk, (pos, h, dir));
                        heap.push((new_cost, nb.0, nb.1, i));
                        let ghost best1 = best.insert(t, nw);
                        proof {
                            assert(heap@[heap@.len() - 1] == (new_cost, nb.0, nb.1, i));
                            assert forall|u: RouteState| #[trigger]
                                best1.dom().contains(u) && !settled.contains(u) implies exists|
                                j: int,
                            |
                                0 <= j < heap.len() && heap[j].0 as int == route_cost(
                                    shi,
                                    best1[u],
                                ) && entry_state(heap[j]) == u by {
                                if u == t {
                                    assert(entry_state(heap[heap.len() - 1]) == u);
                                } else {
                                    let j = choose|j: int|
                                        0 <= j < heap2.len() && heap2[j].0 as int == route_cost(
                                            shi,
                                            best[u],
                                        ) && entry_state(heap2[j]) == u;
                                    assert(heap[j] == heap2[j]);
                                }
                            }
                            assert forall|j: int| 0 <= j < heap.len() implies best1.dom().contains(
                                entry_state(#[trigger] heap[j]),
                            ) && heap[j].3 < 4 && heap[j].0 >= route_cost(
                                shi,
                                best1[entry_state(heap[j])],
                            ) by {
                                if j < heap2.len() {
                                    assert(heap[j] == heap2[j]);
                                }
                            }
                            assert forall|p: GridCell, hh: int|
                                in_grid(p) && 0 <= hh < 4 && #[trigger] dist@.contains_key(
                                    state_key(p, hh) as u128,
                                ) implies best1.dom().contains((p, hh)) by {
                                lemma_state_key(p, hh);
                                if state_key(p, hh) == state_key(t.0, t.1) {
                                    lemma_state_key_injective(p, hh, t.0, t.1);
                                }
                            }
                            assert forall|u: RouteState| #[trigger]
                                best1.dom().contains(u) implies {
                                &&& in_grid(u.0)
                                &&& 0 <= u.1 < 4
                                &&& route_ok(*map, s, g, best1[u])
                                &&& route_state(s, shi, best1[u]) == u
                                &&& dist@.contains_key(state_key(u.0, u.1) as u128)
                                &&& dist@[state_key(u.0, u.1) as u128] as int == route_cost(
                                    shi,
                                    best1[u],
                                )
                            } by {
                                if u != t {
                                    lemma_state_key(u.0, u.1);
                                    if state_key(u.0, u.1) == state_key(t.0, t.1) {
                                        lemma_state_key_injective(u.0, u.1, t.0, t.1);
                                    }
                                }
                            }
                            assert forall|u: RouteState| #[trigger]
                                best1.dom().contains(u) && u != (s, shi) implies prev@.contains_key(
                                state_key(u.0, u.1) as u128,
                            ) && settled.contains(
                                (
                                    cell_of(prev@[state_key(u.0, u.1) as u128].0),
                                    prev@[state_key(u.0, u.1) as u128].1 as int,
                                ),
                            ) && best1[u] == best1[(
                                cell_of(prev@[state_key(u.0, u.1) as u128].0),
                                prev@[state_key(u.0, u.1) as u128].1 as int,
                            )].push(prev@[state_key(u.0, u.1) as u128].2) by {
                                if u != t {
                                    lemma_state_key(u.0, u.1);
                                    if state_key(u.0, u.1) == state_key(t.0, t.1) {
                                        lemma_state_key_injective(u.0, u.1, t.0, t.1);
                                    }
                                }
                            }
                            assert forall|u: RouteState, d: Dir|
                                #![trigger closed.contains(u), step(u.0, d)]
                                closed.contains(u) && edge_ok(*map, g, u.0, d) && route_cost(
                                    shi,
                                    best1[u],
                                ) + edge_cost(u.1, d) < u32::MAX implies best1.dom().contains(
                                (step(u.0, d), d.idx()),
                            ) && route_cost(shi, best1[(step(u.0, d), d.idx())]) <= route_cost(
                                shi,
                                best1[u],
                            ) + edge_cost(u.1, d) by {
                                assert(best[u] == best1[u]);
                            }
                            assert forall|u: RouteState, w: Seq<Dir>|
                                #![trigger settled.contains(u), route_ok(*map, s, g, w)]
                                settled.contains(u) && route_ok(*map, s, g, w) && route_state(
                                    s,
                                    shi,
                                    w,
                                ) == u && route_cost(shi, w) < u32::MAX implies route_cost(shi, w)
                                >= route_cost(shi, best1[u]) by {
                                assert(best[u] == best1[u]);
                            }
                        }
                        proof {
                            assert(!settled.contains(t));
                            assert forall|u: RouteState, j: int|
                                #![trigger settled.contains(u), heap@[j]]
                                settled.contains(u) && 0 <= j < heap@.len() implies rank_le(
                                best_rank(best1, shi, u),
                                entry_rank(heap@[j]),
                            ) by {
                                assert(best1[u] == best[u]);
                                if j < heap2.len() {
                                    assert(heap@[j] == heap2[j]);
                                }
                            }
                            assert forall|u: RouteState, d: Dir|
                                #![trigger closed.contains(u), step(u.0, d)]
                                closed.contains(u) && edge_ok(*map, g, u.0, d)
                                    && best1.dom().contains((step(u.0, d), d.idx())) && (
                                step(u.0, d),
                                d.idx(),
                            ) != (s, shi) && route_cost(shi, best1[u]) + edge_cost(u.1, d)
                                    == route_cost(shi, best1[(step(u.0, d), d.idx())])
                                    implies rank_le(
                                best_rank(best1, shi, link_state(prev@, (step(u.0, d), d.idx()))),
                                best_rank(best1, shi, u),
                            ) by {
                                let v = (step(u.0, d), d.idx());
                                assert(best1[u] == best[u]);
                                lemma_turn_cost_range(u.1, d.idx());
                                if v == t {
                                    assert(best.dom().contains(t));
                                    assert(route_cost(shi, best[t]) <= route_cost(shi, best[u])
                                        + edge_cost(u.1, d));
                                    assert(false);
                                } else {
                                    lemma_state_key(v.0, v.1);
                                    lemma_state_key(t.0, t.1);
                                    if state_key(v.0, v.1) == state_key(t.0, t.1) {
                                        lemma_state_key_injective(v.0, v.1, t.0, t.1);
                                    }
                                    assert(prev@[state_key(v.0, v.1) as u128] == old(prev)@[state_key(
                                        v.0,
                                        v.1,
                                    ) as u128]);
                                    let l = link_state(old(prev)@, v);
                                    assert(settled.contains(l));
                                    assert(best1[l] == best[l]);
                                    assert(best1[v] == best[v]);
                                }
                            }
                        }
                        return Ghost(best1);
                    } else {
                        proof {
                            if nk_present(dist@, nk) {
                                assert(dist@.contains_key(state_key(t.0, t.1) as u128));
                                assert(best.dom().contains(t));
                            }
                        }
                    }
                },
                None => {},
            }
        }
    }
    proof {
        assert(improves(best, best, settled, shi));
    }
    Ghost(best)
}

spec fn nk_present(dist: Map<u128, u32>, k: u128) -> bool {
    dist.contains_key(k)
}

proof fn lemma_push_prepend(a: Seq<Dir>, d: Dir, b: Seq<Dir>)
    ensures
        a.push(d) + b == a + (seq![d] + b),
        (seq![d] + b).len() == b.len() + 1,
        (seq![d] + b)[0] == d,
        forall|j: int| 0 <= j < b.len() ==> #[trigger] (seq![d] + b)[j + 1] == b[j],
{
    assert(a.push(d) + b =~= a + (seq![d] + b));
}

/// Recorded costs agree with the routes, and every recorded key names a reached state.
spec fn dist_matches(best: Map<RouteState, Seq<Dir>>, dist: Map<u128, u32>, shi: int) -> bool {
    &&& forall|st: RouteState| #[trigger]
        best.dom().contains(st) ==> dist.contains_key(state_key(st.0, st.1) as u128) && dist[state_key(
            st.0,
            st.1,
        ) as u128] as int == route_cost(shi, best[st])
    &&& forall|p: GridCell, h: int|
        in_grid(p) && 0 <= h < 4 && #[trigger] dist.contains_key(state_key(p, h) as u128)
            ==> best.dom().contains((p, h))
}

/// The goal heading with the least recorded cost, the first one on ties.
fn cheapest_goal_heading(
    dist: &HashMap<u128, u32>,
    goal: (i32, i32),
    Ghost(best): Ghost<Map<RouteState, Seq<Dir>>>,
    Ghost(shi): Ghost<int>,
) -> (found: Option<(u32, u8)>)
    requires
        dist_matches(best, dist@, shi),
    ensures
        found matches Some(f) ==> f.1 < 4 && best.dom().contains((cell_of(goal), f.1 as int))
            && f.0 as int == route_cost(shi, best[(cell_of(goal), f.1 as int)]),
        forall|k: int|
            #![trigger best.dom().contains((cell_of(goal), k))]
            0 <= k < 4 && best.dom().contains((cell_of(goal), k)) ==> (found matches Some(f)
                && f.0 as int <= route_cost(shi, best[(cell_of(goal), k)])),
        found matches Some(f) ==> forall|k: int|
            #![trigger best.dom().contains((cell_of(goal), k))]
            0 <= k < f.1 && best.dom().contains((cell_of(goal), k)) ==> f.0 < route_cost(
                shi,
                best[(cell_of(goal), k)],
            ),
{
    let ghost g = cell_of(goal);
    let mut found: Option<(u32, u8)> = None;
    let mut hh: u8 = 0;
    while hh < 4
        invariant
            0 <= hh <= 4,
            dist_matches(best, dist@, shi),
            g == cell_of(goal),
            found matches Some(f) ==> f.1 < 4 && best.dom().contains((g, f.1 as int))
                && f.0 as int == route_cost(shi, best[(g, f.1 as int)]),
            forall|k: int|
                #![trigger best.dom().contains((g, k))]
                0 <= k < hh && best.dom().contains((g, k)) ==> (found matches Some(f) && f.0 as int
                    <= route_cost(shi, best[(g, k)])),
            found matches Some(f) ==> f.1 < hh && forall|k: int|
                #![trigger best.dom().contains((g, k))]
                0 <= k < f.1 && best.dom().contains((g, k)) ==> f.0 < route_cost(shi, best[(g, k)]),
        decreases 4 - hh,
    {
        let gk = skey(goal, hh);
        proof {
            lemma_state_key(g, hh as int);
        }
        match dist.get(&gk) {
            Some(c) => {
                proof {
                    assert(dist@.contains_key(state_key(g, hh as int) as u128));
                    assert(best.dom().contains((g, hh as int)));
                }
                match found {
                    None => {
                        found = Some((*c, hh));
                    },
                    Some(f) => {
                        if *c < f.0 {
                            found = Some((*c, hh));
                        }
                    },
                }
            },
            None => {
                proof {
                    if best.dom().contains((g, hh as int)) {
                        assert(dist@.contains_key(state_key(g, hh as int) as u128));
                    }
                }
            },
        }
        hh = hh + 1;
    }
    found
}

/// Follows the predecessor links from `(goal, end_h)` back to the first state
/// on the start cell; returns the moves in travel order, and that state's heading.
fn trace_back(
    prev: &HashMap<u128, ((i32, i32), u8, Dir)>,
    start: (i32, i32),
    goal: (i32, i32),
    end_h: u8,
    Ghost(shi): Ghost<int>,
    Ghost(best): Ghost<Map<RouteState, Seq<Dir>>>,
    Ghost(settled): Ghost<Set<RouteState>>,
) -> (r: (Vec<Dir>, u8))
    requires
        links_inv(best, settled, prev@, cell_of(start), shi),
        settled.subset_of(best.dom()),
        forall|st: RouteState| #[trigger] best.dom().contains(st) ==> 0 <= st.1 < 4,
        best.dom().contains((cell_of(goal), end_h as int)),
        end_h < 4,
    ensures
        r.1 < 4,
        best.dom().contains((cell_of(start), r.1 as int)),
        best[(cell_of(goal), end_h as int)] == best[(cell_of(start), r.1 as int)] + r.0@,
{
    let ghost s = cell_of(start);
    let ghost gs: RouteState = (cell_of(goal), end_h as int);
    let mut cur_pos = goal;
    let mut cur_h = end_h;
    let mut rev_path: Vec<Dir> = Vec::new();
    let ghost mut suf: Seq<Dir> = Seq::empty();
    proof {
        assert(best[gs] + suf =~= best[gs]);
    }
    while !(cur_pos.0 == start.0 && cur_pos.1 == start.1)
        invariant
            links_inv(best, settled, prev@, s, shi),
            settled.subset_of(best.dom()),
            forall|st: RouteState| #[trigger] best.dom().contains(st) ==> 0 <= st.1 < 4,
            s == cell_of(start),
            best.dom().contains((cell_of(cur_pos), cur_h as int)),
            best.dom().contains(gs),
            cur_h < 4,
            best[gs] == best[(cell_of(cur_pos), cur_h as int)] + suf,
            rev_path@.len() == suf.len(),
            forall|j: int| 0 <= j < suf.len() ==> #[trigger] rev_path@[j] == suf[suf.len() - 1 - j],
        decreases best[(cell_of(cur_pos), cur_h as int)].len(),
    {
        let ghost cst: RouteState = (cell_of(cur_pos), cur_h as int);
        let ck = skey(cur_pos, cur_h);
        let link = match prev.get(&ck) {
            Some(x) => *x,
            None => (start, cur_h, Dir::North),
        };
        let (pp, ph, d) = link;
        let ghost old_suf = suf;
        let ghost old_rev = rev_path@;
        proof {
            assert(cst != (s, shi));
            assert(best.dom().contains(cst));
            let pst = (cell_of(pp), ph as int);
            assert(prev@.contains_key(state_key(cst.0, cst.1) as u128));
            assert(best[cst] == best[pst].push(d));
            assert(settled.contains(pst));
            lemma_push_prepend(best[pst], d, old_suf);
            suf = seq![d] + old_suf;
        }
        rev_path.push(d);
        cur_pos = pp;
        cur_h = ph;
        proof {
            assert forall|j: int| 0 <= j < suf.len() implies #[trigger] rev_path@[j] == suf[suf.len()
                - 1 - j] by {
                if j < old_suf.len() {
                    assert(rev_path@[j] == old_rev[j]);
                    assert(old_rev[j] == old_suf[old_suf.len() - 1 - j]);
                }
            }
        }
    }
    let mut out: Vec<Dir> = Vec::new();
    let mut k: usize = rev_path.len();
    while k > 0
        invariant
            k <= rev_path.len(),
            out@.len() == rev_path.len() - k,
            forall|j: int|
                0 <= j < out@.len() ==> #[trigger] out@[j] == rev_path@[rev_path.len() - 1 - j],
        decreases k,
    {
        k = k - 1;
        out.push(rev_path[k]);
    }
    proof {
        assert(out@ =~= suf);
    }
    (out, cur_h)
}

/// The cheapest sequence of moves from `start`, facing `start_heading`, to
/// `goal`, where a move costs 31 and each quarter turn 36 more. Only visited
/// cells and the goal are entered. Empty when `start == goal` or when no such
/// route of cost below `u32::MAX` exists. Of the cheapest routes, the one
/// returned arrives at the goal with the heading of least index (North,
/// East, South, West), and reaches each of its states from the predecessor
/// state first in `(cost, row, col, heading)` order among those from which
/// a route reaches that state at the same cost: the order in which the
/// search settles states.
pub fn dijkstra_path(map: &DynMap, start: (i32, i32), start_heading: Dir, goal: (i32, i32)) -> (r:
    Vec<Dir>)
    requires
        map.wf(),
    ensures
        cell_of(start) == cell_of(goal) ==> r@.len() == 0,
        r@.len() > 0 ==> optimal_route(
            *map,
            cell_of(start),
            start_heading.idx(),
            cell_of(goal),
            r@,
        ),
        r@.len() == 0 && cell_of(start) != cell_of(goal) ==> forall|w: Seq<Dir>|
            #![trigger route_ok(*map, cell_of(start), cell_of(goal), w)]
            route_ok(*map, cell_of(start), cell_of(goal), w) && walk_end(cell_of(start), w)
                == cell_of(goal) ==> route_cost(start_heading.idx(), w) >= u32::MAX,
        r@.len() > 0 ==> forall|w: Seq<Dir>|
            #![trigger route_ok(*map, cell_of(start), cell_of(goal), w)]
            route_ok(*map, cell_of(start), cell_of(goal), w) && walk_end(cell_of(start), w)
                == cell_of(goal) && route_cost(start_heading.idx(), w) == route_cost(
                start_heading.idx(),
                r@,
            ) && route_cost(start_heading.idx(), w) < u32::MAX ==> r@.last().idx()
                <= w.last().idx(),
        r@.len() > 0 ==> forall|k: int, w: Seq<Dir>|
            #![trigger route_ok(*map, cell_of(start), cell_of(goal), w), r@.take(k)]
            1 <= k <= r@.len() && w.len() > 0 && route_ok(*map, cell_of(start), cell_of(goal), w)
                && route_state(cell_of(start), start_heading.idx(), w) == route_state(
                cell_of(start),
                start_heading.idx(),
                r@.take(k),
            ) && route_cost(start_heading.idx(), w) == route_cost(start_heading.idx(), r@.take(k))
                && route_cost(start_heading.idx(), w) < u32::MAX ==> rank_le(
                route_rank(cell_of(start), start_heading.idx(), r@.take(k - 1)),
                route_rank(cell_of(start), start_heading.idx(), w.drop_last()),
            ),
{
    if start.0 == goal.0 && start.1 == goal.1 {
        return Vec::new();
    }
    let ghost s = cell_of(start);
    let ghost g = cell_of(goal);
    let sh: u8 = start_heading.index();
    let ghost shi = sh as int;
    let ghost root: RouteState = (s, shi);
    let mut dist: HashMap<u128, u32> = HashMap::new();
    let mut prev: HashMap<u128, ((i32, i32), u8, Dir)> = HashMap::new();
    let mut heap: Vec<(u32, i32, i32, u8)> = Vec::new();
    let root_key = skey(start, sh);
    dist.insert(root_key, 0);
    heap.push((0, start.0, start.1, sh));

    let ghost cells = map.visited_cells().insert(g).insert(s);
    let ghost universe = states_over(cells);
    let ghost mut best: Map<RouteState, Seq<Dir>> = map![root => Seq::<Dir>::empty()];
    let ghost mut settled: Set<RouteState> = Set::empty();
    proof {
        lemma_states_over_finite(cells);
        lemma_state_key(s, shi);
        assert(route_state(s, shi, Seq::<Dir>::empty()) == root);
        assert forall|p: GridCell, h: int|
            in_grid(p) && 0 <= h < 4 && #[trigger] dist@.contains_key(state_key(p, h) as u128)
                implies best.dom().contains((p, h)) by {
            lemma_state_key(p, h);
            lemma_state_key_injective(p, h, s, shi);
        }
        assert(heap@[0] == (0u32, start.0, start.1, sh));
        assert(entry_state(heap@[0]) == root);
    }

    while heap.len() > 0
        invariant
            map.wf(),
            s == cell_of(start),
            g == cell_of(goal),
            s != g,
            shi == sh as int,
            sh < 4,
            root == (s, shi),
            cells.contains(g),
            map.visited_cells().subset_of(cells),
            universe == states_over(cells),
            universe.finite(),
            search_inv(*map, s, shi, g, best, settled, settled, dist@, prev@, universe),
            queue_inv(heap@, best, settled, shi),
            tie_inv(*map, g, best, settled, prev@, s, shi),
            settled_below(best, settled, heap@, shi),
        decreases universe.len() - settled.len(), heap.len(),
    {
        proof {
            vstd::set_lib::lemma_len_subset(settled, universe);
        }
        let ghost heap0 = heap@;
        let (e, ei) = pop_min(&mut heap);
        let (cost, row, col, h) = e;
        let pos = (row, col);
        let ghost st: RouteState = (cell_of(pos), h as int);
        proof {
            assert(entry_state(heap0[ei as int]) == st);
            assert(heap0[ei as int].3 < 4);
            lemma_state_key(st.0, st.1);
            lemma_queue_remove(heap0, ei as int, best, settled, shi);
        }
        let k = skey(pos, h);
        let fresh = match dist.get(&k) {
            Some(d) => cost <= *d,
            None => false,
        };
        if fresh {
            let ghost closed0 = settled;
            proof {
                assert(cost as int == route_cost(shi, best[st]));
                lemma_pop_optimal(*map, s, shi, g, best, settled, dist@, prev@, universe, heap0, e);
                assert(entry_rank(heap0[ei as int]) == best_rank(best, shi, st));
                assert forall|u: RouteState| #[trigger]
                    closed0.contains(u) implies rank_le(best_rank(best, shi, u), best_rank(best, shi, st)) by {
                    assert(heap0[ei as int] == e);
                }
                settled = settled.insert(st);
                assert forall|u: RouteState, j: int|
                    #![trigger settled.contains(u), heap@[j]]
                    settled.contains(u) && 0 <= j < heap@.len() implies rank_le(
                    best_rank(best, shi, u),
                    entry_rank(heap@[j]),
                ) by {
                    let j0 = if j < ei { j } else { j + 1 };
                    assert(heap@[j] == heap0[j0]);
                    assert(rank_le(entry_rank(e), entry_rank(heap0[j0])));
                    if u != st {
                        assert(closed0.contains(u));
                    }
                }
                assert forall|u: RouteState, w: Seq<Dir>|
                    #![trigger settled.contains(u), route_ok(*map, s, g, w)]
                    settled.contains(u) && route_ok(*map, s, g, w) && route_state(s, shi, w) == u
                        && route_cost(shi, w) < u32::MAX implies route_cost(shi, w) >= route_cost(
                        shi,
                        best[u],
                    ) by {
                    if u != st {
                        assert(closed0.contains(u));
                    }
                }
            }
            let ghost heap1 = heap@;
            let mut i: u8 = 0;
            while i < 4
                invariant
                    map.wf(),
                    g == cell_of(goal),
                    cells.contains(g),
                    map.visited_cells().subset_of(cells),
                    universe == states_over(cells),
                    st == (cell_of(pos), h as int),
                    h < 4,
                    cost as int == route_cost(shi, best[st]),
                    settled == closed0.insert(st),
                    search_inv(*map, s, shi, g, best, settled, closed0, dist@, prev@, universe),
                    queue_inv(heap@, best, settled, shi),
                    tie_inv(*map, g, best, closed0, prev@, s, shi),
                    settled_below(best, settled, heap@, shi),
                    forall|u: RouteState| #[trigger]
                        settled.contains(u) ==> rank_le(best_rank(best, shi, u), best_rank(best, shi, st)),
                    heap.len() >= heap1.len(),
                    closed0.contains(st) ==> heap@ == heap1,
                    0 <= i <= 4,
                    forall|d: Dir|
                        #![trigger step(st.0, d)]
                        d.idx() < i && edge_ok(*map, g, st.0, d) && route_cost(shi, best[st])
                            + edge_cost(st.1, d) < u32::MAX ==> best.dom().contains(
                            (step(st.0, d), d.idx()),
                        ) && route_cost(shi, best[(step(st.0, d), d.idx())]) <= route_cost(
                            shi,
                            best[st],
                        ) + edge_cost(st.1, d),
                decreases 4 - i,
            {
                let ghost best_before = best;
                let Ghost(nb) = relax(
                    map,
                    goal,
                    &mut dist,
                    &mut prev,
                    &mut heap,
                    pos,
                    h,
                    cost,
                    i,
                    Ghost(s),
                    Ghost(shi),
                    Ghost(best),
                    Ghost(settled),
                    Ghost(closed0),
                    Ghost(universe),
                    Ghost(cells),
                );
                proof {
                    best = nb;
                    assert(settled.contains(st));
                    assert(best[st] == best_before[st]);
                    assert forall|d: Dir|
                        #![trigger step(st.0, d)]
                        d.idx() < i + 1 && edge_ok(*map, g, st.0, d) && route_cost(shi, best[st])
                            + edge_cost(st.1, d) < u32::MAX implies best.dom().contains(
                            (step(st.0, d), d.idx()),
                        ) && route_cost(shi, best[(step(st.0, d), d.idx())]) <= route_cost(
                            shi,
                            best[st],
                        ) + edge_cost(st.1, d) by {
                        assert(best[st] == best_before[st]);
                        if d.idx() < i {
                            assert(best_before.dom().contains((step(st.0, d), d.idx())));
                        } else {
                            assert(d == Dir::of_index(i as int));
                        }
                    }
                }
                i = i + 1;
            }
            proof {
                assert forall|u: RouteState, d: Dir|
                    #![trigger settled.contains(u), step(u.0, d)]
                    settled.contains(u) && edge_ok(*map, g, u.0, d) && route_cost(shi, best[u])
                        + edge_cost(u.1, d) < u32::MAX implies best.dom().contains(
                        (step(u.0, d), d.idx()),
                    ) && route_cost(shi, best[(step(u.0, d), d.idx())]) <= route_cost(shi, best[u])
                        + edge_cost(u.1, d) by {
                    if u != st {
                        assert(closed0.contains(u));
                    } else {
                        assert(d.idx() < 4);
                    }
                }
            }
        }
        proof {
            vstd::set_lib::lemma_len_subset(settled, universe);
        }
    }
    proof {
        assert forall|u: RouteState| best.dom().contains(u) implies #[trigger] settled.contains(u) by {
            if !settled.contains(u) {
                let j = choose|j: int|
                    0 <= j < heap.len() && heap[j].0 as int == route_cost(shi, best[u])
                        && entry_state(heap[j]) == u;
            }
        }
    }

    proof {
        assert(dist_matches(best, dist@, shi));
    }
    let found = cheapest_goal_heading(&dist, goal, Ghost(best), Ghost(shi));
    let (_, end_h) = match found {
        Some(f) => f,
        None => {
            proof {
                assert forall|w: Seq<Dir>|
                    #![trigger route_ok(*map, s, g, w)]
                    route_ok(*map, s, g, w) && walk_end(s, w) == g implies route_cost(shi, w)
                        >= u32::MAX by {
                    if route_cost(shi, w) < u32::MAX {
                        let kk = lemma_route_cut(
                            *map,
                            s,
                            shi,
                            g,
                            best,
                            settled,
                            settled,
                            dist@,
                            prev@,
                            universe,
                            w,
                        );
                        assert(w.len() > 0);
                        let hw = heading_after(shi, w);
                        assert(best.dom().contains((g, hw)));
                    }
                }
            }
            return Vec::new();
        },
    };
    let (out, back_h) = trace_back(
        &prev,
        start,
        goal,
        end_h,
        Ghost(shi),
        Ghost(best),
        Ghost(settled),
    );
    proof {
        lemma_optimal_result(
            *map,
            s,
            shi,
            g,
            best,
            settled,
            dist@,
            prev@,
            universe,
            end_h as int,
            back_h as int,
            out@,
        );
        lemma_end_heading(
            *map,
            s,
            shi,
            g,
            best,
            settled,
            dist@,
            prev@,
            universe,
            end_h as int,
            back_h as int,
            out@,
        );
        lemma_tie_break(
            *map,
            s,
            shi,
            g,
            best,
            settled,
            dist@,
            prev@,
            universe,
            end_h as int,
            out@,
        );
    }
    out
}

/// Of the cheapest routes to the goal, the one read back ends with the
/// heading of least index.
proof fn lemma_end_heading(
    map: DynMap,
    s: GridCell,
    shi: int,
    g: GridCell,
    best: Map<RouteState, Seq<Dir>>,
    settled: Set<RouteState>,
    dist: Map<u128, u32>,
    prev: Map<u128, ((i32, i32), u8, Dir)>,
    universe: Set<RouteState>,
    end_h: int,
    back_h: int,
    suf: Seq<Dir>,
)
    requires
        search_inv(map, s, shi, g, best, settled, settled, dist, prev, universe),
        best.dom().subset_of(settled),
        s != g,
        best.dom().contains((g, end_h)),
        forall|k: int|
            #![trigger best.dom().contains((g, k))]
            0 <= k < 4 && best.dom().contains((g, k)) ==> route_cost(shi, best[(g, end_h)])
                <= route_cost(shi, best[(g, k)]),
        forall|k: int|
            #![trigger best.dom().contains((g, k))]
            0 <= k < end_h && best.dom().contains((g, k)) ==> route_cost(shi, best[(g, end_h)])
                < route_cost(shi, best[(g, k)]),
        best.dom().contains((s, back_h)),
        best[(g, end_h)] == best[(s, back_h)] + suf,
        optimal_route(map, s, shi, g, suf),
    ensures
        suf.len() > 0,
        forall|w: Seq<Dir>|
            #![trigger route_ok(map, s, g, w)]
            route_ok(map, s, g, w) && walk_end(s, w) == g && route_cost(shi, w) == route_cost(
                shi,
                suf,
            ) && route_cost(shi, w) < u32::MAX ==> suf.last().idx() <= w.last().idx(),
{
    let gs = (g, end_h);
    let a = best[(s, back_h)];
    assert(suf.len() > 0);
    lemma_route_concat(map, s, g, shi, a, suf);
    assert(heading_after(shi, best[gs]) == end_h);
    assert(suf.last().idx() == end_h);
    assert(route_ok(map, s, g, best[gs]));
    assert(route_cost(shi, suf) <= route_cost(shi, best[gs]));
    assert forall|w: Seq<Dir>|
        #![trigger route_ok(map, s, g, w)]
        route_ok(map, s, g, w) && walk_end(s, w) == g && route_cost(shi, w) == route_cost(shi, suf)
            && route_cost(shi, w) < u32::MAX implies suf.last().idx() <= w.last().idx() by {
        let kk = lemma_route_cut(map, s, shi, g, best, settled, settled, dist, prev, universe, w);
        assert(w.len() > 0);
        let h2 = heading_after(shi, w);
        assert(best.dom().contains((g, h2)));
        assert(route_cost(shi, best[(g, h2)]) <= route_cost(shi, w));
        if h2 < end_h {
            assert(route_cost(shi, best[gs]) < route_cost(shi, best[(g, h2)]));
        }
    }
}

/// Along the route read back, every prefix is the recorded route of the
/// state it reaches, and each state links to the one before it.
proof fn lemma_chain(
    map: DynMap,
    s: GridCell,
    shi: int,
    g: GridCell,
    best: Map<RouteState, Seq<Dir>>,
    settled: Set<RouteState>,
    dist: Map<u128, u32>,
    prev: Map<u128, ((i32, i32), u8, Dir)>,
    universe: Set<RouteState>,
    end_h: int,
    suf: Seq<Dir>,
    j: int,
)
    requires
        search_inv(map, s, shi, g, best, settled, settled, dist, prev, universe),
        best.dom().subset_of(settled),
        best.dom().contains((g, end_h)),
        suf == best[(g, end_h)],
        optimal_route(map, s, shi, g, suf),
        0 <= j <= suf.len(),
    ensures
        best.dom().contains(route_state(s, shi, suf.take(j))),
        best[route_state(s, shi, suf.take(j))] == suf.take(j),
        j < suf.len() ==> route_state(s, shi, suf.take(j + 1)) != (s, shi) && link_state(
            prev,
            route_state(s, shi, suf.take(j + 1)),
        ) == route_state(s, shi, suf.take(j)),
    decreases suf.len() - j,
{
    if j == suf.len() {
        assert(suf.take(j) =~= suf);
    } else {
        lemma_chain(map, s, shi, g, best, settled, dist, prev, universe, end_h, suf, j + 1);
        let v = route_state(s, shi, suf.take(j + 1));
        lemma_optimal_route_simple(map, s, shi, g, suf);
        assert(suf.take(0) =~= Seq::<Dir>::empty());
        assert(walk_end(s, suf.take(0)) != walk_end(s, suf.take(j + 1)));
        assert(v != (s, shi));
        let l = link_state(prev, v);
        assert(settled.contains(l));
        assert(best[v] == best[l].push(prev[state_key(v.0, v.1) as u128].2));
        assert(best[l] =~= suf.take(j + 1).drop_last());
        assert(suf.take(j + 1).drop_last() =~= suf.take(j));
    }
}

/// One step of the route read back, against one competing route.
#[verifier::spinoff_prover]
#[verifier::rlimit(40)]
proof fn lemma_tie_step(
    map: DynMap,
    s: GridCell,
    shi: int,
    g: GridCell,
    best: Map<RouteState, Seq<Dir>>,
    settled: Set<RouteState>,
    dist: Map<u128, u32>,
    prev: Map<u128, ((i32, i32), u8, Dir)>,
    universe: Set<RouteState>,
    end_h: int,
    suf: Seq<Dir>,
    k: int,
    w: Seq<Dir>,
)
    requires
        search_inv(map, s, shi, g, best, settled, settled, dist, prev, universe),
        tie_inv(map, g, best, settled, prev, s, shi),
        best.dom().subset_of(settled),
        best.dom().contains((g, end_h)),
        suf == best[(g, end_h)],
        optimal_route(map, s, shi, g, suf),
        1 <= k <= suf.len(),
        w.len() > 0,
        route_ok(map, s, g, w),
        route_state(s, shi, w) == route_state(s, shi, suf.take(k)),
        route_cost(shi, w) == route_cost(shi, suf.take(k)),
        route_cost(shi, w) < u32::MAX,
    ensures
        rank_le(route_rank(s, shi, suf.take(k - 1)), route_rank(s, shi, w.drop_last())),
{
    lemma_chain(map, s, shi, g, best, settled, dist, prev, universe, end_h, suf, k);
    lemma_chain(map, s, shi, g, best, settled, dist, prev, universe, end_h, suf, k - 1);
    let v = route_state(s, shi, suf.take(k));
    let wd = w.drop_last();
    let d = w.last();
    assert(wd.push(d) =~= w);
    lemma_route_push(map, s, g, shi, wd, d);
    let u = route_state(s, shi, wd);
    lemma_turn_cost_range(u.1, d.idx());
    lemma_route_prefix(map, s, g, shi, w, w.len() - 1);
    assert(w.take(w.len() - 1) =~= wd);
    let k2 = lemma_route_cut(map, s, shi, g, best, settled, settled, dist, prev, universe, wd);
    if k2 != -1 {
        assert(best.dom().contains(route_state(s, shi, wd.take(k2))));
        assert(false);
    }
    assert(settled.contains(u));
    assert(edge_ok(map, g, u.0, d));
    assert(v == (step(u.0, d), d.idx()));
    assert(route_cost(shi, best[v]) <= route_cost(shi, best[u]) + edge_cost(u.1, d));
    assert(route_cost(shi, best[u]) + edge_cost(u.1, d) == route_cost(shi, best[v]));
    let l = link_state(prev, v);
    assert(l == route_state(s, shi, suf.take(k - 1)));
    assert(rank_le(best_rank(best, shi, l), best_rank(best, shi, u)));
}

/// Each step of the route read back comes from the predecessor state that
/// comes first in the search's order among those from which a route
/// reaches the step's state at its cost.
proof fn lemma_tie_break(
    map: DynMap,
    s: GridCell,
    shi: int,
    g: GridCell,
    best: Map<RouteState, Seq<Dir>>,
    settled: Set<RouteState>,
    dist: Map<u128, u32>,
    prev: Map<u128, ((i32, i32), u8, Dir)>,
    universe: Set<RouteState>,
    end_h: int,
    suf: Seq<Dir>,
)
    requires
        search_inv(map, s, shi, g, best, settled, settled, dist, prev, universe),
        tie_inv(map, g, best, settled, prev, s, shi),
        best.dom().subset_of(settled),
        best.dom().contains((g, end_h)),
        suf == best[(g, end_h)],
        optimal_route(map, s, shi, g, suf),
    ensures
        forall|k: int, w: Seq<Dir>|
            #![trigger route_ok(map, s, g, w), suf.take(k)]
            1 <= k <= suf.len() && w.len() > 0 && route_ok(map, s, g, w) && route_state(s, shi, w)
                == route_state(s, shi, suf.take(k)) && route_cost(shi, w) == route_cost(
                shi,
                suf.take(k),
            ) && route_cost(shi, w) < u32::MAX ==> rank_le(
                route_rank(s, shi, suf.take(k - 1)),
                route_rank(s, shi, w.drop_last()),
            ),
{
    assert forall|k: int, w: Seq<Dir>|
        #![trigger route_ok(map, s, g, w), suf.take(k)]
        1 <= k <= suf.len() && w.len() > 0 && route_ok(map, s, g, w) && route_state(s, shi, w)
            == route_state(s, shi, suf.take(k)) && route_cost(shi, w) == route_cost(
            shi,
            suf.take(k),
        ) && route_cost(shi, w) < u32::MAX implies rank_le(
        route_rank(s, shi, suf.take(k - 1)),
        route_rank(s, shi, w.drop_last()),
    ) by {
        lemma_tie_step(map, s, shi, g, best, settled, dist, prev, universe, end_h, suf, k, w);
    }
}

/// The route read back from the predecessor links is optimal.
proof fn lemma_optimal_result(
    map: DynMap,
    s: GridCell,
    shi: int,
    g: GridCell,
    best: Map<RouteState, Seq<Dir>>,
    settled: Set<RouteState>,
    dist: Map<u128, u32>,
    prev: Map<u128, ((i32, i32), u8, Dir)>,
    universe: Set<RouteState>,
    end_h: int,
    back_h: int,
    suf: Seq<Dir>,
)
    requires
        search_inv(map, s, shi, g, best, settled, settled, dist, prev, universe),
        best.dom().subset_of(settled),
        s != g,
        best.dom().contains((g, end_h)),
        forall|k: int|
            #![trigger best.dom().contains((g, k))]
            0 <= k < 4 && best.dom().contains((g, k)) ==> route_cost(shi, best[(g, end_h)])
                <= route_cost(shi, best[(g, k)]),
        best.dom().contains((s, back_h)),
        best[(g, end_h)] == best[(s, back_h)] + suf,
    ensures
        optimal_route(map, s, shi, g, suf),
        suf == best[(g, end_h)],
{
    let gs = (g, end_h);
    let cst = (s, back_h);
    let a = best[cst];
    lemma_route_concat(map, s, g, shi, a, suf);
    assert(walk_end(s, a) == s);
    assert(route_ok(map, s, g, suf));
    assert(walk_end(s, suf) == g);
    if cst != (s, shi) {
        assert(a.len() > 0);
        lemma_closed_route_cost(s, shi, a);
        assert(suf.len() > 0);
        lemma_route_first_turn(shi, back_h, suf);
        lemma_turn_cost_range(shi, suf[0].idx());
        lemma_turn_cost_range(back_h, suf[0].idx());
        assert(heading_after(shi, suf) == heading_after(back_h, suf));
        assert(route_state(s, shi, suf) == gs);
        assert(route_cost(shi, suf) >= route_cost(shi, best[gs]));
        assert(false);
    }
    assert(a =~= Seq::<Dir>::empty());
    assert(suf =~= best[gs]);
    assert forall|w2: Seq<Dir>|
        #![trigger route_ok(map, s, g, w2)]
        route_ok(map, s, g, w2) && walk_end(s, w2) == g implies route_cost(shi, w2) >= route_cost(
            shi,
            suf,
        ) by {
        if route_cost(shi, w2) < u32::MAX {
            let kk = lemma_route_cut(map, s, shi, g, best, settled, settled, dist, prev, universe, w2);
            assert(w2.len() > 0);
            let hw = heading_after(shi, w2);
            assert(best.dom().contains((g, hw)));
        }
    }
}

} // verus!
