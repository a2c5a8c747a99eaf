//! Routes for the cost-aware path search: walks whose every step lands on a
//! visited cell or on the goal, with a cost that counts moves and turns.
//!
//! A straight move costs about as many simulator cycles as driving plus
//! settling (31); a quarter turn about as many as the longest turn (36), a
//! half turn twice that.
use vstd::prelude::*;
use crate::dir::{Dir, GridCell, in_grid, step, lemma_step_back};
use crate::map::DynMap;
use crate::walk::{open_step, walk_end};

verus! {

/// Cost of one cell-to-cell move.
pub const MOVE_COST: u32 = 31;

/// Cost of a quarter turn.
pub const TURN90_COST: u32 = 36;

/// Extra cost of heading `to` after heading `from` (indices 0..4).
pub open spec fn turn_cost(from: int, to: int) -> int {
    let t = (to + 4 - from) % 4;
    if t == 0 {
        0
    } else if t == 2 {
        2 * TURN90_COST
    } else {
        TURN90_COST as int
    }
}

/// The heading after following `w` from heading `sh`.
pub open spec fn heading_after(sh: int, w: Seq<Dir>) -> int {
    if w.len() == 0 {
        sh
    } else {
        w.last().idx()
    }
}

/// Cost of following `w` when starting with heading `sh`.
pub open spec fn route_cost(sh: int, w: Seq<Dir>) -> int
    decreases w.len(),
{
    if w.len() == 0 {
        0
    } else {
        route_cost(sh, w.drop_last()) + MOVE_COST + turn_cost(
            heading_after(sh, w.drop_last()),
            w.last().idx(),
        )
    }
}

/// Whether `w` is a route from `s`: each step is open and lands on a visited
/// cell or on the goal `g`.
pub open spec fn route_ok(map: DynMap, s: GridCell, g: GridCell, w: Seq<Dir>) -> bool
    decreases w.len(),
{
    if w.len() == 0 {
        in_grid(s)
    } else {
        &&& route_ok(map, s, g, w.drop_last())
        &&& open_step(map, walk_end(s, w.drop_last()), w.last())
        &&& (map.visited_cells().contains(walk_end(s, w)) || walk_end(s, w) == g)
    }
}

/// Whether `w` is a route from `s` to `g` that no route from `s` to `g` beats
/// in cost, starting with heading `sh`.
pub open spec fn optimal_route(map: DynMap, s: GridCell, sh: int, g: GridCell, w: Seq<Dir>) -> bool {
    &&& route_ok(map, s, g, w)
    &&& walk_end(s, w) == g
    &&& forall|w2: Seq<Dir>|
        #![trigger route_ok(map, s, g, w2)]
        route_ok(map, s, g, w2) && walk_end(s, w2) == g ==> route_cost(sh, w2) >= route_cost(sh, w)
}

/// Extending a route by one step.
pub proof fn lemma_route_push(map: DynMap, s: GridCell, g: GridCell, sh: int, w: Seq<Dir>, d: Dir)
    ensures
        route_ok(map, s, g, w.push(d)) == (route_ok(map, s, g, w) && open_step(
            map,
            walk_end(s, w),
            d,
        ) && (map.visited_cells().contains(step(walk_end(s, w), d)) || step(walk_end(s, w), d)
            == g)),
        route_cost(sh, w.push(d)) == route_cost(sh, w) + MOVE_COST + turn_cost(
            heading_after(sh, w),
            d.idx(),
        ),
        heading_after(sh, w.push(d)) == d.idx(),
        walk_end(s, w.push(d)) == step(walk_end(s, w), d),
{
    assert(w.push(d).drop_last() =~= w);
}

/// Turn costs lie between 0 and a half turn.
pub proof fn lemma_turn_cost_range(from: int, to: int)
    ensures
        0 <= turn_cost(from, to) <= 72,
{
}

/// A prefix of a route is a route and costs no more.
pub proof fn lemma_route_prefix(map: DynMap, s: GridCell, g: GridCell, sh: int, w: Seq<Dir>, k: int)
    requires
        0 <= k <= w.len(),
        route_ok(map, s, g, w),
    ensures
        route_ok(map, s, g, w.take(k)),
        route_cost(sh, w.take(k)) <= route_cost(sh, w),
    decreases w.len(),
{
    if k == w.len() {
        assert(w.take(k) =~= w);
    } else {
        lemma_route_prefix(map, s, g, sh, w.drop_last(), k);
        assert(w.drop_last().take(k) =~= w.take(k));
        lemma_turn_cost_range(heading_after(sh, w.drop_last()), w.last().idx());
    }
}

/// Splitting a route in two.
pub proof fn lemma_route_concat(
    map: DynMap,
    s: GridCell,
    g: GridCell,
    sh: int,
    a: Seq<Dir>,
    b: Seq<Dir>,
)
    ensures
        walk_end(s, a + b) == walk_end(walk_end(s, a), b),
        route_cost(sh, a + b) == route_cost(sh, a) + route_cost(heading_after(sh, a), b),
        heading_after(sh, a + b) == heading_after(heading_after(sh, a), b),
        route_ok(map, s, g, a + b) ==> route_ok(map, walk_end(s, a), g, b),
        route_ok(map, s, g, a + b) ==> route_ok(map, s, g, a),
    decreases b.len(),
{
    if b.len() == 0 {
        assert(a + b =~= a);
        if route_ok(map, s, g, a) {
            lemma_route_in_grid(map, s, g, a);
        }
    } else {
        assert((a + b).drop_last() =~= a + b.drop_last());
        assert((a + b).last() == b.last());
        lemma_route_concat(map, s, g, sh, a, b.drop_last());
    }
}

/// A route stays on the grid.
pub proof fn lemma_route_in_grid(map: DynMap, s: GridCell, g: GridCell, w: Seq<Dir>)
    requires
        route_ok(map, s, g, w),
    ensures
        in_grid(walk_end(s, w)),
        in_grid(s),
    decreases w.len(),
{
    if w.len() > 0 {
        lemma_route_in_grid(map, s, g, w.drop_last());
    }
}

/// The starting heading only affects the cost of the first turn.
pub proof fn lemma_route_first_turn(h1: int, h2: int, b: Seq<Dir>)
    requires
        b.len() > 0,
    ensures
        route_cost(h1, b) - route_cost(h2, b) == turn_cost(h1, b[0].idx()) - turn_cost(
            h2,
            b[0].idx(),
        ),
    decreases b.len(),
{
    if b.len() > 1 {
        lemma_route_first_turn(h1, h2, b.drop_last());
        assert(b.drop_last()[0] == b[0]);
    } else {
        assert(b.drop_last().len() == 0);
        assert(b.last() == b[0]);
        assert(route_cost(h1, b.drop_last()) == 0);
        assert(route_cost(h2, b.drop_last()) == 0);
    }
}

/// Each step costs at least one move.
proof fn lemma_route_cost_lower(sh: int, w: Seq<Dir>)
    ensures
        route_cost(sh, w) >= MOVE_COST * w.len(),
    decreases w.len(),
{
    if w.len() > 0 {
        lemma_route_cost_lower(sh, w.drop_last());
        lemma_turn_cost_range(heading_after(sh, w.drop_last()), w.last().idx());
    }
}

/// Each step changes the parity of `row + col`.
proof fn lemma_walk_parity(p: GridCell, w: Seq<Dir>)
    ensures
        (walk_end(p, w).0 + walk_end(p, w).1 + w.len() - p.0 - p.1) % 2 == 0,
    decreases w.len(),
{
    if w.len() > 0 {
        lemma_walk_parity(p, w.drop_last());
    }
}

/// A nonempty route that returns to its first cell costs at least 124.
pub proof fn lemma_closed_route_cost(p: GridCell, sh: int, w: Seq<Dir>)
    requires
        w.len() > 0,
        walk_end(p, w) == p,
    ensures
        route_cost(sh, w) >= 124,
{
    lemma_walk_parity(p, w);
    lemma_route_cost_lower(sh, w);
    if w.len() == 2 {
        let a = w[0];
        let b = w[1];
        let w1 = w.drop_last();
        assert(w1.len() == 1 && w1[0] == a && w1.last() == a);
        assert(w1.drop_last() =~= Seq::<Dir>::empty());
        assert(walk_end(p, w1.drop_last()) == p);
        assert(walk_end(p, w1) == step(p, a));
        assert(route_cost(sh, w1.drop_last()) == 0);
        assert(route_cost(sh, w1) == MOVE_COST + turn_cost(sh, a.idx()));
        assert(w.last() == b);
        assert(walk_end(p, w) == step(step(p, a), b));
        lemma_step_back(p, a);
        assert(b == a.reverse());
        lemma_turn_cost_range(sh, a.idx());
    }
}


/// Joining a route from `s` and a route from where it ends gives a route.
proof fn lemma_route_join(map: DynMap, s: GridCell, g: GridCell, a: Seq<Dir>, b: Seq<Dir>)
    requires
        route_ok(map, s, g, a),
        route_ok(map, walk_end(s, a), g, b),
    ensures
        route_ok(map, s, g, a + b),
    decreases b.len(),
{
    if b.len() == 0 {
        assert(a + b =~= a);
    } else {
        let b1 = b.drop_last();
        lemma_route_join(map, s, g, a, b1);
        assert((a + b).drop_last() =~= a + b1);
        assert((a + b).last() == b.last());
        lemma_route_concat(map, s, g, 0, a, b1);
        lemma_route_concat(map, s, g, 0, a, b);
    }
}

/// A cheapest route enters no cell twice: the cells it passes through, from
/// the start to the goal, are all different. In particular it never passes
/// through the goal before its end, nor comes back to the start.
pub proof fn lemma_optimal_route_simple(map: DynMap, s: GridCell, sh: int, g: GridCell, w: Seq<Dir>)
    requires
        optimal_route(map, s, sh, g, w),
    ensures
        forall|i: int, j: int|
            0 <= i < j <= w.len() ==> walk_end(s, #[trigger] w.take(i)) != walk_end(
                s,
                #[trigger] w.take(j),
            ),
{
    assert forall|i: int, j: int|
        0 <= i < j <= w.len() implies walk_end(s, #[trigger] w.take(i)) != walk_end(
            s,
            #[trigger] w.take(j),
        ) by {
        if walk_end(s, w.take(i)) == walk_end(s, w.take(j)) {
            let a = w.take(i);
            let l = w.subrange(i, j);
            let b = w.subrange(j, w.len() as int);
            let c = walk_end(s, a);
            assert(a + l =~= w.take(j));
            assert(a + l + b =~= w);
            lemma_route_concat(map, s, g, sh, a, l);
            lemma_route_concat(map, s, g, sh, a + l, b);
            lemma_route_concat(map, s, g, sh, a, b);
            assert(walk_end(c, l) == c);
            lemma_closed_route_cost(c, heading_after(sh, a), l);
            let ha = heading_after(sh, a);
            let hal = heading_after(sh, a + l);
            if b.len() > 0 {
                lemma_route_first_turn(ha, hal, b);
                lemma_turn_cost_range(ha, b[0].idx());
                lemma_turn_cost_range(hal, b[0].idx());
            } else {
                assert(route_cost(ha, b) == 0);
                assert(route_cost(hal, b) == 0);
            }
            lemma_route_join(map, s, g, a, b);
            assert(route_ok(map, s, g, a + b));
            assert(walk_end(s, a + b) == g);
            assert(route_cost(sh, a + b) < route_cost(sh, w));
        }
    }
}


/// Turning costs what the simulator's turns take: nothing to keep the
/// heading, 36 for a quarter turn either way, 72 for a half turn.
pub proof fn lemma_turn_cost_values(h: int)
    requires
        0 <= h < 4,
    ensures
        turn_cost(h, h) == 0,
        turn_cost(h, (h + 1) % 4) == 36,
        turn_cost(h, (h + 3) % 4) == 36,
        turn_cost(h, (h + 2) % 4) == 72,
{
}

/// One move costs 31 cycles, plus 36 when it turns a quarter from the
/// heading (left or right) and 72 when it turns back; a route costs the sum
/// of its moves.
pub proof fn lemma_move_costs(d: Dir, sh: int, w: Seq<Dir>)
    ensures
        route_cost(d.idx(), seq![d]) == 31,
        route_cost(d.idx(), seq![d.right_of()]) == 31 + 36,
        route_cost(d.idx(), seq![d.left_of()]) == 31 + 36,
        route_cost(d.idx(), seq![d.reverse()]) == 31 + 72,
        route_cost(sh, Seq::<Dir>::empty()) == 0,
        route_cost(sh, w.push(d)) == route_cost(sh, w) + 31 + turn_cost(heading_after(sh, w), d.idx()),
{
    let e = Seq::<Dir>::empty();
    assert(route_cost(d.idx(), e) == 0);
    assert(heading_after(d.idx(), e) == d.idx());
    assert(seq![d].drop_last() =~= e);
    assert(seq![d].last() == d);
    assert(seq![d.right_of()].drop_last() =~= e);
    assert(seq![d.right_of()].last() == d.right_of());
    assert(seq![d.left_of()].drop_last() =~= e);
    assert(seq![d.left_of()].last() == d.left_of());
    assert(seq![d.reverse()].drop_last() =~= e);
    assert(seq![d.reverse()].last() == d.reverse());
    assert(w.push(d).drop_last() =~= w);
}


/// A route only steps between neighbouring cells, never across a recorded
/// wall, and every cell it enters after the start is visited or is the
/// goal.
pub proof fn lemma_route_cells(map: DynMap, s: GridCell, g: GridCell, w: Seq<Dir>, k: int)
    requires
        route_ok(map, s, g, w),
        0 < k <= w.len(),
    ensures
        map.visited_cells().contains(walk_end(s, w.take(k))) || walk_end(s, w.take(k)) == g,
        walk_end(s, w.take(k)) == step(walk_end(s, w.take(k - 1)), w[k - 1]),
        !map.wall(walk_end(s, w.take(k - 1)), w[k - 1]),
    decreases w.len(),
{
    if k < w.len() {
        lemma_route_cells(map, s, g, w.drop_last(), k);
        assert(w.drop_last().take(k) =~= w.take(k));
        assert(w.drop_last().take(k - 1) =~= w.take(k - 1));
        assert(w.drop_last()[k - 1] == w[k - 1]);
    } else {
        assert(w.take(k) =~= w);
        assert(w.take(k - 1) =~= w.drop_last());
    }
}

} // verus!
