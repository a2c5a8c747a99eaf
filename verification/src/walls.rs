//! Streak-confirmed wall sensing.
//!
//! Each `(cell, side)` keeps a streak in `-K..=K` (`K` is
//! `WALL_CONFIRM_K`): a wall reading raises it by one, an open reading
//! lowers it by one. The side is recorded as a wall when its streak reaches
//! `K` and as open when it reaches `-K`, so on a side never read it takes `K`
//! agreeing readings to record anything.
use vstd::prelude::*;
use std::collections::HashMap;
use crate::dir::{Dir, GridCell, cell_of, in_grid, step, turn_left, turn_right, lemma_step_back};
use crate::map::{DynMap, key_of, cell_key, lemma_cell_key, lemma_cell_key_injective};

verus! {

broadcast use vstd::std_specs::hash::group_hash_axioms;

/// Consecutive agreeing readings that confirm a wall or an opening.
pub const WALL_CONFIRM_K: i32 = 2;

/// The key of a side of a cell.
pub open spec fn side_key(p: GridCell, d: Dir) -> int {
    cell_key(p) * 4 + d.idx()
}

proof fn lemma_side_key(p: GridCell, d: Dir, q: GridCell, e: Dir)
    requires
        in_grid(p),
        in_grid(q),
    ensures
        0 <= side_key(p, d) <= u128::MAX,
        side_key(p, d) == side_key(q, e) ==> p == q && d == e,
{
    lemma_cell_key(p);
    lemma_cell_key(q);
    vstd::arithmetic::div_mod::lemma_fundamental_div_mod_converse(
        side_key(p, d),
        4,
        cell_key(p),
        d.idx(),
    );
    vstd::arithmetic::div_mod::lemma_fundamental_div_mod_converse(
        side_key(q, e),
        4,
        cell_key(q),
        e.idx(),
    );
    if side_key(p, d) == side_key(q, e) {
        lemma_cell_key_injective(p, q);
        crate::dir::lemma_index_roundtrip(d);
        crate::dir::lemma_index_roundtrip(e);
    }
}

fn side_key_of(p: (i32, i32), d: Dir) -> (k: u128)
    ensures
        k as int == side_key(cell_of(p), d),
{
    proof {
        lemma_side_key(cell_of(p), d, cell_of(p), d);
    }
    (key_of(p) as u128) * 4 + (d.index() as u128)
}

/// The streak after one reading.
pub open spec fn next_streak(old: int, latched: bool) -> int {
    if latched {
        if old + 1 < WALL_CONFIRM_K {
            old + 1
        } else {
            WALL_CONFIRM_K as int
        }
    } else {
        if old - 1 > -WALL_CONFIRM_K {
            old - 1
        } else {
            -WALL_CONFIRM_K
        }
    }
}

/// The streak of a side after a run of readings, oldest first, starting
/// from `start`.
pub open spec fn streak_after(start: int, readings: Seq<bool>) -> int
    decreases readings.len(),
{
    if readings.len() == 0 {
        start
    } else {
        next_streak(streak_after(start, readings.drop_last()), readings.last())
    }
}

proof fn lemma_streak_moves_slowly(start: int, readings: Seq<bool>)
    requires
        -WALL_CONFIRM_K <= start <= WALL_CONFIRM_K,
    ensures
        -WALL_CONFIRM_K <= streak_after(start, readings) <= WALL_CONFIRM_K,
        start - readings.len() <= streak_after(start, readings) <= start + readings.len(),
    decreases readings.len(),
{
    if readings.len() > 0 {
        lemma_streak_moves_slowly(start, readings.drop_last());
    }
}

proof fn lemma_agreeing_run(start: int, latched: bool, n: nat)
    requires
        -WALL_CONFIRM_K <= start <= WALL_CONFIRM_K,
    ensures
        latched ==> streak_after(start, Seq::new(n, |i: int| latched)) == (if start + n
            < WALL_CONFIRM_K {
            start + n
        } else {
            WALL_CONFIRM_K as int
        }),
        !latched ==> streak_after(start, Seq::new(n, |i: int| latched)) == (if start - n
            > -WALL_CONFIRM_K {
            start - n
        } else {
            -WALL_CONFIRM_K
        }),
    decreases n,
{
    if n > 0 {
        let run = Seq::new(n, |i: int| latched);
        assert(run.drop_last() =~= Seq::new((n - 1) as nat, |i: int| latched));
        lemma_agreeing_run(start, latched, (n - 1) as nat);
    }
}

/// Confirmation takes `WALL_CONFIRM_K` readings. Each reading moves a side's
/// streak by at most one, within `-K..=K`. So on a side never read (streak
/// 0) fewer than `K` readings of any kind leave the streak strictly between
/// `-K` and `K`, recording neither a wall nor an opening; and `K` agreeing
/// readings bring it to `K` (a wall) or `-K` (an opening), which further
/// agreeing readings keep.
pub proof fn lemma_wall_confirmation(readings: Seq<bool>, latched: bool, extra: nat)
    ensures
        -WALL_CONFIRM_K <= streak_after(0, readings) <= WALL_CONFIRM_K,
        readings.len() < WALL_CONFIRM_K ==> -WALL_CONFIRM_K < streak_after(0, readings)
            < WALL_CONFIRM_K,
        streak_after(0, Seq::new((WALL_CONFIRM_K + extra) as nat, |i: int| latched)) == (if latched {
            WALL_CONFIRM_K as int
        } else {
            -WALL_CONFIRM_K
        }),
{
    lemma_streak_moves_slowly(0, readings);
    lemma_agreeing_run(0, latched, (WALL_CONFIRM_K + extra) as nat);
}

/// Whether a reading (`latched`: a wall) of a side whose streak is `streak`
/// records the side on the map.
pub fn reading_confirms(streak: i32, latched: bool) -> (r: bool)
    requires
        -WALL_CONFIRM_K <= streak <= WALL_CONFIRM_K,
    ensures
        r == confirms(streak as int, latched),
{
    if latched {
        streak + 1 >= WALL_CONFIRM_K
    } else {
        streak - 1 <= -WALL_CONFIRM_K
    }
}

/// The streaks of all `(cell, side)` pairs.
pub struct WallStreaks {
    counts: HashMap<u128, i32>,
}

/// What a reading did to the map.
#[derive(Clone, Copy, Debug, PartialEq, Eq, Structural)]
pub struct WallEvent {
    /// Which of the three sensed sides (ahead, left, right).
    pub side: usize,
    /// The side's direction.
    pub dir: Dir,
    /// `true` when a wall appeared, `false` when a recorded wall was cleared.
    pub wall: bool,
}

/// Whether a change at side `d` of `pos` concerns side `e` of cell `p`.
pub open spec fn touches(pos: GridCell, d: Dir, p: GridCell, e: Dir) -> bool {
    (p == pos && e == d) || (p == step(pos, d) && e == d.reverse())
}

/// What one reading does to side `e` of cell `p`: a confirmed wall sets it, a
/// confirmed opening clears it, anything else leaves it.
pub open spec fn side_rule(
    old_wall: bool,
    pos: GridCell,
    d: Dir,
    streak_after: int,
    latched: bool,
    p: GridCell,
    e: Dir,
) -> bool {
    if touches(pos, d, p, e) && latched && streak_after >= WALL_CONFIRM_K {
        true
    } else if touches(pos, d, p, e) && !latched && streak_after <= -WALL_CONFIRM_K {
        false
    } else {
        old_wall
    }
}

/// Whether a reading (`latched`: a wall) of a side whose streak is `s`
/// confirms a wall or an opening, and so records it on the map.
pub open spec fn confirms(s: int, latched: bool) -> bool {
    if latched {
        next_streak(s, true) >= WALL_CONFIRM_K
    } else {
        next_streak(s, false) <= -WALL_CONFIRM_K
    }
}

impl WallStreaks {
    /// The streak of side `d` of cell `p` (0 when never read).
    pub closed spec fn streak(self, p: GridCell, d: Dir) -> int {
        if self.counts@.contains_key(side_key(p, d) as u128) {
            self.counts@[side_key(p, d) as u128] as int
        } else {
            0
        }
    }

    /// Streaks stay within `-K..=K`.
    pub closed spec fn wf(self) -> bool {
        forall|k: u128|
            #[trigger] self.counts@.contains_key(k) ==> -WALL_CONFIRM_K <= self.counts@[k]
                <= WALL_CONFIRM_K
    }

    /// No side read yet.
    pub fn new() -> (r: WallStreaks)
        ensures
            r.wf(),
            forall|p: GridCell, d: Dir| #[trigger] r.streak(p, d) == 0,
    {
        WallStreaks { counts: HashMap::new() }
    }

    /// The streak of side `dir` of `pos`.
    pub fn get(&self, pos: (i32, i32), dir: Dir) -> (r: i32)
        requires
            self.wf(),
        ensures
            r as int == self.streak(cell_of(pos), dir),
            -WALL_CONFIRM_K <= r <= WALL_CONFIRM_K,
    {
        match self.counts.get(&side_key_of(pos, dir)) {
            Some(v) => *v,
            None => 0,
        }
    }

    /// Sets the streak of side `dir` of `pos`.
    pub fn set(&mut self, pos: (i32, i32), dir: Dir, v: i32)
        requires
            old(self).wf(),
            -WALL_CONFIRM_K <= v <= WALL_CONFIRM_K,
        ensures
            final(self).wf(),
            final(self).streak(cell_of(pos), dir) == v,
            forall|p: GridCell, e: Dir|
                in_grid(p) && !(p == cell_of(pos) && e == dir) ==> #[trigger] final(self).streak(p, e)
                    == old(self).streak(p, e),
    {
        let k = side_key_of(pos, dir);
        self.counts.insert(k, v);
        proof {
            assert forall|p: GridCell, e: Dir|
                in_grid(p) && !(p == cell_of(pos) && e == dir) implies #[trigger] self.streak(p, e)
                == old(self).streak(p, e) by {
                lemma_side_key(p, e, cell_of(pos), dir);
            }
        }
    }
}

/// The three sides the robot senses: ahead, left and right of `heading`.
pub fn sensed_sides(heading: Dir) -> (r: [Dir; 3])
    ensures
        r[0] == heading,
        r[1] == heading.left_of(),
        r[2] == heading.right_of(),
{
    [heading, turn_left(heading), turn_right(heading)]
}

/// One reading of side `dir` of `pos`: updates the streak and, when the
/// streak confirms it, records the wall or the opening on the map. Returns
/// whether the map's wall on that side changed.
pub fn observe_side(
    map: &mut DynMap,
    streaks: &mut WallStreaks,
    pos: (i32, i32),
    dir: Dir,
    latched: bool,
) -> (changed: bool)
    requires
        old(map).wf(),
        old(streaks).wf(),
        confirms(old(streaks).streak(cell_of(pos), dir), latched) ==> in_grid(
            step(cell_of(pos), dir),
        ),
    ensures
        final(map).wf(),
        final(streaks).wf(),
        final(streaks).streak(cell_of(pos), dir) == next_streak(
            old(streaks).streak(cell_of(pos), dir),
            latched,
        ),
        forall|p: GridCell, e: Dir|
            in_grid(p) && !(p == cell_of(pos) && e == dir) ==> #[trigger] final(streaks).streak(p, e)
                == old(streaks).streak(p, e),
        forall|p: GridCell, e: Dir|
            in_grid(p) ==> #[trigger] final(map).wall(p, e) == side_rule(
                old(map).wall(p, e),
                cell_of(pos),
                dir,
                final(streaks).streak(cell_of(pos), dir),
                latched,
                p,
                e,
            ),
        final(map).visited_cells() == old(map).visited_cells(),
        final(map).frontier_cells() == (if !latched && final(streaks).streak(cell_of(pos), dir)
            <= -WALL_CONFIRM_K && !old(map).visited_cells().contains(step(cell_of(pos), dir)) {
            old(map).frontier_cells().insert(step(cell_of(pos), dir))
        } else {
            old(map).frontier_cells()
        }),
        changed == (final(map).wall(cell_of(pos), dir) != old(map).wall(cell_of(pos), dir)),
{
    let before = streaks.get(pos, dir);
    let was = map.has_wall(pos, dir);
    if latched {
        let v = if before + 1 < WALL_CONFIRM_K {
            before + 1
        } else {
            WALL_CONFIRM_K
        };
        streaks.set(pos, dir, v);
        if v >= WALL_CONFIRM_K {
            map.record_wall(pos, dir);
            proof {
                lemma_step_back(cell_of(pos), dir);
            }
            return !was;
        }
    } else {
        let v = if before - 1 > -WALL_CONFIRM_K {
            before - 1
        } else {
            -WALL_CONFIRM_K
        };
        streaks.set(pos, dir, v);
        if v <= -WALL_CONFIRM_K {
            map.record_open(pos, dir);
            proof {
                lemma_step_back(cell_of(pos), dir);
            }
            return was;
        }
    }
    false
}

/// The effect of one sensed side on side `e` of cell `p`: nothing when the
/// reading was not fresh, else `side_rule`.
pub open spec fn gated_rule(
    old_wall: bool,
    fresh: bool,
    pos: GridCell,
    d: Dir,
    streak_after: int,
    latched: bool,
    p: GridCell,
    e: Dir,
) -> bool {
    if fresh {
        side_rule(old_wall, pos, d, streak_after, latched, p, e)
    } else {
        old_wall
    }
}

/// The frontier after one sensed side.
pub open spec fn gated_frontier(
    old_frontier: Set<GridCell>,
    visited: Set<GridCell>,
    fresh: bool,
    pos: GridCell,
    d: Dir,
    streak_after: int,
    latched: bool,
) -> Set<GridCell> {
    if fresh && !latched && streak_after <= -WALL_CONFIRM_K && !visited.contains(step(pos, d)) {
        old_frontier.insert(step(pos, d))
    } else {
        old_frontier
    }
}

/// The event, if any, reported for one sensed side.
pub open spec fn side_events(
    fresh: bool,
    side: usize,
    d: Dir,
    latched: bool,
    wall_before: bool,
    wall_after: bool,
) -> Seq<WallEvent> {
    if fresh && wall_before != wall_after {
        seq![WallEvent { side, dir: d, wall: latched }]
    } else {
        Seq::empty()
    }
}

fn sense_side(
    map: &mut DynMap,
    streaks: &mut WallStreaks,
    events: &mut Vec<WallEvent>,
    pos: (i32, i32),
    side: usize,
    dir: Dir,
    fresh: bool,
    latched: bool,
)
    requires
        old(map).wf(),
        old(streaks).wf(),
        fresh && confirms(old(streaks).streak(cell_of(pos), dir), latched) ==> in_grid(
            step(cell_of(pos), dir),
        ),
    ensures
        final(map).wf(),
        final(streaks).wf(),
        final(streaks).streak(cell_of(pos), dir) == (if fresh {
            next_streak(old(streaks).streak(cell_of(pos), dir), latched)
        } else {
            old(streaks).streak(cell_of(pos), dir)
        }),
        forall|p: GridCell, e: Dir|
            in_grid(p) && !(p == cell_of(pos) && e == dir) ==> #[trigger] final(streaks).streak(p, e)
                == old(streaks).streak(p, e),
        forall|p: GridCell, e: Dir|
            in_grid(p) ==> #[trigger] final(map).wall(p, e) == gated_rule(
                old(map).wall(p, e),
                fresh,
                cell_of(pos),
                dir,
                final(streaks).streak(cell_of(pos), dir),
                latched,
                p,
                e,
            ),
        final(map).visited_cells() == old(map).visited_cells(),
        final(map).frontier_cells() == gated_frontier(
            old(map).frontier_cells(),
            old(map).visited_cells(),
            fresh,
            cell_of(pos),
            dir,
            final(streaks).streak(cell_of(pos), dir),
            latched,
        ),
        final(events)@ == old(events)@ + side_events(
            fresh,
            side,
            dir,
            latched,
            old(map).wall(cell_of(pos), dir),
            final(map).wall(cell_of(pos), dir),
        ),
{
    if fresh {
        let changed = observe_side(map, streaks, pos, dir, latched);
        if changed {
            events.push(WallEvent { side, dir, wall: latched });
        } else {
            proof {
                assert(old(events)@ + Seq::<WallEvent>::empty() =~= old(events)@);
            }
        }
    } else {
        proof {
            assert(old(events)@ + Seq::<WallEvent>::empty() =~= old(events)@);
        }
    }
}

/// Streak-confirmed wall sensing on the three sides (ahead, left, right of
/// `heading`) of `pos`. Side `j` is read only when `fresh[j]`; `latched[j]`
/// says whether its sensor sees a wall. Each read side's streak moves one
/// step toward the reading; a streak reaching `K` records a wall, one
/// reaching `-K` records an opening (on both cells sharing the side). The
/// events list, in side order, the sides whose recorded wall changed.
pub fn sense_walls(
    map: &mut DynMap,
    streaks: &mut WallStreaks,
    pos: (i32, i32),
    heading: Dir,
    fresh: [bool; 3],
    latched: [bool; 3],
) -> (events: Vec<WallEvent>)
    requires
        old(map).wf(),
        old(streaks).wf(),
        fresh[0] && confirms(old(streaks).streak(cell_of(pos), heading), latched[0]) ==> in_grid(
            step(cell_of(pos), heading),
        ),
        fresh[1] && confirms(old(streaks).streak(cell_of(pos), heading.left_of()), latched[1])
            ==> in_grid(step(cell_of(pos), heading.left_of())),
        fresh[2] && confirms(old(streaks).streak(cell_of(pos), heading.right_of()), latched[2])
            ==> in_grid(step(cell_of(pos), heading.right_of())),
    ensures
        final(map).wf(),
        final(streaks).wf(),
        ({
            let c = cell_of(pos);
            let sides = seq![heading, heading.left_of(), heading.right_of()];
            let s0 = if fresh[0] {
                next_streak(old(streaks).streak(c, sides[0]), latched[0])
            } else {
                old(streaks).streak(c, sides[0])
            };
            let s1 = if fresh[1] {
                next_streak(old(streaks).streak(c, sides[1]), latched[1])
            } else {
                old(streaks).streak(c, sides[1])
            };
            let s2 = if fresh[2] {
                next_streak(old(streaks).streak(c, sides[2]), latched[2])
            } else {
                old(streaks).streak(c, sides[2])
            };
            &&& final(streaks).streak(c, sides[0]) == s0
            &&& final(streaks).streak(c, sides[1]) == s1
            &&& final(streaks).streak(c, sides[2]) == s2
            &&& forall|p: GridCell, e: Dir|
                in_grid(p) && !(p == c && (e == sides[0] || e == sides[1] || e == sides[2]))
                    ==> #[trigger] final(streaks).streak(p, e) == old(streaks).streak(p, e)
            &&& forall|p: GridCell, e: Dir|
                in_grid(p) ==> #[trigger] final(map).wall(p, e) == gated_rule(
                    gated_rule(
                        gated_rule(old(map).wall(p, e), fresh[0], c, sides[0], s0, latched[0], p, e),
                        fresh[1],
                        c,
                        sides[1],
                        s1,
                        latched[1],
                        p,
                        e,
                    ),
                    fresh[2],
                    c,
                    sides[2],
                    s2,
                    latched[2],
                    p,
                    e,
                )
            &&& final(map).visited_cells() == old(map).visited_cells()
            &&& final(map).frontier_cells() == gated_frontier(
                gated_frontier(
                    gated_frontier(
                        old(map).frontier_cells(),
                        old(map).visited_cells(),
                        fresh[0],
                        c,
                        sides[0],
                        s0,
                        latched[0],
                    ),
                    old(map).visited_cells(),
                    fresh[1],
                    c,
                    sides[1],
                    s1,
                    latched[1],
                ),
                old(map).visited_cells(),
                fresh[2],
                c,
                sides[2],
                s2,
                latched[2],
            )
            &&& events@ == side_events(
                fresh[0],
                0,
                sides[0],
                latched[0],
                old(map).wall(c, sides[0]),
                final(map).wall(c, sides[0]),
            ) + side_events(
                fresh[1],
                1,
                sides[1],
                latched[1],
                old(map).wall(c, sides[1]),
                final(map).wall(c, sides[1]),
            ) + side_events(
                fresh[2],
                2,
                sides[2],
                latched[2],
                old(map).wall(c, sides[2]),
                final(map).wall(c, sides[2]),
            )
        }),
{
    let sides = sensed_sides(heading);
    let mut events: Vec<WallEvent> = Vec::new();
    let ghost c = cell_of(pos);
    let ghost m0 = *map;
    sense_side(map, streaks, &mut events, pos, 0, sides[0], fresh[0], latched[0]);
    let ghost m1 = *map;
    sense_side(map, streaks, &mut events, pos, 1, sides[1], fresh[1], latched[1]);
    let ghost m2 = *map;
    sense_side(map, streaks, &mut events, pos, 2, sides[2], fresh[2], latched[2]);
    proof {
        crate::dir::lemma_step_back(c, sides[0]);
        crate::dir::lemma_step_back(c, sides[1]);
        crate::dir::lemma_step_back(c, sides[2]);
        assert(m1.wall(c, sides[0]) == map.wall(c, sides[0]));
        assert(m2.wall(c, sides[1]) == map.wall(c, sides[1]));
        assert(m0.wall(c, sides[1]) == m1.wall(c, sides[1]));
        assert(m0.wall(c, sides[2]) == m2.wall(c, sides[2]));
        assert(Seq::<WallEvent>::empty() + side_events(
            fresh[0],
            0,
            sides[0],
            latched[0],
            m0.wall(c, sides[0]),
            m1.wall(c, sides[0]),
        ) =~= side_events(
            fresh[0],
            0,
            sides[0],
            latched[0],
            m0.wall(c, sides[0]),
            m1.wall(c, sides[0]),
        ));
    }
    events
}

/// A collision while driving from `pos` toward `heading` counts as a wall
/// reading on that side; the wall is recorded once confirmed, or at once
/// while returning to the start. Returns whether it was recorded.
pub fn note_collision(
    map: &mut DynMap,
    streaks: &mut WallStreaks,
    pos: (i32, i32),
    heading: Dir,
    returning: bool,
) -> (recorded: bool)
    requires
        old(map).wf(),
        old(streaks).wf(),
        next_streak(old(streaks).streak(cell_of(pos), heading), true) >= WALL_CONFIRM_K || returning
            ==> in_grid(step(cell_of(pos), heading)),
    ensures
        final(map).wf(),
        final(streaks).wf(),
        final(streaks).streak(cell_of(pos), heading) == next_streak(
            old(streaks).streak(cell_of(pos), heading),
            true,
        ),
        forall|p: GridCell, e: Dir|
            in_grid(p) && !(p == cell_of(pos) && e == heading) ==> #[trigger] final(streaks).streak(
                p,
                e,
            ) == old(streaks).streak(p, e),
        recorded == (final(streaks).streak(cell_of(pos), heading) >= WALL_CONFIRM_K || returning),
        forall|p: GridCell, e: Dir|
            in_grid(p) ==> #[trigger] final(map).wall(p, e) == (old(map).wall(p, e) || (recorded
                && touches(cell_of(pos), heading, p, e))),
        final(map).visited_cells() == old(map).visited_cells(),
        final(map).frontier_cells() == old(map).frontier_cells(),
{
    let before = streaks.get(pos, heading);
    let v = if before + 1 < WALL_CONFIRM_K {
        before + 1
    } else {
        WALL_CONFIRM_K
    };
    streaks.set(pos, heading, v);
    if v >= WALL_CONFIRM_K || returning {
        map.record_wall(pos, heading);
        true
    } else {
        false
    }
}

/// Bookkeeping on arriving at `new_pos` after a drive from `old_pos` in
/// direction `dir`: the side crossed is open on both cells (streaks at `-K`,
/// opening recorded on the map) and `new_pos` is visited.
pub fn record_arrival(
    map: &mut DynMap,
    streaks: &mut WallStreaks,
    old_pos: (i32, i32),
    new_pos: (i32, i32),
    dir: Dir,
)
    requires
        old(map).wf(),
        old(streaks).wf(),
        in_grid(step(cell_of(old_pos), dir)),
    ensures
        final(map).wf(),
        final(streaks).wf(),
        final(streaks).streak(cell_of(old_pos), dir) == -WALL_CONFIRM_K,
        final(streaks).streak(cell_of(new_pos), dir.reverse()) == -WALL_CONFIRM_K,
        forall|p: GridCell, e: Dir|
            in_grid(p) && !(p == cell_of(old_pos) && e == dir) && !(p == cell_of(new_pos) && e
                == dir.reverse()) ==> #[trigger] final(streaks).streak(p, e) == old(streaks).streak(
                p,
                e,
            ),
        forall|p: GridCell, e: Dir|
            in_grid(p) ==> #[trigger] final(map).wall(p, e) == (old(map).wall(p, e) && !touches(
                cell_of(old_pos),
                dir,
                p,
                e,
            )),
        final(map).visited_cells() == old(map).visited_cells().insert(cell_of(new_pos)),
        final(map).frontier_cells() == (if old(map).visited_cells().contains(
            step(cell_of(old_pos), dir),
        ) {
            old(map).frontier_cells()
        } else {
            old(map).frontier_cells().insert(step(cell_of(old_pos), dir))
        }).remove(cell_of(new_pos)),
{
    streaks.set(old_pos, dir, -WALL_CONFIRM_K);
    map.record_open(old_pos, dir);
    streaks.set(new_pos, dir.opposite(), -WALL_CONFIRM_K);
    map.mark_visited(new_pos);
}


/// One reading moves a streak one step toward the reading, within -2..=2: a
/// wall reading raises it by one up to 2, an open reading lowers it by one
/// down to -2. A reading records the side exactly when its streak reaches
/// the end it moves toward; the side is then recorded from both cells that
/// share it (as a wall or as open, as read), and nothing else changes.
pub proof fn lemma_streak_reading(s: int, pos: GridCell, d: Dir, p: GridCell, e: Dir, old_wall: bool, latched: bool)
    requires
        -2 <= s <= 2,
    ensures
        next_streak(s, true) == if s + 1 < 2 { s + 1 } else { 2 },
        next_streak(s, false) == if s - 1 > -2 { s - 1 } else { -2 },
        confirms(s, true) <==> s >= 1,
        confirms(s, false) <==> s <= -1,
        touches(pos, d, pos, d),
        touches(pos, d, step(pos, d), d.reverse()),
        !(p == pos && e == d) && !(p == step(pos, d) && e == d.reverse()) ==> side_rule(
            old_wall,
            pos,
            d,
            next_streak(s, latched),
            latched,
            p,
            e,
        ) == old_wall,
        (p == pos && e == d) && confirms(s, latched) ==> side_rule(
            old_wall,
            pos,
            d,
            next_streak(s, latched),
            latched,
            p,
            e,
        ) == latched,
        !confirms(s, latched) ==> side_rule(old_wall, pos, d, next_streak(s, latched), latched, p, e)
            == old_wall,
{
}

} // verus!
