//! Grid cells of the wall-following agent and the count of its visits to each.
//!
//! The agent's pose estimate decides which cell it stands in; this module
//! keeps the discrete record: how often each cell was entered.
use vstd::prelude::*;
use std::collections::HashMap;
use crate::dir::in_grid;
use crate::heading::Heading;
use crate::map::{key_of, cell_key, lemma_cell_key, lemma_cell_key_injective, cells_of_keys, lemma_cells_of_keys};

verus! {

broadcast use vstd::std_specs::hash::group_hash_axioms;

/// A cell: `x` grows to the East, `y` to the North.
#[derive(Clone, Copy, Debug, PartialEq, Eq, Hash, Structural)]
pub struct Cell {
    pub x: i32,
    pub y: i32,
}

impl Cell {
    /// The cell `(x, y)`.
    pub fn new(x: i32, y: i32) -> (c: Cell)
        ensures
            c.x == x,
            c.y == y,
    {
        Cell { x, y }
    }

    /// The cell as a pair of mathematical integers.
    pub open spec fn at(self) -> (int, int) {
        (self.x as int, self.y as int)
    }
}

/// The cell one step from `c` toward heading `h`.
pub open spec fn cell_toward(c: (int, int), h: Heading) -> (int, int) {
    match h {
        Heading::East => (c.0 + 1, c.1),
        Heading::North => (c.0, c.1 + 1),
        Heading::West => (c.0 - 1, c.1),
        Heading::South => (c.0, c.1 - 1),
    }
}

/// The neighbour of `current` toward `heading`.
pub fn neighbor_cell(current: Cell, heading: Heading) -> (r: Cell)
    requires
        in_grid(cell_toward(current.at(), heading)),
    ensures
        r.at() == cell_toward(current.at(), heading),
{
    match heading {
        Heading::East => Cell::new(current.x + 1, current.y),
        Heading::North => Cell::new(current.x, current.y + 1),
        Heading::West => Cell::new(current.x - 1, current.y),
        Heading::South => Cell::new(current.x, current.y - 1),
    }
}

/// How often each cell was entered, and the cell entered last.
pub struct VisitLog {
    last_cell: Cell,
    visit_counts: HashMap<u64, u32>,
}

impl VisitLog {
    /// The number of times cell `c` was entered.
    pub closed spec fn count(self, c: (int, int)) -> nat {
        if in_grid(c) && self.visit_counts@.contains_key(cell_key(c) as u64) {
            self.visit_counts@[cell_key(c) as u64] as nat
        } else {
            0
        }
    }

    /// The cells entered at least once.
    pub closed spec fn entered(self) -> Set<(int, int)> {
        cells_of_keys(self.visit_counts@.dom())
    }

    /// The cell entered last.
    pub closed spec fn last(self) -> Cell {
        self.last_cell
    }

    /// The log's invariant: every logged cell was entered at least once.
    pub closed spec fn wf(self) -> bool {
        &&& forall|c: (int, int)| #[trigger] self.entered().contains(c) ==> self.count(c) >= 1
        &&& forall|c: (int, int)| self.count(c) >= 1 ==> #[trigger] self.entered().contains(c)
        &&& self.visit_counts@.dom().finite()
    }

    /// A log in which only the start cell `(0, 0)` was entered, once.
    pub fn new() -> (r: VisitLog)
        ensures
            r.wf(),
            r.last() == (Cell { x: 0, y: 0 }),
            r.count((0, 0)) == 1,
            forall|c: (int, int)| c != (0int, 0int) ==> r.count(c) == 0,
            r.entered() == set![(0int, 0int)],
    {
        let start = Cell::new(0, 0);
        let mut visit_counts: HashMap<u64, u32> = HashMap::new();
        let k = key_of((0, 0));
        visit_counts.insert(k, 1);
        let r = VisitLog { last_cell: start, visit_counts };
        proof {
            lemma_cell_key((0, 0));
            assert forall|c: (int, int)| c != (0int, 0int) implies r.count(c) == 0 by {
                if in_grid(c) {
                    lemma_cell_key(c);
                    if cell_key(c) == cell_key((0, 0)) {
                        lemma_cell_key_injective(c, (0, 0));
                    }
                }
            }
            assert(r.entered() =~= set![(0int, 0int)]) by {
                assert forall|c: (int, int)| r.entered().contains(c) <==> c == (0int, 0int) by {
                    if in_grid(c) {
                        lemma_cell_key(c);
                        if cell_key(c) == cell_key((0, 0)) {
                            lemma_cell_key_injective(c, (0, 0));
                        }
                    }
                }
            }
        }
        r
    }

    /// Records that the robot now stands in `current`: when it differs from
    /// the last cell, its count grows by one and it becomes the last cell.
    pub fn note_cell(&mut self, current: Cell)
        requires
            old(self).wf(),
            old(self).count(current.at()) < u32::MAX,
        ensures
            final(self).wf(),
            final(self).last() == current,
            current == old(self).last() ==> forall|c: (int, int)| #[trigger] final(self).count(c)
                == old(self).count(c),
            current == old(self).last() ==> final(self).entered() == old(self).entered(),
            current != old(self).last() ==> final(self).count(current.at()) == old(self).count(
                current.at(),
            ) + 1,
            current != old(self).last() ==> forall|c: (int, int)|
                c != current.at() ==> #[trigger] final(self).count(c) == old(self).count(c),
            current != old(self).last() ==> final(self).entered() == old(self).entered().insert(
                current.at(),
            ),
    {
        if !(current.x == self.last_cell.x && current.y == self.last_cell.y) {
            let k = key_of((current.x, current.y));
            let n: u32 = match self.visit_counts.get(&k) {
                Some(v) => *v,
                None => 0,
            };
            proof {
                lemma_cell_key(current.at());
            }
            self.visit_counts.insert(k, n + 1);
            self.last_cell = current;
            proof {
                assert forall|c: (int, int)| c != current.at() implies #[trigger] self.count(c)
                    == old(self).count(c) by {
                    if in_grid(c) {
                        lemma_cell_key(c);
                        if cell_key(c) == cell_key(current.at()) {
                            lemma_cell_key_injective(c, current.at());
                        }
                    }
                }
                assert forall|c: (int, int)| #[trigger]
                    self.entered().contains(c) <==> old(self).entered().insert(current.at()).contains(c) by {
                    if in_grid(c) {
                        lemma_cell_key(c);
                        if cell_key(c) == cell_key(current.at()) {
                            lemma_cell_key_injective(c, current.at());
                        }
                    }
                }
                assert(self.entered() =~= old(self).entered().insert(current.at()));
            }
        } else {
            self.last_cell = current;
        }
    }

    /// The number of times `cell` was entered.
    pub fn visit_count(&self, cell: Cell) -> (r: u32)
        ensures
            r as nat == self.count(cell.at()),
    {
        proof {
            lemma_cell_key(cell.at());
        }
        match self.visit_counts.get(&key_of((cell.x, cell.y))) {
            Some(v) => *v,
            None => 0,
        }
    }

    /// Whether, standing in `current` facing `heading`, the cell to the left
    /// was entered fewer times than the cell ahead.
    pub fn should_prefer_left(&self, current: Cell, heading: Heading) -> (r: bool)
        requires
            in_grid(cell_toward(current.at(), heading)),
            in_grid(cell_toward(current.at(), heading.left_spec())),
        ensures
            r == (self.count(cell_toward(current.at(), heading.left_spec())) < self.count(
                cell_toward(current.at(), heading),
            )),
    {
        let forward_visits = self.visit_count(neighbor_cell(current, heading));
        let left_visits = self.visit_count(neighbor_cell(current, heading.left()));
        left_visits < forward_visits
    }

    /// The number of distinct cells entered.
    pub fn visited_cells(&self) -> (r: usize)
        requires
            self.wf(),
        ensures
            r == self.entered().len(),
    {
        proof {
            lemma_cells_of_keys(self.visit_counts@.dom());
        }
        self.visit_counts.len()
    }
}


/// A step East raises `x` by one and West lowers it; North raises `y` by
/// one and South lowers it; a step never stays in place.
pub proof fn lemma_cell_steps(c: (int, int), h: Heading)
    ensures
        cell_toward(c, Heading::East) == (c.0 + 1, c.1),
        cell_toward(c, Heading::West) == (c.0 - 1, c.1),
        cell_toward(c, Heading::North) == (c.0, c.1 + 1),
        cell_toward(c, Heading::South) == (c.0, c.1 - 1),
        cell_toward(c, h) != c,
{
}

} // verus!
