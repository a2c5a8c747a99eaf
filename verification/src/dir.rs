//! Cardinal directions on the maze grid and the cell arithmetic built on them.
//!
//! Cells are `(row, col)` pairs. Moving North adds one to the row, East adds
//! one to the column. A cell only has a neighbour in a direction when that
//! neighbour's coordinates still fit in an `i32`.
use vstd::prelude::*;

verus! {

/// One of the four grid directions. Its index (North 0, East 1, South 2,
/// West 3) is the bit it occupies in a cell's wall mask.
#[derive(Clone, Copy, Debug, PartialEq, Eq, Hash, Structural)]
pub enum Dir {
    North,
    East,
    South,
    West,
}

/// A grid cell in mathematical coordinates `(row, col)`.
pub type GridCell = (int, int);

/// The mathematical cell that a machine cell denotes.
pub open spec fn cell_of(p: (i32, i32)) -> GridCell {
    (p.0 as int, p.1 as int)
}

/// Whether both coordinates of a cell fit in an `i32`.
pub open spec fn in_grid(p: GridCell) -> bool {
    i32::MIN <= p.0 <= i32::MAX && i32::MIN <= p.1 <= i32::MAX
}

impl Dir {
    /// The index of the direction: North 0, East 1, South 2, West 3.
    pub open spec fn idx(self) -> int {
        match self {
            Dir::North => 0,
            Dir::East => 1,
            Dir::South => 2,
            Dir::West => 3,
        }
    }

    /// Change of column when stepping in this direction.
    pub open spec fn dc(self) -> int {
        match self {
            Dir::East => 1,
            Dir::West => -1,
            _ => 0,
        }
    }

    /// Change of row when stepping in this direction.
    pub open spec fn dr(self) -> int {
        match self {
            Dir::North => 1,
            Dir::South => -1,
            _ => 0,
        }
    }

    /// The direction with a given index; every index above 2 is West.
    pub open spec fn of_index(i: int) -> Dir {
        if i == 0 {
            Dir::North
        } else if i == 1 {
            Dir::East
        } else if i == 2 {
            Dir::South
        } else {
            Dir::West
        }
    }

    /// The reverse direction.
    pub open spec fn reverse(self) -> Dir {
        match self {
            Dir::North => Dir::South,
            Dir::East => Dir::West,
            Dir::South => Dir::North,
            Dir::West => Dir::East,
        }
    }

    /// A quarter turn counter-clockwise.
    pub open spec fn left_of(self) -> Dir {
        match self {
            Dir::North => Dir::West,
            Dir::West => Dir::South,
            Dir::South => Dir::East,
            Dir::East => Dir::North,
        }
    }

    /// A quarter turn clockwise.
    pub open spec fn right_of(self) -> Dir {
        match self {
            Dir::North => Dir::East,
            Dir::East => Dir::South,
            Dir::South => Dir::West,
            Dir::West => Dir::North,
        }
    }

    /// The index of this direction (its wall bit).
    pub fn index(self) -> (r: u8)
        ensures
            r as int == self.idx(),
            r < 4,
    {
        match self {
            Dir::North => 0,
            Dir::East => 1,
            Dir::South => 2,
            Dir::West => 3,
        }
    }

    /// The step taken in this direction as `(column change, row change)`.
    pub fn delta(self) -> (r: (i32, i32))
        ensures
            r.0 as int == self.dc(),
            r.1 as int == self.dr(),
    {
        match self {
            Dir::North => (0, 1),
            Dir::East => (1, 0),
            Dir::South => (0, -1),
            Dir::West => (-1, 0),
        }
    }

    /// The reverse direction.
    pub fn opposite(self) -> (r: Dir)
        ensures
            r == self.reverse(),
    {
        match self {
            Dir::North => Dir::South,
            Dir::East => Dir::West,
            Dir::South => Dir::North,
            Dir::West => Dir::East,
        }
    }

    /// The direction with index `i`: 0 North, 1 East, 2 South, anything else West.
    pub fn from_index(i: usize) -> (r: Dir)
        ensures
            r == Dir::of_index(i as int),
    {
        match i {
            0 => Dir::North,
            1 => Dir::East,
            2 => Dir::South,
            _ => Dir::West,
        }
    }
}

/// The cell one step from `p` in direction `d`.
pub open spec fn step(p: GridCell, d: Dir) -> GridCell {
    (p.0 + d.dr(), p.1 + d.dc())
}

/// The neighbour of `pos` in direction `dir`.
pub fn neighbor(pos: (i32, i32), dir: Dir) -> (r: (i32, i32))
    requires
        in_grid(step(cell_of(pos), dir)),
    ensures
        cell_of(r) == step(cell_of(pos), dir),
{
    let (dc, dr) = dir.delta();
    (pos.0 + dr, pos.1 + dc)
}

/// Whether `pos` has a neighbour in direction `dir` inside the `i32` grid.
pub fn has_neighbor(pos: (i32, i32), dir: Dir) -> (r: bool)
    ensures
        r == in_grid(step(cell_of(pos), dir)),
{
    match dir {
        Dir::North => pos.0 < i32::MAX,
        Dir::South => pos.0 > i32::MIN,
        Dir::East => pos.1 < i32::MAX,
        Dir::West => pos.1 > i32::MIN,
    }
}

/// A quarter turn counter-clockwise.
pub fn turn_left(d: Dir) -> (r: Dir)
    ensures
        r == d.left_of(),
{
    match d {
        Dir::North => Dir::West,
        Dir::West => Dir::South,
        Dir::South => Dir::East,
        Dir::East => Dir::North,
    }
}

/// A quarter turn clockwise.
pub fn turn_right(d: Dir) -> (r: Dir)
    ensures
        r == d.right_of(),
{
    match d {
        Dir::North => Dir::East,
        Dir::East => Dir::South,
        Dir::South => Dir::West,
        Dir::West => Dir::North,
    }
}

/// Reversing a direction twice gives it back, and a reversed direction
/// differs from the direction it reverses.
pub proof fn lemma_opposite_involution(d: Dir)
    ensures
        d.reverse().reverse() == d,
        d.reverse() != d,
{
}

/// A left turn undoes a right turn and the other way round; four left turns
/// make a full circle; two left turns reverse the direction.
pub proof fn lemma_turns(d: Dir)
    ensures
        d.right_of().left_of() == d,
        d.left_of().right_of() == d,
        d.left_of().left_of().left_of().left_of() == d,
        d.left_of().left_of() == d.reverse(),
        d.right_of().right_of() == d.reverse(),
{
}

/// Every direction is the direction of its own index, and the index is in 0..4.
pub proof fn lemma_index_roundtrip(d: Dir)
    ensures
        Dir::of_index(d.idx()) == d,
        0 <= d.idx() < 4,
{
}

/// Distinct indices in 0..4 name distinct directions.
pub proof fn lemma_index_injective(i: int, j: int)
    requires
        0 <= i < 4,
        0 <= j < 4,
        i != j,
    ensures
        Dir::of_index(i) != Dir::of_index(j),
{
}

/// Stepping one way and then back returns to the starting cell, and a step
/// always lands on a different cell.
pub proof fn lemma_step_back(p: GridCell, d: Dir)
    ensures
        step(step(p, d), d.reverse()) == p,
        step(p, d) != p,
        d.reverse().dc() == -d.dc(),
        d.reverse().dr() == -d.dr(),
{
}


/// The grid's compass: a step North raises the row by one and a step South
/// lowers it; a step East raises the column by one and a step West lowers
/// it. Directions are numbered clockwise from North (0) to West (3); a right
/// turn moves one place clockwise, a left turn one place counter-clockwise,
/// and reversing two places.
pub proof fn lemma_compass_rose(p: GridCell, d: Dir)
    ensures
        step(p, Dir::North) == (p.0 + 1, p.1),
        step(p, Dir::South) == (p.0 - 1, p.1),
        step(p, Dir::East) == (p.0, p.1 + 1),
        step(p, Dir::West) == (p.0, p.1 - 1),
        Dir::North.idx() == 0 && Dir::East.idx() == 1 && Dir::South.idx() == 2 && Dir::West.idx()
            == 3,
        d.right_of().idx() == (d.idx() + 1) % 4,
        d.left_of().idx() == (d.idx() + 3) % 4,
        d.reverse().idx() == (d.idx() + 2) % 4,
        Dir::of_index(d.idx()) == d,
{
}

} // verus!
