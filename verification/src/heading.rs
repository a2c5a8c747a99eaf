//! Compass headings used by the wall-following agent.
use vstd::prelude::*;

verus! {

/// One of the four compass headings.
#[derive(Clone, Copy, Debug, PartialEq, Eq, Hash, Structural)]
pub enum Heading {
    East,
    North,
    West,
    South,
}

impl Heading {
    /// A quarter turn counter-clockwise (to the robot's left).
    pub open spec fn left_spec(self) -> Heading {
        match self {
            Heading::East => Heading::North,
            Heading::North => Heading::West,
            Heading::West => Heading::South,
            Heading::South => Heading::East,
        }
    }

    /// A quarter turn counter-clockwise (to the robot's left).
    pub fn left(self) -> (r: Heading)
        ensures
            r == self.left_spec(),
    {
        match self {
            Heading::East => Heading::North,
            Heading::North => Heading::West,
            Heading::West => Heading::South,
            Heading::South => Heading::East,
        }
    }
}

/// Four left turns make a full circle; a left turn never keeps the heading,
/// and two left turns never do either.
pub proof fn lemma_left_cycle(h: Heading)
    ensures
        h.left_spec().left_spec().left_spec().left_spec() == h,
        h.left_spec() != h,
        h.left_spec().left_spec() != h,
{
}


/// Headings turn left counter-clockwise: East to North, North to West,
/// West to South, South to East.
pub proof fn lemma_left_turns()
    ensures
        Heading::East.left_spec() == Heading::North,
        Heading::North.left_spec() == Heading::West,
        Heading::West.left_spec() == Heading::South,
        Heading::South.left_spec() == Heading::East,
{
}

} // verus!
