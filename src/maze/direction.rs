use vstd::prelude::*;

use crate::maze::coordinates::{lemma_add_view, sum_fits, Coordinates};
use vstd::std_specs::ops::AddSpec;

verus! {

/// One of the four compass directions of a maze.
#[derive(Copy, Clone, Debug, PartialEq, Eq, Structural)]
pub enum Direction {
    North,
    East,
    South,
    West,
}

impl Direction {
    /// The direction pointing the other way.
    pub open spec fn reversed(self) -> Direction {
        match self {
            Direction::North => Direction::South,
            Direction::East => Direction::West,
            Direction::South => Direction::North,
            Direction::West => Direction::East,
        }
    }

    /// The unit step that this direction takes, as (column, row).
    pub open spec fn step(self) -> (int, int) {
        match self {
            Direction::North => (0, 1),
            Direction::East => (1, 0),
            Direction::South => (0, -1),
            Direction::West => (-1, 0),
        }
    }

    /// Returns the direction's opposite.
    pub fn opposite(&self) -> (r: Direction)
        ensures
            r == self.reversed(),
    {
        match self {
            Direction::North => Direction::South,
            Direction::East => Direction::West,
            Direction::South => Direction::North,
            Direction::West => Direction::East,
        }
    }

    /// Returns the offset that, added to coordinates, gives the coordinates one step
    /// away in this direction.
    pub fn coordinates(&self) -> (r: Coordinates)
        ensures
            r@ == self.step(),
    {
        match self {
            Direction::North => Coordinates::up(),
            Direction::East => Coordinates::right(),
            Direction::South => Coordinates::down(),
            Direction::West => Coordinates::left(),
        }
    }
}

/// Taking the opposite of a direction twice gives the direction back, and no direction
/// is its own opposite.
pub proof fn lemma_opposite_involution(d: Direction)
    ensures
        d.reversed().reversed() == d,
        d.reversed() != d,
{
}

/// Adding a direction's offset to coordinates, then the offset of the opposite
/// direction, gives the coordinates back.
pub proof fn lemma_offset_round_trip(
    c: Coordinates,
    d: Direction,
    offset: Coordinates,
    back: Coordinates,
)
    requires
        offset@ == d.step(),
        back@ == d.reversed().step(),
        sum_fits(c@, offset@),
    ensures
        sum_fits(c.add_spec(offset)@, back@),
        c.add_spec(offset).add_spec(back) == c,
{
    lemma_add_view(c, offset);
    Coordinates::lemma_view_bounds(c);
    match d {
        Direction::North => {},
        Direction::East => {},
        Direction::South => {},
        Direction::West => {},
    }
    lemma_add_view(c.add_spec(offset), back);
    Coordinates::lemma_view_injective(c.add_spec(offset).add_spec(back), c);
}

} // verus!
