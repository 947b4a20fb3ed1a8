use vstd::prelude::*;

use crate::maze::cell_edge::CellEdge;
use crate::maze::coordinates::Coordinates;
use crate::maze::direction::Direction;
use crate::random::random_below;

verus! {

/// A cell of a maze: its coordinates and the state of each of its four edges.
#[derive(Copy, Clone, Debug, PartialEq, Eq)]
pub struct Cell {
    coordinates: Coordinates,
    north_edge: Option<CellEdge>,
    east_edge: Option<CellEdge>,
    south_edge: Option<CellEdge>,
    west_edge: Option<CellEdge>,
}

/// The one-element sequence `[d]` when `open`, else the empty sequence.
pub open spec fn listed_if(open: bool, d: Direction) -> Seq<Direction> {
    if open {
        seq![d]
    } else {
        Seq::empty()
    }
}

impl Cell {
    /// Where the cell stands in its maze.
    pub closed spec fn location(self) -> Coordinates {
        self.coordinates
    }

    /// The state of the edge in direction `d`, or `None` while it is unassigned.
    pub closed spec fn edge_at(self, d: Direction) -> Option<CellEdge> {
        match d {
            Direction::North => self.north_edge,
            Direction::East => self.east_edge,
            Direction::South => self.south_edge,
            Direction::West => self.west_edge,
        }
    }

    /// All four edges are assigned.
    pub open spec fn fully_assigned(self) -> bool {
        &&& self.edge_at(Direction::North) is Some
        &&& self.edge_at(Direction::East) is Some
        &&& self.edge_at(Direction::South) is Some
        &&& self.edge_at(Direction::West) is Some
    }

    /// The unassigned directions, in the order North, East, South, West.
    pub open spec fn open_directions(self) -> Seq<Direction> {
        listed_if(self.edge_at(Direction::North) is None, Direction::North) + listed_if(
            self.edge_at(Direction::East) is None,
            Direction::East,
        ) + listed_if(self.edge_at(Direction::South) is None, Direction::South) + listed_if(
            self.edge_at(Direction::West) is None,
            Direction::West,
        )
    }

    /// The directions of `open_directions` are exactly the unassigned ones, and there
    /// are none only when the cell is fully assigned.
    pub proof fn lemma_open_directions(self)
        ensures
            forall|i: int|
                0 <= i < self.open_directions().len() ==> (#[trigger] self.edge_at(
                    self.open_directions()[i],
                )) is None,
            forall|d: Direction|
                (#[trigger] self.edge_at(d)) is None ==> self.open_directions().contains(d),
            self.open_directions().len() <= 4,
            self.open_directions().len() == 0 <==> self.fully_assigned(),
    {
        let n = listed_if(self.edge_at(Direction::North) is None, Direction::North);
        let e = listed_if(self.edge_at(Direction::East) is None, Direction::East);
        let s = listed_if(self.edge_at(Direction::South) is None, Direction::South);
        let w = listed_if(self.edge_at(Direction::West) is None, Direction::West);
        let all = self.open_directions();
        assert(all == n + e + s + w);
        assert forall|i: int| 0 <= i < all.len() implies (#[trigger] self.edge_at(
            all[i],
        )) is None by {
            if i < n.len() {
                assert(all[i] == n[i]);
            } else if i < n.len() + e.len() {
                assert(all[i] == e[i - n.len()]);
            } else if i < n.len() + e.len() + s.len() {
                assert(all[i] == s[i - n.len() - e.len()]);
            } else {
                assert(all[i] == w[i - n.len() - e.len() - s.len()]);
            }
        }
        assert forall|d: Direction| (#[trigger] self.edge_at(d)) is None implies all.contains(
            d,
        ) by {
            match d {
                Direction::North => {
                    assert(all[0] == d);
                },
                Direction::East => {
                    assert(all[n.len() as int] == d);
                },
                Direction::South => {
                    assert(all[(n.len() + e.len()) as int] == d);
                },
                Direction::West => {
                    assert(all[(n.len() + e.len() + s.len()) as int] == d);
                },
            }
        }
    }

    /// The number of unassigned directions, counted edge by edge.
    pub proof fn lemma_open_count(self)
        ensures
            self.open_directions().len() == (if self.edge_at(Direction::North) is None {
                1int
            } else {
                0int
            }) + (if self.edge_at(Direction::East) is None {
                1int
            } else {
                0int
            }) + (if self.edge_at(Direction::South) is None {
                1int
            } else {
                0int
            }) + (if self.edge_at(Direction::West) is None {
                1int
            } else {
                0int
            }),
    {
    }

    /// Creates a cell at the given coordinates, with all four edges unassigned.
    pub fn new(coordinates: Coordinates) -> (r: Cell)
        ensures
            r.location() == coordinates,
            forall|d: Direction| (#[trigger] r.edge_at(d)) is None,
    {
        Cell {
            coordinates,
            north_edge: None,
            east_edge: None,
            south_edge: None,
            west_edge: None,
        }
    }

    /// Returns true when all four of the cell's edges are assigned.
    pub fn is_fully_assigned(&self) -> (r: bool)
        ensures
            r == self.fully_assigned(),
            r == (self.open_directions().len() == 0),
    {
        proof {
            self.lemma_open_directions();
        }
        self.unassigned_directions().len() == 0
    }

    /// Returns the directions whose edges are unassigned, in the order North, East,
    /// South, West.
    pub fn unassigned_directions(&self) -> (r: Vec<Direction>)
        ensures
            r@ == self.open_directions(),
    {
        let mut vec: Vec<Direction> = Vec::new();
        if self.north_edge.is_none() {
            vec.push(Direction::North);
        }
        if self.east_edge.is_none() {
            vec.push(Direction::East);
        }
        if self.south_edge.is_none() {
            vec.push(Direction::South);
        }
        if self.west_edge.is_none() {
            vec.push(Direction::West);
        }
        assert(vec@ =~= self.open_directions());
        vec
    }

    /// Returns the cell's coordinates.
    pub fn coordinates(self) -> (r: Coordinates)
        ensures
            r == self.location(),
    {
        self.coordinates
    }

    /// Returns the state of the cell's edge in the given direction.
    pub fn edge(&self, direction: &Direction) -> (r: Option<CellEdge>)
        ensures
            r == self.edge_at(*direction),
    {
        match direction {
            Direction::North => self.north_edge,
            Direction::East => self.east_edge,
            Direction::South => self.south_edge,
            Direction::West => self.west_edge,
        }
    }

    /// Sets the cell's edge in the given direction to the given state.
    pub fn set_edge(&mut self, direction: &Direction, cell_edge: Option<CellEdge>)
        ensures
            final(self).location() == old(self).location(),
            final(self).edge_at(*direction) == cell_edge,
            forall|d: Direction|
                d != *direction ==> #[trigger] final(self).edge_at(d) == old(self).edge_at(d),
    {
        match direction {
            Direction::North => self.north_edge = cell_edge,
            Direction::East => self.east_edge = cell_edge,
            Direction::South => self.south_edge = cell_edge,
            Direction::West => self.west_edge = cell_edge,
        }
    }

    /// Returns the unassigned direction at `index` of `unassigned_directions`.
    pub fn unassigned_direction(&self, index: usize) -> (r: Direction)
        requires
            index < self.open_directions().len(),
        ensures
            r == self.open_directions()[index as int],
            self.edge_at(r) is None,
    {
        proof {
            self.lemma_open_directions();
        }
        let directions = self.unassigned_directions();
        directions[index]
    }

    /// Returns one of the cell's unassigned directions, picked at random.
    pub fn random_unassigned_direction(&self) -> (r: Direction)
        requires
            !self.fully_assigned(),
        ensures
            self.edge_at(r) is None,
            self.open_directions().contains(r),
    {
        proof {
            self.lemma_open_directions();
        }
        let count = self.unassigned_directions().len();
        let index = random_below(count as u32);
        self.unassigned_direction(index as usize)
    }
}

} // verus!
