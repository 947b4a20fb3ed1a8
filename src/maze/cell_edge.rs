use vstd::prelude::*;

verus! {

/// The state of one boundary of a cell.
#[derive(Debug, Copy, Clone, PartialEq, Eq, Structural)]
pub enum CellEdge {
    /// The edge is an exterior wall at the border of the maze.
    Border,
    /// The edge is an interior wall between two cells of the maze.
    Wall,
    /// The edge is a passage to the neighbouring cell.
    Passage,
}

} // verus!
