//! Generation of rectangular mazes whose passages form a spanning tree over the grid.

/// The data model of a maze: coordinates, directions, cells and the grid.
pub mod maze;

mod random;

/// Generation of mazes.
pub mod maze_generator;
