use std::collections::VecDeque;

use maze_lib::maze::cell_edge::CellEdge;
use maze_lib::maze::coordinates::Coordinates;
use maze_lib::maze::direction::Direction;
use maze_lib::maze::Maze;
use maze_lib::maze_generator::{generate, MazeGenerator};

const DIRECTIONS: [Direction; 4] = [
    Direction::North,
    Direction::East,
    Direction::South,
    Direction::West,
];

fn count_edges(maze: &Maze, wanted: CellEdge) -> usize {
    let mut count = 0;
    for cell in maze.cells().into_iter().flatten() {
        for direction in DIRECTIONS {
            if cell.edge(&direction) == Some(wanted) {
                count += 1;
            }
        }
    }
    count
}

#[test]
fn generate_one_by_one_is_all_border() {
    let maze = generate(1, 1);
    let cell = maze.cell(&Coordinates::new(0, 0)).unwrap();
    for direction in DIRECTIONS {
        assert_eq!(cell.edge(&direction), Some(CellEdge::Border));
    }
}

#[test]
fn generate_two_by_one_has_one_passage() {
    let maze = generate(2, 1);
    let first = maze.cell(&Coordinates::new(0, 0)).unwrap();
    let second = maze.cell(&Coordinates::new(1, 0)).unwrap();
    assert_eq!(first.edge(&Direction::East), Some(CellEdge::Passage));
    assert_eq!(second.edge(&Direction::West), Some(CellEdge::Passage));
    for direction in [Direction::North, Direction::South, Direction::West] {
        assert_eq!(first.edge(&direction), Some(CellEdge::Border));
    }
    for direction in [Direction::North, Direction::East, Direction::South] {
        assert_eq!(second.edge(&direction), Some(CellEdge::Border));
    }
}

#[test]
fn generate_five_by_five_counts() {
    for _ in 0..10 {
        let maze = generate(5, 5);
        assert_eq!(count_edges(&maze, CellEdge::Passage), 48);
        assert_eq!(count_edges(&maze, CellEdge::Border), 20);
        assert_eq!(count_edges(&maze, CellEdge::Wall), 100 - 48 - 20);
    }
}

#[test]
fn generated_maze_is_complete_and_symmetric() {
    let maze = generate(7, 4);
    assert_eq!(maze.columns(), 7);
    assert_eq!(maze.rows(), 4);
    for row in 0..4 {
        for column in 0..7 {
            let here = Coordinates::new(column, row);
            let cell = maze.cell(&here).unwrap();
            assert!(cell.is_fully_assigned());
            assert_eq!(cell.coordinates(), here);
            for direction in DIRECTIONS {
                let there = here + direction.coordinates();
                let edge = cell.edge(&direction).unwrap();
                if maze.in_bounds(&there) {
                    let neighbor = maze.cell(&there).unwrap();
                    assert_ne!(edge, CellEdge::Border);
                    assert_eq!(neighbor.edge(&direction.opposite()), Some(edge));
                } else {
                    assert_eq!(edge, CellEdge::Border);
                }
            }
        }
    }
}

#[test]
fn generated_passages_form_a_spanning_tree() {
    let (columns, rows) = (9, 6);
    let maze = generate(columns, rows);
    let mut seen = vec![false; (columns * rows) as usize];
    let mut queue = VecDeque::new();
    queue.push_back(Coordinates::new(0, 0));
    seen[0] = true;
    let mut reached = 1;
    while let Some(here) = queue.pop_front() {
        let cell = maze.cell(&here).unwrap();
        for direction in DIRECTIONS {
            if cell.edge(&direction) == Some(CellEdge::Passage) {
                let there = here + direction.coordinates();
                let index = (there.row() as u32 * columns + there.column() as u32) as usize;
                if !seen[index] {
                    seen[index] = true;
                    reached += 1;
                    queue.push_back(there);
                }
            }
        }
    }
    assert_eq!(reached, columns * rows);
    assert_eq!(count_edges(&maze, CellEdge::Passage) as u32, 2 * (columns * rows - 1));
}

#[test]
fn generated_maze_reads_the_same_twice() {
    let maze = generate(6, 3);
    let first = maze.cells();
    let second = maze.cells();
    assert_eq!(first, second);
    assert_eq!(first.len(), 18);
}

#[test]
fn generate_single_row_and_single_column() {
    for (columns, rows) in [(6, 1), (1, 6)] {
        let maze = generate(columns, rows);
        assert_eq!(count_edges(&maze, CellEdge::Passage), 10);
        assert_eq!(count_edges(&maze, CellEdge::Wall), 0);
        assert_eq!(count_edges(&maze, CellEdge::Border), 14);
    }
}

#[test]
fn generator_populate_runs() {
    let mut generator = MazeGenerator::new(3, 3);
    generator.populate();
}
