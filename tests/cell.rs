use maze_lib::maze::cell::Cell;
use maze_lib::maze::cell_edge::CellEdge;
use maze_lib::maze::coordinates::Coordinates;
use maze_lib::maze::direction::Direction;

#[test]
fn cell_unassigned_directions_none_assigned() {
    let cell = Cell::new(Coordinates::new(0, 0));
    assert_eq!(
        cell.unassigned_directions(),
        vec![
            Direction::North,
            Direction::East,
            Direction::South,
            Direction::West,
        ]
    )
}

#[test]
fn cell_unassigned_directions_one_assigned() {
    let mut cell = Cell::new(Coordinates::new(0, 0));
    cell.set_edge(&Direction::East, Some(CellEdge::Border));
    cell.set_edge(&Direction::North, None);
    assert_eq!(
        cell.unassigned_directions(),
        vec![Direction::North, Direction::South, Direction::West]
    )
}

#[test]
fn cell_unassigned_directions_two_assigned() {
    let mut cell = Cell::new(Coordinates::new(0, 0));
    cell.set_edge(&Direction::North, Some(CellEdge::Border));
    cell.set_edge(&Direction::West, Some(CellEdge::Passage));
    assert_eq!(
        cell.unassigned_directions(),
        vec![Direction::East, Direction::South]
    )
}

#[test]
fn cell_unassigned_directions_three_assigned() {
    let mut cell = Cell::new(Coordinates::new(0, 0));
    cell.set_edge(&Direction::North, Some(CellEdge::Border));
    cell.set_edge(&Direction::South, Some(CellEdge::Wall));
    cell.set_edge(&Direction::West, Some(CellEdge::Passage));
    assert_eq!(cell.unassigned_directions(), vec![Direction::East])
}

#[test]
fn cell_unassigned_directions_all_assigned() {
    let mut cell = Cell::new(Coordinates::new(0, 0));
    cell.set_edge(&Direction::North, Some(CellEdge::Border));
    cell.set_edge(&Direction::East, Some(CellEdge::Wall));
    cell.set_edge(&Direction::South, Some(CellEdge::Passage));
    cell.set_edge(&Direction::West, Some(CellEdge::Passage));
    assert_eq!(cell.unassigned_directions(), vec![])
}

#[test]
fn cell_is_fully_assigned_directions_none_assigned() {
    let cell = Cell::new(Coordinates::new(0, 0));
    assert!(!cell.is_fully_assigned())
}

#[test]
fn cell_is_fully_assigned_directions_one_assigned() {
    let mut cell = Cell::new(Coordinates::new(0, 0));
    cell.set_edge(&Direction::North, Some(CellEdge::Border));
    assert!(!cell.is_fully_assigned())
}

#[test]
fn cell_is_fully_assigned_directions_two_assigned() {
    let mut cell = Cell::new(Coordinates::new(0, 0));
    cell.set_edge(&Direction::East, Some(CellEdge::Border));
    cell.set_edge(&Direction::West, Some(CellEdge::Passage));
    assert!(!cell.is_fully_assigned())
}

#[test]
fn cell_is_fully_assigned_directions_three_assigned() {
    let mut cell = Cell::new(Coordinates::new(0, 0));
    cell.set_edge(&Direction::East, Some(CellEdge::Border));
    cell.set_edge(&Direction::South, Some(CellEdge::Wall));
    cell.set_edge(&Direction::West, Some(CellEdge::Passage));
    assert!(!cell.is_fully_assigned())
}

#[test]
fn cell_is_fully_assigned_directions_all_assigned() {
    let mut cell = Cell::new(Coordinates::new(0, 0));
    cell.set_edge(&Direction::North, Some(CellEdge::Border));
    cell.set_edge(&Direction::East, Some(CellEdge::Wall));
    cell.set_edge(&Direction::South, Some(CellEdge::Passage));
    cell.set_edge(&Direction::West, Some(CellEdge::Passage));
    assert!(cell.is_fully_assigned())
}

#[test]
fn cell_get_and_set_north() {
    let mut cell = Cell::new(Coordinates::new(0, 0));
    let edge = Some(CellEdge::Passage);
    let direction = Direction::North;
    cell.set_edge(&direction, edge);
    assert_eq!(cell.edge(&direction), edge);
}

#[test]
fn cell_get_and_set_east() {
    let mut cell = Cell::new(Coordinates::new(0, 0));
    let edge = Some(CellEdge::Passage);
    let direction = Direction::East;
    cell.set_edge(&direction, edge);
    assert_eq!(cell.edge(&direction), edge);
}

#[test]
fn cell_get_and_set_south() {
    let mut cell = Cell::new(Coordinates::new(0, 0));
    let edge = Some(CellEdge::Passage);
    let direction = Direction::South;
    cell.set_edge(&direction, edge);
    assert_eq!(cell.edge(&direction), edge);
}

#[test]
fn cell_get_and_set_west() {
    let mut cell = Cell::new(Coordinates::new(0, 0));
    let edge = Some(CellEdge::Passage);
    let direction = Direction::West;
    cell.set_edge(&direction, edge);
    assert_eq!(cell.edge(&direction), edge);
}

#[test]
fn cell_keeps_its_coordinates() {
    let mut cell = Cell::new(Coordinates::new(3, 7));
    cell.set_edge(&Direction::South, Some(CellEdge::Wall));
    assert_eq!(cell.coordinates(), Coordinates::new(3, 7));
}

#[test]
fn cell_set_edge_leaves_other_edges() {
    let mut cell = Cell::new(Coordinates::new(0, 0));
    cell.set_edge(&Direction::South, Some(CellEdge::Wall));
    assert_eq!(cell.edge(&Direction::North), None);
    assert_eq!(cell.edge(&Direction::East), None);
    assert_eq!(cell.edge(&Direction::South), Some(CellEdge::Wall));
    assert_eq!(cell.edge(&Direction::West), None);
}

#[test]
fn cell_unassigned_direction_by_index() {
    let mut cell = Cell::new(Coordinates::new(0, 0));
    cell.set_edge(&Direction::East, Some(CellEdge::Border));
    assert_eq!(cell.unassigned_direction(0), Direction::North);
    assert_eq!(cell.unassigned_direction(1), Direction::South);
    assert_eq!(cell.unassigned_direction(2), Direction::West);
}

#[test]
fn cell_random_unassigned_direction_with_one_left() {
    let mut cell = Cell::new(Coordinates::new(0, 0));
    cell.set_edge(&Direction::North, Some(CellEdge::Border));
    cell.set_edge(&Direction::East, Some(CellEdge::Wall));
    cell.set_edge(&Direction::West, Some(CellEdge::Passage));
    for _ in 0..20 {
        assert_eq!(cell.random_unassigned_direction(), Direction::South);
    }
}

#[test]
fn cell_random_unassigned_direction_is_unassigned() {
    let mut cell = Cell::new(Coordinates::new(0, 0));
    cell.set_edge(&Direction::North, Some(CellEdge::Border));
    cell.set_edge(&Direction::South, Some(CellEdge::Wall));
    for _ in 0..50 {
        let direction = cell.random_unassigned_direction();
        assert!(direction == Direction::East || direction == Direction::West);
        assert_eq!(cell.edge(&direction), None);
    }
}
