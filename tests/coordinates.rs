use maze_lib::maze::coordinates::Coordinates;
use maze_lib::maze::direction::Direction;

#[test]
fn coordinates_adding_up_moves_up() {
    let before = Coordinates::new(2, 2);
    let after = before + Coordinates::up();
    let expected = Coordinates::new(2, 3);
    assert_eq!(after, expected)
}

#[test]
fn coordinates_adding_right_moves_right() {
    let before = Coordinates::new(2, 2);
    let after = before + Coordinates::right();
    let expected = Coordinates::new(3, 2);
    assert_eq!(after, expected)
}

#[test]
fn coordinates_adding_down_moves_down() {
    let before = Coordinates::new(2, 2);
    let after = before + Coordinates::down();
    let expected = Coordinates::new(2, 1);
    assert_eq!(after, expected)
}

#[test]
fn coordinates_adding_left_moves_left() {
    let before = Coordinates::new(2, 2);
    let after = before + Coordinates::left();
    let expected = Coordinates::new(1, 2);
    assert_eq!(after, expected)
}

#[test]
fn coordinates_handles_format() {
    let coordinates = Coordinates::new(4, 2);
    assert_eq!(
        format!("{coordinates:?}"),
        "Coordinates { column: 4, row: 2 }"
    )
}

#[test]
fn coordinates_getters() {
    let coordinates = Coordinates::new(-5, 9);
    assert_eq!(coordinates.column(), -5);
    assert_eq!(coordinates.row(), 9);
}

#[test]
fn coordinates_step_and_step_back() {
    let start = Coordinates::new(4, -3);
    for direction in [Direction::North, Direction::East, Direction::South, Direction::West] {
        let there = start + direction.coordinates();
        assert_ne!(there, start);
        assert_eq!(there + direction.opposite().coordinates(), start);
    }
}
