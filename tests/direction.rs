use maze_lib::maze::coordinates::Coordinates;
use maze_lib::maze::direction::Direction;

#[test]
fn opposite_of_north() {
    assert_eq!(Direction::North.opposite(), Direction::South)
}

#[test]
fn opposite_of_east() {
    assert_eq!(Direction::East.opposite(), Direction::West)
}

#[test]
fn opposite_of_south() {
    assert_eq!(Direction::South.opposite(), Direction::North)
}

#[test]
fn opposite_of_west() {
    assert_eq!(Direction::West.opposite(), Direction::East)
}

#[test]
fn opposite_twice_is_identity() {
    for direction in [Direction::North, Direction::East, Direction::South, Direction::West] {
        assert_eq!(direction.opposite().opposite(), direction);
    }
}

#[test]
fn direction_offsets() {
    assert_eq!(Direction::North.coordinates(), Coordinates::new(0, 1));
    assert_eq!(Direction::East.coordinates(), Coordinates::new(1, 0));
    assert_eq!(Direction::South.coordinates(), Coordinates::new(0, -1));
    assert_eq!(Direction::West.coordinates(), Coordinates::new(-1, 0));
}
