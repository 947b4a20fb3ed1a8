use maze_lib::maze::cell::Cell;
use maze_lib::maze::cell_edge::CellEdge;
use maze_lib::maze::coordinates::Coordinates;
use maze_lib::maze::direction::Direction;
use maze_lib::maze::Maze;

#[test]
fn mod_columns() {
    let rows = 20;
    let columns = 10;
    let cell_grid = Maze::new(columns, rows);
    assert_eq!(columns, cell_grid.columns());
}

#[test]
fn mod_rows() {
    let rows = 20;
    let columns = 10;
    let cell_grid = Maze::new(columns, rows);
    assert_eq!(rows, cell_grid.rows());
}

#[test]
fn mod_in_bounds() {
    let rows = 20;
    let columns = 40;
    let cell_grid = Maze::new(columns, rows);
    let coordinates = Coordinates::new(columns as i32 - 2, rows as i32 - 2);
    assert!(
        cell_grid.in_bounds(&coordinates),
        "Not in bounds: {coordinates:?}"
    );
}

#[test]
fn mod_row_not_in_bounds() {
    let rows = 20;
    let columns = 20;
    let cell_grid = Maze::new(columns, rows);
    let coordinates = Coordinates::new(columns as i32, rows as i32 - 2);
    assert!(!cell_grid.in_bounds(&coordinates));
}

#[test]
fn mod_column_not_in_bounds() {
    let rows = 20;
    let columns = 40;
    let cell_grid = Maze::new(columns, rows);
    let coordinates = Coordinates::new(columns as i32, rows as i32 - 2);
    assert!(!cell_grid.in_bounds(&coordinates));
}

fn index_test_helper(cell_grid: Maze, cell: Cell) {
    if let Some(cell2) = cell_grid.cell(&cell.coordinates()) {
        assert_eq!(cell, cell2);
    } else {
        panic!("Problem getting or getting cell")
    }
}

#[test]
fn mod_index_first_row_first_column() {
    let rows = 20;
    let columns = 40;
    let mut cell_grid = Maze::new(columns, rows);
    let coordinates = Coordinates::new(0, 0);
    let cell = Cell::new(coordinates);
    cell_grid.set_cell(cell);
    index_test_helper(cell_grid, cell);
}

#[test]
fn mod_index_last_row_last_column() {
    let rows = 20;
    let columns = 40;
    let mut cell_grid = Maze::new(columns, rows);
    let coordinates = Coordinates::new((columns - 1) as i32, (rows - 1) as i32);
    let cell = Cell::new(coordinates);
    cell_grid.set_cell(cell);
    index_test_helper(cell_grid, cell);
}

#[test]
fn mod_index_middle_row_middle_column() {
    let rows = 20;
    let columns = 40;
    let row = rows / 2;
    let column = columns / 2;
    let mut cell_grid = Maze::new(columns, rows);
    let coordinates = Coordinates::new(column as i32, row as i32);
    let cell = Cell::new(coordinates);
    cell_grid.set_cell(cell);
    index_test_helper(cell_grid, cell);
}

#[test]
fn mod_set_and_get_cell() {
    let rows = 10;
    let columns = 8;
    let row = 0;
    let column = 0;
    let mut cell_grid = Maze::new(columns, rows);
    let coordinates = Coordinates::new(column, row);
    let mut expected_cell = Cell::new(Coordinates::new(column, row));
    expected_cell.set_edge(&Direction::North, Some(CellEdge::Border));
    expected_cell.set_edge(&Direction::West, Some(CellEdge::Passage));
    cell_grid.set_cell(expected_cell);
    let got_cell = cell_grid.cell(&coordinates);
    assert_eq!(Some(expected_cell), got_cell);
}

#[test]
fn new_maze_holds_no_cells() {
    let cell_grid = Maze::new(3, 2);
    let cells = cell_grid.cells();
    assert_eq!(cells.len(), 6);
    assert!(cells.iter().all(|cell| cell.is_none()));
    assert_eq!(cell_grid.cell(&Coordinates::new(2, 1)), None);
}

#[test]
fn zero_sized_maze_is_empty() {
    let cell_grid = Maze::new(0, 5);
    assert_eq!(cell_grid.cells().len(), 0);
    assert!(!cell_grid.in_bounds(&Coordinates::new(0, 0)));
}

#[test]
fn in_bounds_rejects_negative_and_too_large() {
    let cell_grid = Maze::new(4, 3);
    assert!(!cell_grid.in_bounds(&Coordinates::new(-1, 0)));
    assert!(!cell_grid.in_bounds(&Coordinates::new(0, -1)));
    assert!(!cell_grid.in_bounds(&Coordinates::new(4, 0)));
    assert!(!cell_grid.in_bounds(&Coordinates::new(0, 3)));
    assert!(!cell_grid.in_bounds(&Coordinates::new(i32::MIN, i32::MIN)));
    assert!(cell_grid.in_bounds(&Coordinates::new(0, 0)));
    assert!(cell_grid.in_bounds(&Coordinates::new(3, 2)));
}

#[test]
fn cells_are_stored_row_by_row() {
    let mut cell_grid = Maze::new(3, 2);
    let cell = Cell::new(Coordinates::new(1, 1));
    cell_grid.set_cell(cell);
    let cells = cell_grid.cells();
    assert_eq!(cells[4], Some(cell));
    assert_eq!(cells.iter().filter(|cell| cell.is_some()).count(), 1);
}

#[test]
fn set_cell_replaces_earlier_cell() {
    let mut cell_grid = Maze::new(2, 2);
    let mut cell = Cell::new(Coordinates::new(1, 0));
    cell_grid.set_cell(cell);
    cell.set_edge(&Direction::East, Some(CellEdge::Border));
    cell_grid.set_cell(cell);
    assert_eq!(cell_grid.cell(&Coordinates::new(1, 0)), Some(cell));
}
