use sudoku_resolver::{GridError, SubGrid, SudokuGrid, ValueCell};

fn seed_all(grid: &mut SudokuGrid, seeds: &[(i64, usize, usize)]) {
    for &(value, i, j) in seeds {
        assert_eq!(grid.init_cell_value(value, i, j), Ok(()));
    }
}

#[test]
fn new_grid_is_empty_with_coordinates() {
    let grid = SudokuGrid::new();
    for i in 0..9 {
        for j in 0..9 {
            let cell = grid.grid[i][j];
            assert_eq!(cell, ValueCell { i: i as u8, j: j as u8, value: None, initial: false });
        }
    }
    assert!(!grid.is_complete());
}

#[test]
fn boxes_partition_the_grid() {
    let mut per_box = [0usize; 9];
    for r in 0..9u8 {
        for c in 0..9u8 {
            let rows = SudokuGrid::resolve_sub_grid(r);
            let cols = SudokuGrid::resolve_sub_grid(c);
            assert!(rows.start <= r && r <= rows.end);
            assert!(cols.start <= c && c <= cols.end);
            let b = (rows.start / 3) * 3 + cols.start / 3;
            assert!(b < 9);
            per_box[b as usize] += 1;
        }
    }
    assert_eq!(per_box, [9; 9]);
}

#[test]
fn seed_marks_cell_fixed() {
    let mut grid = SudokuGrid::new();
    assert_eq!(grid.init_cell_value(5, 2, 7), Ok(()));
    assert_eq!(grid.grid[2][7], ValueCell { i: 2, j: 7, value: Some(5), initial: true });
}

#[test]
fn seed_twice_is_already_fixed() {
    let mut grid = SudokuGrid::new();
    assert_eq!(grid.init_cell_value(5, 0, 0), Ok(()));
    assert_eq!(grid.init_cell_value(6, 0, 0), Err(GridError::AlreadyFixed));
    assert_eq!(grid.grid[0][0].value, Some(5));
}

#[test]
fn seed_out_of_range() {
    let mut grid = SudokuGrid::new();
    assert_eq!(grid.init_cell_value(0, 0, 0), Err(GridError::OutOfRange));
    assert_eq!(grid.init_cell_value(10, 0, 0), Err(GridError::OutOfRange));
    assert_eq!(grid.init_cell_value(1, 9, 0), Err(GridError::OutOfRange));
    assert_eq!(grid.init_cell_value(1, 0, 9), Err(GridError::OutOfRange));
    assert_eq!(grid.grid[0][0].value, None);
}

#[test]
fn assign_twice_is_already_filled() {
    let mut grid = SudokuGrid::new();
    assert_eq!(grid.assign(4, 4, 7), Ok(()));
    assert_eq!(grid.grid[4][4], ValueCell { i: 4, j: 4, value: Some(7), initial: false });
    assert_eq!(grid.assign(4, 4, 8), Err(GridError::AlreadyFilled));
    assert_eq!(grid.grid[4][4].value, Some(7));
}

#[test]
fn assign_on_fixed_cell_is_already_filled() {
    let mut grid = SudokuGrid::new();
    seed_all(&mut grid, &[(3, 1, 1)]);
    assert_eq!(grid.assign(1, 1, 4), Err(GridError::AlreadyFilled));
    assert_eq!(grid.grid[1][1].value, Some(3));
}

#[test]
fn assign_out_of_range() {
    let mut grid = SudokuGrid::new();
    assert_eq!(grid.assign(9, 0, 1), Err(GridError::OutOfRange));
    assert_eq!(grid.assign(0, 0, 0), Err(GridError::OutOfRange));
    assert_eq!(grid.assign(0, 0, 10), Err(GridError::OutOfRange));
}

#[test]
fn region_values_in_order() {
    let mut grid = SudokuGrid::new();
    seed_all(&mut grid, &[(5, 0, 0), (3, 0, 1), (7, 0, 4), (6, 1, 0), (9, 2, 2), (8, 4, 0)]);
    assert_eq!(SudokuGrid::get_values_of_row(grid.grid, 0), vec![5, 3, 7]);
    assert_eq!(SudokuGrid::get_values_of_col(grid.grid, 0), vec![5, 6, 8]);
    let sub = SudokuGrid::get_sub_grid_for_value_cell(grid.grid, &grid.grid[1][1]);
    assert_eq!(sub.range_i, 0..2);
    assert_eq!(sub.range_j, 0..2);
    assert_eq!(sub.data, vec![5, 3, 6, 9]);
    let other = SudokuGrid::get_sub_grid_for_value_cell(grid.grid, &grid.grid[4][7]);
    assert_eq!(other.range_i, 3..5);
    assert_eq!(other.range_j, 6..8);
    assert!(other.data.is_empty());
}

#[test]
fn missing_values_of_box() {
    let sub = SubGrid { range_i: 0..2, range_j: 3..5, data: vec![9, 2, 5] };
    assert_eq!(sub.get_missing_values(), vec![1, 3, 4, 6, 7, 8]);
    let empty = SubGrid { range_i: 0..2, range_j: 0..2, data: vec![] };
    assert_eq!(empty.get_missing_values(), vec![1, 2, 3, 4, 5, 6, 7, 8, 9]);
}

#[test]
fn snapshot_is_a_copy() {
    let mut grid = SudokuGrid::new();
    seed_all(&mut grid, &[(1, 0, 0)]);
    let before = grid.snapshot();
    assert_eq!(grid.assign(0, 1, 2), Ok(()));
    assert_eq!(before[0][1].value, None);
    assert_eq!(before[0][0].value, Some(1));
    assert_eq!(grid.snapshot()[0][1].value, Some(2));
}
