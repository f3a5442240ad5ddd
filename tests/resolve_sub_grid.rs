use sudoku_resolver::SudokuGrid;

#[test]
fn test_resolve_sub_grid_0() {
    assert_eq!(SudokuGrid::resolve_sub_grid(0), 0..2);
}

#[test]
fn test_resolve_sub_grid_1() {
    assert_eq!(SudokuGrid::resolve_sub_grid(1), 0..2);
}

#[test]
fn test_resolve_sub_grid_2() {
    assert_eq!(SudokuGrid::resolve_sub_grid(2), 0..2);
}

#[test]
fn test_resolve_sub_grid_3() {
    assert_eq!(SudokuGrid::resolve_sub_grid(3), 3..5);
}

#[test]
fn test_resolve_sub_grid_4() {
    assert_eq!(SudokuGrid::resolve_sub_grid(4), 3..5);
}

#[test]
fn test_resolve_sub_grid_5() {
    assert_eq!(SudokuGrid::resolve_sub_grid(5), 3..5);
}

#[test]
fn test_resolve_sub_grid_6() {
    assert_eq!(SudokuGrid::resolve_sub_grid(6), 6..8);
}

#[test]
fn test_resolve_sub_grid_7() {
    assert_eq!(SudokuGrid::resolve_sub_grid(7), 6..8);
}

#[test]
fn test_resolve_sub_grid_8() {
    assert_eq!(SudokuGrid::resolve_sub_grid(8), 6..8);
}
