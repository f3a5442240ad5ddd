use sudoku_resolver::SudokuGrid;

const SOLUTION: [[i64; 9]; 9] = [
    [5, 3, 4, 6, 7, 8, 9, 1, 2],
    [6, 7, 2, 1, 9, 5, 3, 4, 8],
    [1, 9, 8, 3, 4, 2, 5, 6, 7],
    [8, 5, 9, 7, 6, 1, 4, 2, 3],
    [4, 2, 6, 8, 5, 3, 7, 9, 1],
    [7, 1, 3, 9, 2, 4, 8, 5, 6],
    [9, 6, 1, 5, 3, 7, 2, 8, 4],
    [2, 8, 7, 4, 1, 9, 6, 3, 5],
    [3, 4, 5, 2, 8, 6, 1, 7, 9],
];

const PUZZLE: [[i64; 9]; 9] = [
    [5, 3, 0, 0, 7, 0, 0, 0, 0],
    [6, 0, 0, 1, 9, 5, 0, 0, 0],
    [0, 9, 8, 0, 0, 0, 0, 6, 0],
    [8, 0, 0, 0, 6, 0, 0, 0, 3],
    [4, 0, 0, 8, 0, 3, 0, 0, 1],
    [7, 0, 0, 0, 2, 0, 0, 0, 6],
    [0, 6, 0, 0, 0, 0, 2, 8, 0],
    [0, 0, 0, 4, 1, 9, 0, 0, 5],
    [0, 0, 0, 0, 8, 0, 0, 7, 9],
];

fn seeded(seeds: &[(i64, usize, usize)]) -> SudokuGrid {
    let mut grid = SudokuGrid::new();
    for &(value, i, j) in seeds {
        assert_eq!(grid.init_cell_value(value, i, j), Ok(()));
    }
    grid
}

fn seeded_from(rows: &[[i64; 9]; 9]) -> SudokuGrid {
    let mut grid = SudokuGrid::new();
    for i in 0..9 {
        for j in 0..9 {
            if rows[i][j] != 0 {
                assert_eq!(grid.init_cell_value(rows[i][j], i, j), Ok(()));
            }
        }
    }
    grid
}

#[test]
fn step_fills_the_single_forced_cell_only() {
    let mut grid = seeded(&[
        (5, 0, 0),
        (3, 0, 1),
        (7, 0, 2),
        (1, 3, 3),
        (2, 4, 3),
        (6, 5, 3),
        (8, 6, 3),
        (4, 1, 4),
    ]);
    assert_eq!(grid.candidates(0, 3), vec![9]);
    let before = grid.snapshot();
    assert_eq!(grid.solve(), 1);
    let after = grid.snapshot();
    assert_eq!(after[0][3].value, Some(9));
    assert!(!after[0][3].initial);
    for i in 0..9 {
        for j in 0..9 {
            if (i, j) != (0, 3) {
                assert_eq!(after[i][j], before[i][j]);
            }
        }
    }
}

#[test]
fn complete_solution_is_a_fixed_point() {
    let mut grid = seeded_from(&SOLUTION);
    assert!(grid.is_complete());
    assert_eq!(grid.solve(), 0);
    assert!(grid.is_complete());
    assert!(!grid.has_contradiction());
}

#[test]
fn empty_grid_has_nothing_forced() {
    let mut grid = SudokuGrid::new();
    assert_eq!(grid.candidates(4, 4), vec![1, 2, 3, 4, 5, 6, 7, 8, 9]);
    assert_eq!(grid.solve(), 0);
    assert!(!grid.is_complete());
    for i in 0..9 {
        for j in 0..9 {
            assert_eq!(grid.grid[i][j].value, None);
        }
    }
}

#[test]
fn two_candidates_leave_cell_unfilled() {
    let mut grid = seeded(&[(1, 0, 0), (2, 0, 1), (3, 0, 2), (4, 0, 3), (5, 0, 4), (6, 0, 5), (7, 0, 6)]);
    assert_eq!(grid.candidates(0, 7), vec![8, 9]);
    assert_eq!(grid.candidates(0, 8), vec![8, 9]);
    assert_eq!(grid.solve(), 0);
    assert_eq!(grid.grid[0][7].value, None);
    assert_eq!(grid.grid[0][8].value, None);
}

#[test]
fn one_pass_uses_deductions_made_earlier_in_it() {
    let mut grid = seeded(&[
        (1, 0, 0),
        (2, 0, 1),
        (3, 0, 2),
        (4, 0, 3),
        (5, 0, 4),
        (6, 0, 5),
        (7, 0, 6),
        (8, 3, 7),
    ]);
    assert_eq!(grid.candidates(0, 7), vec![9]);
    assert_eq!(grid.candidates(0, 8), vec![8, 9]);
    assert_eq!(grid.solve(), 2);
    assert_eq!(grid.grid[0][7].value, Some(9));
    assert_eq!(grid.grid[0][8].value, Some(8));
}

#[test]
fn one_pass_fills_every_forced_cell() {
    let mut rows = SOLUTION;
    rows[2][5] = 0;
    rows[7][1] = 0;
    let mut grid = seeded_from(&rows);
    assert!(!grid.is_complete());
    assert_eq!(grid.solve(), 2);
    assert!(grid.is_complete());
    assert_eq!(grid.grid[2][5].value, Some(2));
    assert_eq!(grid.grid[7][1].value, Some(8));
    assert!(!grid.grid[2][5].initial);
    assert!(grid.grid[0][0].initial);
}

#[test]
fn repeated_steps_are_monotonic_and_keep_fixed_cells() {
    let mut grid = seeded_from(&PUZZLE);
    let mut previous = grid.snapshot();
    let mut rounds = 0;
    loop {
        let filled = grid.solve();
        let now = grid.snapshot();
        let mut newly = 0;
        for i in 0..9 {
            for j in 0..9 {
                if let Some(v) = previous[i][j].value {
                    assert_eq!(now[i][j].value, Some(v));
                    assert_eq!(now[i][j].initial, previous[i][j].initial);
                } else if let Some(v) = now[i][j].value {
                    newly += 1;
                    assert_eq!(v, SOLUTION[i][j]);
                    assert!(!now[i][j].initial);
                }
                if PUZZLE[i][j] != 0 {
                    assert_eq!(now[i][j].value, Some(PUZZLE[i][j]));
                    assert!(now[i][j].initial);
                }
            }
        }
        assert_eq!(filled, newly);
        previous = now;
        rounds += 1;
        if filled == 0 {
            break;
        }
        assert!(rounds < 81);
    }
    assert_eq!(grid.solve(), 0);
}

#[test]
fn contradiction_is_reported() {
    let mut grid = seeded(&[
        (1, 0, 0),
        (2, 0, 1),
        (3, 0, 2),
        (4, 0, 3),
        (5, 0, 4),
        (6, 0, 5),
        (7, 0, 6),
        (8, 0, 7),
        (9, 1, 8),
    ]);
    assert!(grid.candidates(0, 8).is_empty());
    assert!(grid.has_contradiction());
    assert_eq!(grid.solve(), 0);
    assert_eq!(grid.grid[0][8].value, None);
    assert!(!SudokuGrid::new().has_contradiction());
}
