use vstd::prelude::*;
use crate::cell::{is_symbol, GridError, ValueCell};
use crate::region::{band, SubGrid};

verus! {

/// The grid's contents, row by row.
pub type Board = Seq<Seq<ValueCell>>;

/// The contents of a cell array, row by row.
pub open spec fn board(g: [[ValueCell; 9]; 9]) -> Board {
    Seq::new(9, |r: int| g[r]@)
}

pub open spec fn in_grid(r: int, c: int) -> bool {
    0 <= r < 9 && 0 <= c < 9
}

/// Nine rows of nine sound cells, each knowing its own coordinates.
pub open spec fn board_wf(b: Board) -> bool {
    &&& b.len() == 9
    &&& forall|r: int| 0 <= r < 9 ==> (#[trigger] b[r]).len() == 9
    &&& forall|r: int, c: int|
        in_grid(r, c) ==> {
            let x = #[trigger] b[r][c];
            &&& x.i == r
            &&& x.j == c
            &&& x.sound()
        }
}

/// `b` with the cell at `(r, c)` replaced by `x`.
pub open spec fn with_cell(b: Board, r: int, c: int, x: ValueCell) -> Board {
    b.update(r, b[r].update(c, x))
}

/// The unfilled cell at `(r, c)`.
pub open spec fn empty_cell(r: int, c: int) -> ValueCell {
    ValueCell { i: r as u8, j: c as u8, value: None, initial: false }
}

/// The values present in the first `n` cells of row `r`, in column order.
pub open spec fn row_values_upto(b: Board, r: int, n: int) -> Seq<i64>
    decreases n,
{
    if n <= 0 {
        seq![]
    } else {
        let prev = row_values_upto(b, r, n - 1);
        match b[r][n - 1].value {
            Some(v) => prev.push(v),
            None => prev,
        }
    }
}

/// The values present in row `r`, in column order.
pub open spec fn row_values(b: Board, r: int) -> Seq<i64> {
    row_values_upto(b, r, 9)
}

/// The values present in the first `n` cells of column `c`, in row order.
pub open spec fn col_values_upto(b: Board, c: int, n: int) -> Seq<i64>
    decreases n,
{
    if n <= 0 {
        seq![]
    } else {
        let prev = col_values_upto(b, c, n - 1);
        match b[n - 1][c].value {
            Some(v) => prev.push(v),
            None => prev,
        }
    }
}

/// The values present in column `c`, in row order.
pub open spec fn col_values(b: Board, c: int) -> Seq<i64> {
    col_values_upto(b, c, 9)
}

/// The values present in the first `n` cells, in row-major order, of the box
/// whose first cell is `(r0, c0)`.
pub open spec fn box_values_upto(b: Board, r0: int, c0: int, n: int) -> Seq<i64>
    decreases n,
{
    if n <= 0 {
        seq![]
    } else {
        let prev = box_values_upto(b, r0, c0, n - 1);
        match b[r0 + (n - 1) / 3][c0 + (n - 1) % 3].value {
            Some(v) => prev.push(v),
            None => prev,
        }
    }
}

/// The values present in the box that holds `(r, c)`, in row-major order.
pub open spec fn box_values(b: Board, r: int, c: int) -> Seq<i64> {
    box_values_upto(b, band(r) * 3, band(c) * 3, 9)
}

/// How many of the first `n` cells, in row-major order, hold a value.
pub open spec fn filled_upto(b: Board, n: int) -> int
    decreases n,
{
    if n <= 0 {
        0
    } else {
        filled_upto(b, n - 1) + if b[(n - 1) / 9][(n - 1) % 9].value is Some {
            1int
        } else {
            0int
        }
    }
}

/// How many cells hold a value.
pub open spec fn filled_count(b: Board) -> int {
    filled_upto(b, 81)
}

/// Every cell holds a value.
pub open spec fn board_complete(b: Board) -> bool {
    forall|r: int, c: int| in_grid(r, c) ==> (#[trigger] b[r][c]).value is Some
}

/// What seeding `value` at `(r, c)` makes of `b`, or why it is refused.
pub open spec fn seed_outcome(b: Board, value: int, r: int, c: int) -> Result<Board, GridError> {
    if !(in_grid(r, c) && is_symbol(value)) {
        Err(GridError::OutOfRange)
    } else if b[r][c].initial {
        Err(GridError::AlreadyFixed)
    } else {
        Ok(with_cell(b, r, c, b[r][c].holding(Some(value as i64), true)))
    }
}

/// What assigning a deduced `value` at `(r, c)` makes of `b`, or why it is
/// refused.
pub open spec fn assign_outcome(b: Board, r: int, c: int, value: int) -> Result<Board, GridError> {
    if !(in_grid(r, c) && is_symbol(value)) {
        Err(GridError::OutOfRange)
    } else if b[r][c].value is Some {
        Err(GridError::AlreadyFilled)
    } else {
        Ok(with_cell(b, r, c, b[r][c].holding(Some(value as i64), false)))
    }
}

/// Filling one unfilled cell adds one to the count of filled cells among the
/// first `n` that include it, and nothing to the others.
pub proof fn lemma_filled_upto_with_cell(b: Board, r: int, c: int, x: ValueCell, n: int)
    requires
        board_wf(b),
        in_grid(r, c),
        b[r][c].value is None,
        x.value is Some,
        0 <= n <= 81,
    ensures
        filled_upto(with_cell(b, r, c, x), n) == filled_upto(b, n) + if r * 9 + c < n {
            1int
        } else {
            0int
        },
    decreases n,
{
    if n > 0 {
        lemma_filled_upto_with_cell(b, r, c, x, n - 1);
        let p = n - 1;
        assert(p == (p / 9) * 9 + p % 9);
        assert(0 <= p / 9 < 9);
        if p == r * 9 + c {
            assert(p / 9 == r && p % 9 == c);
        }
    }
}

/// Assigning succeeds exactly on an unfilled cell within bounds; once it has,
/// a second assignment of a symbol to the same cell fails with
/// `AlreadyFilled` and leaves the grid alone.
pub proof fn lemma_assign_only_once(b: Board, r: int, c: int, v: int, w: int)
    requires
        board_wf(b),
    ensures
        assign_outcome(b, r, c, v) is Ok <==> in_grid(r, c) && is_symbol(v) && b[r][c].value is None,
        match assign_outcome(b, r, c, v) {
            Ok(b1) => is_symbol(w) ==> assign_outcome(b1, r, c, w) == Err::<Board, GridError>(
                GridError::AlreadyFilled,
            ),
            Err(_) => true,
        },
{
}

/// A row or a column holds at most as many values as it has cells.
pub proof fn lemma_region_values_len(b: Board, r: int, c: int, n: int)
    requires
        0 <= n,
    ensures
        row_values_upto(b, r, n).len() <= n,
        col_values_upto(b, c, n).len() <= n,
    decreases n,
{
    if n > 0 {
        lemma_region_values_len(b, r, c, n - 1);
    }
}

/// The 9x9 grid of cells.
pub struct SudokuGrid {
    pub grid: [[ValueCell; 9]; 9],
}

impl View for SudokuGrid {
    type V = Board;

    open spec fn view(&self) -> Board {
        board(self.grid)
    }
}

fn init_grid() -> (g: [[ValueCell; 9]; 9])
    ensures
        forall|r: int, c: int| in_grid(r, c) ==> (#[trigger] board(g)[r][c]) == empty_cell(r, c),
{
    let blank = ValueCell { i: 0, j: 0, value: None, initial: false };
    let mut grid: [[ValueCell; 9]; 9] = [[blank; 9]; 9];
    let mut i: u8 = 0;
    while i < 9
        invariant
            0 <= i <= 9,
            forall|r: int, c: int|
                0 <= r < i && 0 <= c < 9 ==> (#[trigger] board(grid)[r][c]) == empty_cell(r, c),
        decreases 9 - i,
    {
        let ghost before = grid;
        let mut row: [ValueCell; 9] = grid[i as usize];
        let mut j: u8 = 0;
        while j < 9
            invariant
                0 <= i < 9,
                0 <= j <= 9,
                forall|c: int| 0 <= c < j ==> (#[trigger] row@[c]) == empty_cell(i as int, c),
                grid == before,
            decreases 9 - j,
        {
            row[j as usize] = ValueCell { i, j, value: None, initial: false };
            j = j + 1;
        }
        grid[i as usize] = row;
        assert forall|r: int, c: int| 0 <= r <= i && 0 <= c < 9 implies (#[trigger] board(
            grid,
        )[r][c]) == empty_cell(r, c) by {
            if r < i {
                assert(board(grid)[r] == board(before)[r]);
            } else {
                assert(board(grid)[r] == row@);
            }
        }
        i = i + 1;
    }
    grid
}

impl SudokuGrid {
    pub open spec fn wf(&self) -> bool {
        board_wf(self@)
    }

    /// A grid of 81 unfilled cells.
    pub fn new() -> (g: Self)
        ensures
            g.wf(),
            forall|r: int, c: int| in_grid(r, c) ==> (#[trigger] g@[r][c]) == empty_cell(r, c),
    {
        SudokuGrid { grid: init_grid() }
    }

    /// The band of an axis index, as the range from the band's first index to
    /// its last.
    pub fn resolve_sub_grid(index: u8) -> (r: std::ops::Range<u8>)
        requires
            index < 9,
        ensures
            r.start == band(index as int) * 3,
            r.end == r.start + 2,
    {
        let first: u8 = (index / 3) * 3;
        std::ops::Range { start: first, end: first + 2 }
    }

    /// The values present in column `col_index`, in row order.
    pub fn get_values_of_col(grid: [[ValueCell; 9]; 9], col_index: usize) -> (r: Vec<i64>)
        requires
            col_index < 9,
        ensures
            r@ == col_values(board(grid), col_index as int),
            r@.len() <= 9,
    {
        let mut result: Vec<i64> = Vec::new();
        let mut i: usize = 0;
        while i < 9
            invariant
                i <= 9,
                col_index < 9,
                result@ == col_values_upto(board(grid), col_index as int, i as int),
                result@.len() <= i,
            decreases 9 - i,
        {
            let value_cell: ValueCell = grid[i][col_index];
            if let Some(v) = value_cell.value {
                result.push(v);
            }
            i = i + 1;
        }
        result
    }

    /// The values present in row `row_index`, in column order.
    pub fn get_values_of_row(grid: [[ValueCell; 9]; 9], row_index: usize) -> (r: Vec<i64>)
        requires
            row_index < 9,
        ensures
            r@ == row_values(board(grid), row_index as int),
            r@.len() <= 9,
    {
        let mut result: Vec<i64> = Vec::new();
        let mut j: usize = 0;
        while j < 9
            invariant
                j <= 9,
                row_index < 9,
                result@ == row_values_upto(board(grid), row_index as int, j as int),
                result@.len() <= j,
            decreases 9 - j,
        {
            let value_cell: ValueCell = grid[row_index][j];
            if let Some(v) = value_cell.value {
                result.push(v);
            }
            j = j + 1;
        }
        result
    }

    /// The box that holds `value_cell`: its bands and the values present in
    /// it, in row-major order.
    pub fn get_sub_grid_for_value_cell(grid: [[ValueCell; 9]; 9], value_cell: &ValueCell) -> (s:
        SubGrid)
        requires
            value_cell.i < 9,
            value_cell.j < 9,
        ensures
            s.range_i.start == band(value_cell.i as int) * 3,
            s.range_i.end == s.range_i.start + 2,
            s.range_j.start == band(value_cell.j as int) * 3,
            s.range_j.end == s.range_j.start + 2,
            s.data@ == box_values(board(grid), value_cell.i as int, value_cell.j as int),
    {
        let range_i = SudokuGrid::resolve_sub_grid(value_cell.i);
        let range_j = SudokuGrid::resolve_sub_grid(value_cell.j);
        let first_i: usize = range_i.start as usize;
        let first_j: usize = range_j.start as usize;
        let mut data: Vec<i64> = Vec::new();
        let mut k: usize = 0;
        while k < 9
            invariant
                k <= 9,
                first_i <= 6,
                first_j <= 6,
                data@ == box_values_upto(board(grid), first_i as int, first_j as int, k as int),
            decreases 9 - k,
        {
            let cell: ValueCell = grid[first_i + k / 3][first_j + k % 3];
            if let Some(v) = cell.value {
                data.push(v);
            }
            k = k + 1;
        }
        SubGrid { range_i, range_j, data }
    }

    /// Seeds the cell at `(i, j)` with `value` from the initial puzzle and
    /// marks it fixed.
    pub fn init_cell_value(&mut self, value: i64, i: usize, j: usize) -> (r: Result<(), GridError>)
        requires
            old(self).wf(),
        ensures
            final(self).wf(),
            match seed_outcome(old(self)@, value as int, i as int, j as int) {
                Ok(b) => r == Ok::<(), GridError>(()) && final(self)@ == b,
                Err(e) => r == Err::<(), GridError>(e) && final(self)@ == old(self)@,
            },
    {
        if i >= 9 || j >= 9 || value < 1 || value > 9 {
            return Err(GridError::OutOfRange);
        }
        if self.grid[i][j].initial {
            return Err(GridError::AlreadyFixed);
        }
        self.set_cell(i, j, Some(value), true);
        Ok(())
    }

    /// Fills the unfilled cell at `(row, col)` with a deduced `value`; the
    /// cell stays unfixed.
    pub fn assign(&mut self, row: usize, col: usize, value: i64) -> (r: Result<(), GridError>)
        requires
            old(self).wf(),
        ensures
            final(self).wf(),
            match assign_outcome(old(self)@, row as int, col as int, value as int) {
                Ok(b) => r == Ok::<(), GridError>(()) && final(self)@ == b,
                Err(e) => r == Err::<(), GridError>(e) && final(self)@ == old(self)@,
            },
    {
        if row >= 9 || col >= 9 || value < 1 || value > 9 {
            return Err(GridError::OutOfRange);
        }
        if self.grid[row][col].value.is_some() {
            return Err(GridError::AlreadyFilled);
        }
        self.set_cell(row, col, Some(value), false);
        Ok(())
    }

    fn set_cell(&mut self, r: usize, c: usize, value: Option<i64>, initial: bool)
        requires
            old(self).wf(),
            r < 9,
            c < 9,
            old(self)@[r as int][c as int].holding(value, initial).sound(),
        ensures
            final(self).wf(),
            final(self)@ == with_cell(
                old(self)@,
                r as int,
                c as int,
                old(self)@[r as int][c as int].holding(value, initial),
            ),
    {
        let mut row: [ValueCell; 9] = self.grid[r];
        let mut cell: ValueCell = row[c];
        cell.init_value(value, initial);
        row[c] = cell;
        self.grid[r] = row;
        assert(self@ =~~= with_cell(
            old(self)@,
            r as int,
            c as int,
            old(self)@[r as int][c as int].holding(value, initial),
        ));
    }

    /// Whether every cell holds a value.
    pub fn is_complete(&self) -> (r: bool)
        ensures
            r == board_complete(self@),
    {
        let mut i: usize = 0;
        while i < 9
            invariant
                i <= 9,
                forall|a: int, c: int| 0 <= a < i && 0 <= c < 9 ==> (#[trigger] self@[a][c]).value is Some,
            decreases 9 - i,
        {
            let mut j: usize = 0;
            while j < 9
                invariant
                    i < 9,
                    j <= 9,
                    forall|a: int, c: int| 0 <= a < i && 0 <= c < 9 ==> (#[trigger] self@[a][c]).value is Some,
                    forall|c: int| 0 <= c < j ==> (#[trigger] self@[i as int][c]).value is Some,
                decreases 9 - j,
            {
                if self.grid[i][j].value.is_none() {
                    return false;
                }
                j = j + 1;
            }
            i = i + 1;
        }
        true
    }

    /// A copy of every cell's state, unaffected by later changes to the grid.
    pub fn snapshot(&self) -> (s: [[ValueCell; 9]; 9])
        ensures
            board(s) == self@,
    {
        self.grid
    }
}

} // verus!
