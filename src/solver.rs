use vstd::prelude::*;
use crate::cell::{is_symbol, strictly_increasing, ValueCell};
use crate::grid::{
    board_wf, box_values, col_values, filled_count, filled_upto, in_grid,
    lemma_filled_upto_with_cell, lemma_region_values_len, row_values, with_cell, Board,
    SudokuGrid,
};
use crate::region::{retain_absent, SubGrid};

verus! {

/// `v` is a symbol that neither the row, the column nor the box of `(r, c)`
/// holds.
pub open spec fn is_candidate(b: Board, r: int, c: int, v: i64) -> bool {
    &&& is_symbol(v as int)
    &&& !row_values(b, r).contains(v)
    &&& !col_values(b, c).contains(v)
    &&& !box_values(b, r, c).contains(v)
}

/// `v` is the one and only candidate of `(r, c)`.
pub open spec fn sole_candidate(b: Board, r: int, c: int, v: i64) -> bool {
    is_candidate(b, r, c, v) && forall|w: i64| #[trigger] is_candidate(b, r, c, w) ==> w == v
}

/// `(r, c)` is unfilled and has exactly one candidate.
pub open spec fn forced(b: Board, r: int, c: int) -> bool {
    b[r][c].value is None && exists|v: i64| sole_candidate(b, r, c, v)
}

/// `(r, c)` is unfilled and has no candidate at all.
pub open spec fn stuck(b: Board, r: int, c: int) -> bool {
    b[r][c].value is None && forall|v: i64| !#[trigger] is_candidate(b, r, c, v)
}

/// The board after evaluating `(r, c)`: a forced cell takes its only
/// candidate, unfixed; any other board is left as it is.
pub open spec fn settle(b: Board, r: int, c: int) -> Board {
    if forced(b, r, c) {
        let v = choose|v: i64| sole_candidate(b, r, c, v);
        with_cell(b, r, c, b[r][c].holding(Some(v), false))
    } else {
        b
    }
}

/// The board after evaluating the cells of `order` one after another, each
/// against the board that the earlier ones left.
pub open spec fn pass(b: Board, order: Seq<(int, int)>) -> Board
    decreases order.len(),
{
    if order.len() == 0 {
        b
    } else {
        settle(pass(b, order.drop_last()), order.last().0, order.last().1)
    }
}

/// How constrained `(r, c)` is: the number of values its row and its column
/// hold.
pub open spec fn constraint(b: Board, r: int, c: int) -> int {
    row_values(b, r).len() + col_values(b, c).len() as int
}

/// The unfilled cells among the first `n` in row-major order whose
/// constraint is `k`, in that order.
pub open spec fn bucket(b: Board, k: int, n: int) -> Seq<(int, int)>
    decreases n,
{
    if n <= 0 {
        seq![]
    } else {
        let prev = bucket(b, k, n - 1);
        let r = (n - 1) / 9;
        let c = (n - 1) % 9;
        if b[r][c].value is None && constraint(b, r, c) == k {
            prev.push((r, c))
        } else {
            prev
        }
    }
}

/// The unfilled cells whose constraint is at least `k`, most constrained
/// first, ties in row-major order.
pub open spec fn ranking_from(b: Board, k: int) -> Seq<(int, int)>
    decreases 19 - k,
{
    if k >= 19 {
        seq![]
    } else {
        ranking_from(b, k + 1) + bucket(b, k, 81)
    }
}

/// Every unfilled cell, most constrained first, ties in row-major order.
pub open spec fn ranking(b: Board) -> Seq<(int, int)> {
    ranking_from(b, 0)
}

/// `w` describes the cells of `order` one for one, with their constraints.
pub open spec fn describes(b: Board, w: Seq<ValueCellWrapper>, order: Seq<(int, int)>) -> bool {
    &&& w.len() == order.len()
    &&& forall|x: int|
        0 <= x < w.len() ==> {
            let (r, c) = #[trigger] order[x];
            &&& w[x].targer == b[r][c]
            &&& w[x].constraints == constraint(b, r, c)
        }
}

/// Every position of a bucket lies in the grid.
proof fn lemma_bucket_in_grid(b: Board, k: int, n: int)
    requires
        0 <= n <= 81,
    ensures
        forall|y: int|
            0 <= y < bucket(b, k, n).len() ==> {
                let (r, c) = #[trigger] bucket(b, k, n)[y];
                in_grid(r, c)
            },
    decreases n,
{
    if n > 0 {
        lemma_bucket_in_grid(b, k, n - 1);
        let prev = bucket(b, k, n - 1);
        assert forall|y: int| 0 <= y < bucket(b, k, n).len() implies {
            let (r, c) = #[trigger] bucket(b, k, n)[y];
            in_grid(r, c)
        } by {
            if y < prev.len() {
                assert(bucket(b, k, n)[y] == prev[y]);
            }
        }
    }
}

/// Every position of a ranking lies in the grid.
proof fn lemma_ranking_in_grid(b: Board, k: int)
    requires
        0 <= k,
    ensures
        forall|y: int|
            0 <= y < ranking_from(b, k).len() ==> {
                let (r, c) = #[trigger] ranking_from(b, k)[y];
                in_grid(r, c)
            },
    decreases 19 - k,
{
    if k < 19 {
        lemma_ranking_in_grid(b, k + 1);
        lemma_bucket_in_grid(b, k, 81);
        let head = ranking_from(b, k + 1);
        let tail = bucket(b, k, 81);
        assert forall|y: int| 0 <= y < ranking_from(b, k).len() implies {
            let (r, c) = #[trigger] ranking_from(b, k)[y];
            in_grid(r, c)
        } by {
            if y < head.len() {
                assert(ranking_from(b, k)[y] == head[y]);
            } else {
                assert(ranking_from(b, k)[y] == tail[y - head.len()]);
            }
        }
    }
}

/// An unfilled cell together with how many values its row and column hold.
pub struct ValueCellWrapper {
    pub targer: ValueCell,
    pub constraints: i64,
}

impl SudokuGrid {
    /// The candidates of the cell at `(row, col)`, in increasing order.
    pub fn candidates(&self, row: usize, col: usize) -> (r: Vec<i64>)
        requires
            self.wf(),
            row < 9,
            col < 9,
        ensures
            strictly_increasing(r@),
            forall|v: i64| #[trigger] r@.contains(v) <==> is_candidate(self@, row as int, col as int, v),
    {
        let cell: ValueCell = self.grid[row][col];
        assert(cell == self@[row as int][col as int]);
        let sub_grid: SubGrid = SudokuGrid::get_sub_grid_for_value_cell(self.grid, &cell);
        let col_values: Vec<i64> = SudokuGrid::get_values_of_col(self.grid, col);
        let row_values: Vec<i64> = SudokuGrid::get_values_of_row(self.grid, row);
        let missing: Vec<i64> = sub_grid.get_missing_values();
        let outside_col: Vec<i64> = retain_absent(&missing, &col_values);
        let r = retain_absent(&outside_col, &row_values);
        assert forall|v: i64| #[trigger] r@.contains(v) <==> is_candidate(
            self@,
            row as int,
            col as int,
            v,
        ) by {
            assert(r@.contains(v) <==> outside_col@.contains(v) && !row_values@.contains(v));
            assert(outside_col@.contains(v) <==> missing@.contains(v) && !col_values@.contains(v));
            assert(missing@.contains(v) <==> is_symbol(v as int) && !sub_grid.data@.contains(v));
        }
        r
    }

    /// The unfilled cells in the order a pass visits them: most constrained
    /// first, ties in row-major order.
    fn get_most_constraints_value_cells(&self) -> (r: Vec<ValueCellWrapper>)
        requires
            self.wf(),
        ensures
            describes(self@, r@, ranking(self@)),
    {
        let ghost b = self@;
        let mut row_counts: Vec<usize> = Vec::new();
        let mut col_counts: Vec<usize> = Vec::new();
        let mut x: usize = 0;
        while x < 9
            invariant
                x <= 9,
                b == self@,
                row_counts@.len() == x,
                col_counts@.len() == x,
                forall|y: int|
                    0 <= y < x ==> #[trigger] row_counts@[y] == row_values(b, y).len()
                        && row_counts@[y] <= 9,
                forall|y: int|
                    0 <= y < x ==> #[trigger] col_counts@[y] == col_values(b, y).len()
                        && col_counts@[y] <= 9,
            decreases 9 - x,
        {
            let in_row: Vec<i64> = SudokuGrid::get_values_of_row(self.grid, x);
            let in_col: Vec<i64> = SudokuGrid::get_values_of_col(self.grid, x);
            row_counts.push(in_row.len());
            col_counts.push(in_col.len());
            x = x + 1;
        }
        let mut results: Vec<ValueCellWrapper> = Vec::new();
        let mut level: usize = 19;
        while level > 0
            invariant
                level <= 19,
                b == self@,
                row_counts@.len() == 9,
                col_counts@.len() == 9,
                forall|y: int|
                    0 <= y < 9 ==> #[trigger] row_counts@[y] == row_values(b, y).len()
                        && row_counts@[y] <= 9,
                forall|y: int|
                    0 <= y < 9 ==> #[trigger] col_counts@[y] == col_values(b, y).len()
                        && col_counts@[y] <= 9,
                describes(b, results@, ranking_from(b, level as int)),
            decreases level,
        {
            let k: usize = level - 1;
            let mut p: usize = 0;
            while p < 81
                invariant
                    p <= 81,
                    k < 19,
                    level == k + 1,
                    b == self@,
                    row_counts@.len() == 9,
                    col_counts@.len() == 9,
                    forall|y: int|
                        0 <= y < 9 ==> #[trigger] row_counts@[y] == row_values(b, y).len()
                            && row_counts@[y] <= 9,
                    forall|y: int|
                        0 <= y < 9 ==> #[trigger] col_counts@[y] == col_values(b, y).len()
                            && col_counts@[y] <= 9,
                    describes(b, results@, ranking_from(b, level as int) + bucket(b, k as int, p as int)),
                decreases 81 - p,
            {
                let i: usize = p / 9;
                let j: usize = p % 9;
                let cell: ValueCell = self.grid[i][j];
                let constraints: usize = row_counts[i] + col_counts[j];
                let ghost prefix = ranking_from(b, level as int) + bucket(b, k as int, p as int);
                let ghost ws = results@;
                if cell.value.is_none() && constraints == k {
                    let w = ValueCellWrapper { targer: cell, constraints: constraints as i64 };
                    results.push(w);
                    assert(ranking_from(b, level as int) + bucket(b, k as int, p + 1) =~= prefix.push(
                        (i as int, j as int),
                    ));
                    assert forall|y: int| 0 <= y < results@.len() implies {
                        let (r, c) = #[trigger] prefix.push((i as int, j as int))[y];
                        &&& results@[y].targer == b[r][c]
                        &&& results@[y].constraints == constraint(b, r, c)
                    } by {
                        if y < ws.len() {
                            assert(prefix.push((i as int, j as int))[y] == prefix[y]);
                        }
                    }
                } else {
                    assert(ranking_from(b, level as int) + bucket(b, k as int, p + 1) =~= prefix);
                }
                p = p + 1;
            }
            assert(ranking_from(b, k as int) == ranking_from(b, level as int) + bucket(b, k as int, 81));
            level = k;
        }
        results
    }

    /// One pass of deduction: visits the unfilled cells in ranked order and
    /// fills each one whose candidates, computed against the grid as the pass
    /// has left it so far, come down to a single value. Returns how many cells
    /// it filled.
    pub fn solve(&mut self) -> (filled: usize)
        requires
            old(self).wf(),
        ensures
            final(self).wf(),
            final(self)@ == pass(old(self)@, ranking(old(self)@)),
            filled as int == filled_count(final(self)@) - filled_count(old(self)@),
    {
        let ranked: Vec<ValueCellWrapper> = self.get_most_constraints_value_cells();
        let ghost start = self@;
        let ghost order = ranking(start);
        proof {
            lemma_ranking_in_grid(start, 0);
        }
        let mut filled: usize = 0;
        let mut x: usize = 0;
        while x < ranked.len()
            invariant
                x <= ranked@.len(),
                self.wf(),
                board_wf(start),
                describes(start, ranked@, order),
                forall|y: int|
                    0 <= y < order.len() ==> {
                        let (r, c) = #[trigger] order[y];
                        in_grid(r, c)
                    },
                self@ == pass(start, order.take(x as int)),
                filled <= x,
                filled as int == filled_count(self@) - filled_count(start),
            decreases ranked@.len() - x,
        {
            let target: ValueCell = ranked[x].targer;
            let i: usize = target.i as usize;
            let j: usize = target.j as usize;
            let ghost before = self@;
            proof {
                let (r, c) = order[x as int];
                assert(in_grid(r, c));
                assert(target == start[r][c]);
                assert(order.take(x + 1).drop_last() =~= order.take(x as int));
                assert(order.take(x + 1).last() == order[x as int]);
                assert(order[x as int] == (i as int, j as int));
            }
            if self.grid[i][j].value.is_none() {
                let cands: Vec<i64> = self.candidates(i, j);
                if cands.len() == 1 {
                    let v: i64 = cands[0];
                    proof {
                        assert(cands@.contains(v));
                        assert forall|w: i64| #[trigger] is_candidate(before, i as int, j as int, w) implies w == v by {
                            assert(cands@.contains(w));
                        }
                        assert(sole_candidate(before, i as int, j as int, v));
                        let u = choose|u: i64| sole_candidate(before, i as int, j as int, u);
                        assert(is_candidate(before, i as int, j as int, u));
                    }
                    let _ = self.assign(i, j, v);
                    proof {
                        lemma_filled_upto_with_cell(
                            before,
                            i as int,
                            j as int,
                            before[i as int][j as int].holding(Some(v), false),
                            81,
                        );
                    }
                    filled = filled + 1;
                } else {
                    proof {
                        if forced(before, i as int, j as int) {
                            let u = choose|u: i64| sole_candidate(before, i as int, j as int, u);
                            assert(cands@.contains(u));
                            if cands.len() == 0 {
                                assert(false);
                            } else {
                                assert(cands@.contains(cands@[0]));
                                assert(cands@.contains(cands@[1]));
                                assert(false);
                            }
                        }
                    }
                }
            }
            x = x + 1;
        }
        assert(order.take(order.len() as int) =~= order);
        filled
    }

    /// Whether some unfilled cell has no candidate left, which no sequence of
    /// deductions can repair.
    pub fn has_contradiction(&self) -> (r: bool)
        requires
            self.wf(),
        ensures
            r == exists|row: int, col: int| in_grid(row, col) && #[trigger] stuck(self@, row, col),
    {
        let mut i: usize = 0;
        while i < 9
            invariant
                i <= 9,
                self.wf(),
                forall|row: int, col: int|
                    0 <= row < i && 0 <= col < 9 ==> !#[trigger] stuck(self@, row, col),
            decreases 9 - i,
        {
            let mut j: usize = 0;
            while j < 9
                invariant
                    i < 9,
                    j <= 9,
                    self.wf(),
                    forall|row: int, col: int|
                        0 <= row < i && 0 <= col < 9 ==> !#[trigger] stuck(self@, row, col),
                    forall|col: int| 0 <= col < j ==> !#[trigger] stuck(self@, i as int, col),
                decreases 9 - j,
            {
                if self.grid[i][j].value.is_none() {
                    let cands: Vec<i64> = self.candidates(i, j);
                    if cands.len() == 0 {
                        assert forall|v: i64| !#[trigger] is_candidate(self@, i as int, j as int, v) by {
                            if is_candidate(self@, i as int, j as int, v) {
                                assert(cands@.contains(v));
                            }
                        }
                        assert(stuck(self@, i as int, j as int));
                        return true;
                    }
                    assert(cands@.contains(cands@[0]));
                }
                j = j + 1;
            }
            i = i + 1;
        }
        false
    }
}

/// What `n` passes in a row make of `b`.
pub open spec fn after_steps(b: Board, n: nat) -> Board
    decreases n,
{
    if n == 0 {
        b
    } else {
        let prev = after_steps(b, (n - 1) as nat);
        pass(prev, ranking(prev))
    }
}

/// Evaluating one cell changes at most that cell, and only when it is forced:
/// it then takes its sole candidate, unfixed.
pub proof fn lemma_settle(b: Board, r: int, c: int)
    requires
        board_wf(b),
        in_grid(r, c),
    ensures
        board_wf(settle(b, r, c)),
        forall|r2: int, c2: int|
            in_grid(r2, c2) && (r2 != r || c2 != c) ==> #[trigger] settle(b, r, c)[r2][c2]
                == b[r2][c2],
        !forced(b, r, c) ==> settle(b, r, c) == b,
        forced(b, r, c) ==> {
            let x = settle(b, r, c)[r][c];
            &&& x.value is Some
            &&& sole_candidate(b, r, c, x.value.unwrap())
            &&& x == b[r][c].holding(x.value, false)
        },
{
    if forced(b, r, c) {
        let v = choose|v: i64| sole_candidate(b, r, c, v);
        let nb = settle(b, r, c);
        assert(nb == with_cell(b, r, c, b[r][c].holding(Some(v), false)));
        assert forall|r2: int, c2: int| in_grid(r2, c2) implies {
            let x = #[trigger] nb[r2][c2];
            &&& x.i == r2
            &&& x.j == c2
            &&& x.sound()
        } by {
            if r2 == r && c2 == c {
                assert(nb[r2][c2] == b[r][c].holding(Some(v), false));
            } else if r2 == r {
                assert(nb[r2][c2] == b[r2][c2]);
            } else {
                assert(nb[r2] == b[r2]);
            }
        }
        assert forall|r2: int| 0 <= r2 < 9 implies (#[trigger] nb[r2]).len() == 9 by {
            if r2 != r {
                assert(nb[r2] == b[r2]);
            }
        }
        assert forall|r2: int, c2: int|
            in_grid(r2, c2) && (r2 != r || c2 != c) implies #[trigger] nb[r2][c2] == b[r2][c2] by {
            if r2 != r {
                assert(nb[r2] == b[r2]);
            }
        }
    }
}

/// A pass over positions of the grid keeps the board well formed and every
/// filled cell exactly as it was.
pub proof fn lemma_pass_keeps_filled(b: Board, order: Seq<(int, int)>)
    requires
        board_wf(b),
        forall|y: int|
            0 <= y < order.len() ==> {
                let (r, c) = #[trigger] order[y];
                in_grid(r, c)
            },
    ensures
        board_wf(pass(b, order)),
        forall|r: int, c: int|
            in_grid(r, c) && b[r][c].value is Some ==> #[trigger] pass(b, order)[r][c] == b[r][c],
    decreases order.len(),
{
    if order.len() > 0 {
        let rest = order.drop_last();
        assert forall|y: int| 0 <= y < rest.len() implies {
            let (r, c) = #[trigger] rest[y];
            in_grid(r, c)
        } by {
            assert(rest[y] == order[y]);
        }
        lemma_pass_keeps_filled(b, rest);
        let (lr, lc) = order.last();
        assert(order.last() == order[order.len() - 1]);
        lemma_settle(pass(b, rest), lr, lc);
    }
}

/// Filling cells never lowers the count of filled cells.
proof fn lemma_filled_upto_grows(b1: Board, b2: Board, n: int)
    requires
        board_wf(b1),
        board_wf(b2),
        forall|r: int, c: int| in_grid(r, c) && b1[r][c].value is Some ==> (#[trigger] b2[r][c]).value is Some,
        0 <= n <= 81,
    ensures
        filled_upto(b1, n) <= filled_upto(b2, n),
    decreases n,
{
    if n > 0 {
        lemma_filled_upto_grows(b1, b2, n - 1);
        let p = n - 1;
        assert(0 <= p / 9 < 9 && 0 <= p % 9 < 9);
    }
}

/// Passes only ever add values: after any number of them every fixed cell
/// still holds its seeded value and is still fixed.
pub proof fn lemma_steps_keep_fixed_cells(b: Board, n: nat)
    requires
        board_wf(b),
    ensures
        forall|r: int, c: int|
            in_grid(r, c) && b[r][c].initial ==> #[trigger] after_steps(b, n)[r][c] == b[r][c],
{
    lemma_steps_monotonic(b, 0, n);
}

/// Repeated passes are monotonic: a cell filled after `n` passes is filled,
/// with the same value, after any `m >= n` passes, and the number of filled
/// cells never goes down.
pub proof fn lemma_steps_monotonic(b: Board, n: nat, m: nat)
    requires
        board_wf(b),
        n <= m,
    ensures
        board_wf(after_steps(b, m)),
        forall|r: int, c: int|
            in_grid(r, c) && after_steps(b, n)[r][c].value is Some ==> #[trigger] after_steps(b, m)[r][c]
                == after_steps(b, n)[r][c],
        filled_count(after_steps(b, n)) <= filled_count(after_steps(b, m)),
    decreases m,
{
    if m > n {
        lemma_steps_monotonic(b, n, (m - 1) as nat);
        let prev = after_steps(b, (m - 1) as nat);
        lemma_ranking_in_grid(prev, 0);
        lemma_pass_keeps_filled(prev, ranking(prev));
        lemma_steps_monotonic(b, n, n);
        lemma_filled_upto_grows(after_steps(b, n), after_steps(b, m), 81);
    } else {
        if n > 0 {
            lemma_steps_monotonic(b, 0, (n - 1) as nat);
            let prev = after_steps(b, (n - 1) as nat);
            lemma_ranking_in_grid(prev, 0);
            lemma_pass_keeps_filled(prev, ranking(prev));
        }
    }
}

/// A cell that a pass over positions of the grid fills was, when the pass
/// reached it, unfilled with exactly one candidate, and it took that candidate.
proof fn lemma_pass_fills_only_forced(b: Board, order: Seq<(int, int)>)
    requires
        board_wf(b),
        forall|y: int|
            0 <= y < order.len() ==> {
                let (r, c) = #[trigger] order[y];
                in_grid(r, c)
            },
    ensures
        forall|r: int, c: int|
            in_grid(r, c) && b[r][c].value is None && (#[trigger] pass(b, order)[r][c]).value is Some
                ==> exists|y: int|
                0 <= y < order.len() && #[trigger] order[y] == (r, c) && forced(
                    pass(b, order.take(y)),
                    r,
                    c,
                ) && sole_candidate(pass(b, order.take(y)), r, c, pass(b, order)[r][c].value.unwrap()),
    decreases order.len(),
{
    if order.len() > 0 {
        let rest = order.drop_last();
        assert forall|y: int| 0 <= y < rest.len() implies {
            let (r, c) = #[trigger] rest[y];
            in_grid(r, c)
        } by {
            assert(rest[y] == order[y]);
        }
        lemma_pass_fills_only_forced(b, rest);
        lemma_pass_keeps_filled(b, rest);
        let mid = pass(b, rest);
        let (lr, lc) = order.last();
        let last = order.len() - 1;
        assert(order.last() == order[last]);
        lemma_settle(mid, lr, lc);
        assert forall|r: int, c: int|
            in_grid(r, c) && b[r][c].value is None && (#[trigger] pass(b, order)[r][c]).value is Some
                implies exists|y: int|
            0 <= y < order.len() && #[trigger] order[y] == (r, c) && forced(
                pass(b, order.take(y)),
                r,
                c,
            ) && sole_candidate(pass(b, order.take(y)), r, c, pass(b, order)[r][c].value.unwrap()) by {
            if mid[r][c].value is Some {
                let y = choose|y: int|
                    0 <= y < rest.len() && #[trigger] rest[y] == (r, c) && forced(
                        pass(b, rest.take(y)),
                        r,
                        c,
                    ) && sole_candidate(pass(b, rest.take(y)), r, c, mid[r][c].value.unwrap());
                assert(rest.take(y) =~= order.take(y));
                assert(rest[y] == order[y]);
                assert(pass(b, order)[r][c] == mid[r][c]);
            } else {
                assert(r == lr && c == lc);
                assert(order.take(last) =~= rest);
                assert(order[last] == (r, c));
            }
        }
    }
}

/// When no cell is forced, a pass over positions of the grid changes nothing.
proof fn lemma_pass_without_forced_cells(b: Board, order: Seq<(int, int)>)
    requires
        board_wf(b),
        forall|r: int, c: int| in_grid(r, c) ==> !#[trigger] forced(b, r, c),
        forall|y: int|
            0 <= y < order.len() ==> {
                let (r, c) = #[trigger] order[y];
                in_grid(r, c)
            },
    ensures
        pass(b, order) == b,
    decreases order.len(),
{
    if order.len() > 0 {
        let rest = order.drop_last();
        assert forall|y: int| 0 <= y < rest.len() implies {
            let (r, c) = #[trigger] rest[y];
            in_grid(r, c)
        } by {
            assert(rest[y] == order[y]);
        }
        lemma_pass_without_forced_cells(b, rest);
        assert(order.last() == order[order.len() - 1]);
    }
}

/// A pass fills a cell only where, at the moment the pass reached it, the
/// cell was unfilled and had exactly one candidate; the cell took that
/// candidate.
pub proof fn lemma_step_fills_only_sole_candidates(b: Board)
    requires
        board_wf(b),
    ensures
        forall|r: int, c: int|
            in_grid(r, c) && b[r][c].value is None && (#[trigger] pass(b, ranking(b))[r][c]).value is Some
                ==> exists|y: int|
                0 <= y < ranking(b).len() && #[trigger] ranking(b)[y] == (r, c) && forced(
                    pass(b, ranking(b).take(y)),
                    r,
                    c,
                ) && sole_candidate(
                    pass(b, ranking(b).take(y)),
                    r,
                    c,
                    pass(b, ranking(b))[r][c].value.unwrap(),
                ),
{
    lemma_ranking_in_grid(b, 0);
    lemma_pass_fills_only_forced(b, ranking(b));
}

/// Once no unfilled cell has exactly one candidate, a pass leaves the grid as
/// it is and so fills nothing: the grid is at a fixed point.
pub proof fn lemma_step_at_fixed_point(b: Board)
    requires
        board_wf(b),
        forall|r: int, c: int| in_grid(r, c) ==> !#[trigger] forced(b, r, c),
    ensures
        pass(b, ranking(b)) == b,
        filled_count(pass(b, ranking(b))) == filled_count(b),
{
    lemma_ranking_in_grid(b, 0);
    lemma_pass_without_forced_cells(b, ranking(b));
}

/// An unfilled cell among the first `n` whose constraint is `k` lies in that
/// bucket.
proof fn lemma_bucket_has(b: Board, k: int, n: int, r: int, c: int)
    requires
        in_grid(r, c),
        r * 9 + c < n <= 81,
        b[r][c].value is None,
        constraint(b, r, c) == k,
    ensures
        bucket(b, k, n).contains((r, c)),
    decreases n,
{
    let p = n - 1;
    assert(p == (p / 9) * 9 + p % 9);
    if p == r * 9 + c {
        assert(p / 9 == r && p % 9 == c);
        assert(bucket(b, k, n).last() == (r, c));
    } else {
        lemma_bucket_has(b, k, n - 1, r, c);
        let prev = bucket(b, k, n - 1);
        let y = choose|y: int| 0 <= y < prev.len() && prev[y] == (r, c);
        assert(bucket(b, k, n)[y] == (r, c));
    }
}

/// Every unfilled cell is in the ranking.
proof fn lemma_ranking_has(b: Board, k: int, r: int, c: int)
    requires
        in_grid(r, c),
        b[r][c].value is None,
        0 <= k <= constraint(b, r, c) <= 18,
    ensures
        ranking_from(b, k).contains((r, c)),
    decreases 19 - k,
{
    let head = ranking_from(b, k + 1);
    let tail = bucket(b, k, 81);
    assert(ranking_from(b, k) == head + tail);
    if k == constraint(b, r, c) {
        lemma_bucket_has(b, k, 81, r, c);
        let y = choose|y: int| 0 <= y < tail.len() && tail[y] == (r, c);
        assert((head + tail)[head.len() + y] == (r, c));
    } else {
        lemma_ranking_has(b, k + 1, r, c);
        let y = choose|y: int| 0 <= y < head.len() && head[y] == (r, c);
        assert((head + tail)[y] == (r, c));
    }
}

/// Evaluating one cell fills it, adding one to the count of filled cells,
/// exactly when it is forced.
proof fn lemma_settle_count(b: Board, r: int, c: int)
    requires
        board_wf(b),
        in_grid(r, c),
    ensures
        forced(b, r, c) ==> filled_count(settle(b, r, c)) == filled_count(b) + 1,
        !forced(b, r, c) ==> settle(b, r, c) == b,
{
    if forced(b, r, c) {
        let v = choose|v: i64| sole_candidate(b, r, c, v);
        lemma_filled_upto_with_cell(b, r, c, b[r][c].holding(Some(v), false), 81);
    }
}

/// A pass over positions of the grid never lowers the count of filled cells,
/// and leaves it the same only when it changes nothing.
proof fn lemma_pass_count(b: Board, order: Seq<(int, int)>)
    requires
        board_wf(b),
        forall|y: int|
            0 <= y < order.len() ==> {
                let (r, c) = #[trigger] order[y];
                in_grid(r, c)
            },
    ensures
        filled_count(b) <= filled_count(pass(b, order)),
        filled_count(pass(b, order)) == filled_count(b) ==> pass(b, order) == b,
    decreases order.len(),
{
    if order.len() > 0 {
        let rest = order.drop_last();
        assert forall|y: int| 0 <= y < rest.len() implies {
            let (r, c) = #[trigger] rest[y];
            in_grid(r, c)
        } by {
            assert(rest[y] == order[y]);
        }
        lemma_pass_count(b, rest);
        lemma_pass_keeps_filled(b, rest);
        let (lr, lc) = order.last();
        assert(order.last() == order[order.len() - 1]);
        lemma_settle_count(pass(b, rest), lr, lc);
    }
}

/// A pass over positions of the grid that reaches a cell which is forced
/// before the pass starts fills at least one cell.
proof fn lemma_pass_progress(b: Board, order: Seq<(int, int)>, y: int)
    requires
        board_wf(b),
        forall|x: int|
            0 <= x < order.len() ==> {
                let (r, c) = #[trigger] order[x];
                in_grid(r, c)
            },
        0 <= y < order.len(),
        forced(b, order[y].0, order[y].1),
    ensures
        filled_count(b) < filled_count(pass(b, order)),
    decreases order.len(),
{
    let rest = order.drop_last();
    assert forall|x: int| 0 <= x < rest.len() implies {
        let (r, c) = #[trigger] rest[x];
        in_grid(r, c)
    } by {
        assert(rest[x] == order[x]);
    }
    let mid = pass(b, rest);
    let (lr, lc) = order.last();
    assert(order.last() == order[order.len() - 1]);
    lemma_pass_count(b, rest);
    lemma_pass_keeps_filled(b, rest);
    lemma_settle_count(mid, lr, lc);
    if y < rest.len() {
        assert(rest[y] == order[y]);
        lemma_pass_progress(b, rest, y);
    }
}

/// A pass fills no cell exactly when no unfilled cell has a single
/// candidate: a step that returns zero has reached a fixed point, and at any
/// other grid it returns more than zero.
pub proof fn lemma_step_fills_nothing_iff_nothing_forced(b: Board)
    requires
        board_wf(b),
    ensures
        filled_count(pass(b, ranking(b))) == filled_count(b) <==> forall|r: int, c: int|
            in_grid(r, c) ==> !#[trigger] forced(b, r, c),
{
    lemma_ranking_in_grid(b, 0);
    if exists|r: int, c: int| in_grid(r, c) && #[trigger] forced(b, r, c) {
        let (r, c) = choose|r: int, c: int| in_grid(r, c) && #[trigger] forced(b, r, c);
        lemma_region_values_len(b, r, c, 9);
        lemma_ranking_has(b, 0, r, c);
        let y = choose|y: int| 0 <= y < ranking(b).len() && ranking(b)[y] == (r, c);
        lemma_pass_progress(b, ranking(b), y);
    } else {
        lemma_step_at_fixed_point(b);
    }
}

} // verus!
