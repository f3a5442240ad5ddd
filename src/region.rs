use vstd::prelude::*;
use crate::cell::{holds, is_symbol, strictly_increasing};

verus! {

/// The band (0, 1 or 2) that an axis index in `0..9` falls in.
pub open spec fn band(index: int) -> int {
    index / 3
}

/// The box (0 to 8, row-major) that the cell `(row, col)` belongs to.
pub open spec fn box_of(row: int, col: int) -> int {
    band(row) * 3 + band(col)
}

/// The first row of box `b`.
pub open spec fn box_first_row(b: int) -> int {
    (b / 3) * 3
}

/// The first column of box `b`.
pub open spec fn box_first_col(b: int) -> int {
    (b % 3) * 3
}

/// The nine boxes partition the 81 cells: every cell lies in exactly one box,
/// at offset `(row % 3, col % 3)` from the box's first cell, and every one of
/// the nine offsets of every box is a cell of that box.
pub proof fn lemma_boxes_partition_grid()
    ensures
        forall|row: int, col: int|
            0 <= row < 9 && 0 <= col < 9 ==> {
                let b = #[trigger] box_of(row, col);
                &&& 0 <= b < 9
                &&& row == box_first_row(b) + row % 3
                &&& col == box_first_col(b) + col % 3
            },
        forall|b: int, dr: int, dc: int|
            0 <= b < 9 && 0 <= dr < 3 && 0 <= dc < 3 ==> {
                let row = box_first_row(b) + dr;
                let col = box_first_col(b) + dc;
                &&& 0 <= row < 9
                &&& 0 <= col < 9
                &&& #[trigger] box_of(box_first_row(b) + dr, box_first_col(b) + dc) == b
            },
{
    assert forall|row: int, col: int| 0 <= row < 9 && 0 <= col < 9 implies {
        let b = #[trigger] box_of(row, col);
        &&& 0 <= b < 9
        &&& row == box_first_row(b) + row % 3
        &&& col == box_first_col(b) + col % 3
    } by {
        assert(0 <= row / 3 < 3 && 0 <= col / 3 < 3);
        assert((row / 3 * 3 + col / 3) / 3 == row / 3) by (nonlinear_arith)
            requires 0 <= row / 3 < 3, 0 <= col / 3 < 3;
        assert((row / 3 * 3 + col / 3) % 3 == col / 3) by (nonlinear_arith)
            requires 0 <= row / 3 < 3, 0 <= col / 3 < 3;
    }
    assert forall|b: int, dr: int, dc: int| 0 <= b < 9 && 0 <= dr < 3 && 0 <= dc < 3 implies {
        let row = box_first_row(b) + dr;
        let col = box_first_col(b) + dc;
        &&& 0 <= row < 9
        &&& 0 <= col < 9
        &&& #[trigger] box_of(box_first_row(b) + dr, box_first_col(b) + dc) == b
    } by {
        assert(0 <= b / 3 < 3 && 0 <= b % 3 < 3);
        assert((b / 3 * 3 + dr) / 3 == b / 3) by (nonlinear_arith)
            requires 0 <= b / 3 < 3, 0 <= dr < 3;
        assert((b % 3 * 3 + dc) / 3 == b % 3) by (nonlinear_arith)
            requires 0 <= b % 3 < 3, 0 <= dc < 3;
    }
}

/// The cells of one 3x3 box: the rows and columns it spans, each as a range
/// whose end is the last index of the band, and the values found in it.
#[derive(Debug)]
pub struct SubGrid {
    pub range_i: std::ops::Range<u8>,
    pub range_j: std::ops::Range<u8>,
    pub data: Vec<i64>,
}

impl SubGrid {
    /// The symbols absent from the box, in increasing order.
    pub fn get_missing_values(&self) -> (r: Vec<i64>)
        ensures
            strictly_increasing(r@),
            forall|v: i64| #[trigger] r@.contains(v) <==> is_symbol(v as int) && !self.data@.contains(v),
    {
        let mut results: Vec<i64> = Vec::new();
        let mut v: i64 = 1;
        while v <= 9
            invariant
                1 <= v <= 10,
                strictly_increasing(results@),
                forall|a: int| 0 <= a < results@.len() ==> results@[a] < v,
                forall|w: i64|
                    #[trigger] results@.contains(w) <==> 1 <= w < v && is_symbol(w as int)
                        && !self.data@.contains(w),
            decreases 10 - v,
        {
            let ghost before = results@;
            let absent = !holds(&self.data, v);
            if absent {
                results.push(v);
            }
            assert forall|w: i64| results@.contains(w) <==> before.contains(w) || (absent && w == v) by {
                if results@.contains(w) {
                    let a = choose|a: int| 0 <= a < results@.len() && results@[a] == w;
                    if a < before.len() {
                        assert(before[a] == w);
                    }
                }
                if before.contains(w) {
                    let a = choose|a: int| 0 <= a < before.len() && before[a] == w;
                    assert(results@[a] == w);
                }
                if absent && w == v {
                    assert(results@[before.len() as int] == v);
                }
            }
            assert forall|w: i64| before.contains(w) implies w < v by {
                let a = choose|a: int| 0 <= a < before.len() && before[a] == w;
            }
            assert(absent == !self.data@.contains(v));
            assert forall|w: i64|
                #[trigger] results@.contains(w) <==> 1 <= w < v + 1 && is_symbol(w as int)
                    && !self.data@.contains(w) by {
                assert(results@.contains(w) <==> before.contains(w) || (absent && w == v));
                assert(before.contains(w) <==> 1 <= w < v && is_symbol(w as int)
                    && !self.data@.contains(w));
            }
            v = v + 1;
        }
        results
    }
}

/// The elements of the increasing sequence `values` that `excluded` lacks, in
/// their order.
pub fn retain_absent(values: &Vec<i64>, excluded: &Vec<i64>) -> (r: Vec<i64>)
    requires
        strictly_increasing(values@),
    ensures
        strictly_increasing(r@),
        forall|v: i64| #[trigger] r@.contains(v) <==> values@.contains(v) && !excluded@.contains(v),
{
    let mut out: Vec<i64> = Vec::new();
    let mut k: usize = 0;
    while k < values.len()
        invariant
            k <= values.len(),
            strictly_increasing(values@),
            strictly_increasing(out@),
            k == 0 ==> out@.len() == 0,
            k > 0 ==> forall|a: int| 0 <= a < out@.len() ==> out@[a] <= values@[k - 1],
            forall|v: i64|
                #[trigger] out@.contains(v) <==> values@.take(k as int).contains(v)
                    && !excluded@.contains(v),
        decreases values.len() - k,
    {
        let v = values[k];
        let ghost before = out@;
        let absent = !holds(excluded, v);
        if absent {
            assert forall|a: int| 0 <= a < before.len() implies before[a] < v by {
                assert(values@[k - 1] < v);
            }
            out.push(v);
        }
        assert forall|w: i64| out@.contains(w) <==> before.contains(w) || (absent && w == v) by {
            if out@.contains(w) {
                let a = choose|a: int| 0 <= a < out@.len() && out@[a] == w;
                if a < before.len() {
                    assert(before[a] == w);
                }
            }
            if before.contains(w) {
                let a = choose|a: int| 0 <= a < before.len() && before[a] == w;
                assert(out@[a] == w);
            }
            if absent && w == v {
                assert(out@[before.len() as int] == v);
            }
        }
        let ghost t0 = values@.take(k as int);
        let ghost t1 = values@.take(k + 1);
        assert forall|w: i64| t1.contains(w) <==> t0.contains(w) || w == v by {
            if t1.contains(w) {
                let a = choose|a: int| 0 <= a < t1.len() && t1[a] == w;
                if a < k {
                    assert(t0[a] == w);
                }
            }
            if t0.contains(w) {
                let a = choose|a: int| 0 <= a < t0.len() && t0[a] == w;
                assert(t1[a] == w);
            }
            if w == v {
                assert(t1[k as int] == w);
            }
        }
        assert forall|w: i64|
            #[trigger] out@.contains(w) <==> t1.contains(w) && !excluded@.contains(w) by {
            assert(out@.contains(w) <==> before.contains(w) || (absent && w == v));
            assert(before.contains(w) <==> t0.contains(w) && !excluded@.contains(w));
        }
        k = k + 1;
    }
    assert(values@.take(values@.len() as int) == values@);
    out
}

} // verus!
