use vstd::prelude::*;

verus! {

/// One position of the grid: its coordinates, its value (absent while
/// unfilled) and whether the value came from the initial puzzle.
#[derive(Debug, Clone, Copy, PartialEq, Eq, Structural)]
pub struct ValueCell {
    pub i: u8,
    pub j: u8,
    pub value: Option<i64>,
    pub initial: bool,
}

/// Why a write to the grid was refused.
#[derive(Debug, Clone, Copy, PartialEq, Eq, Structural)]
pub enum GridError {
    /// A coordinate is outside `0..9` or a value outside `1..=9`.
    OutOfRange,
    /// The cell already holds a value from the initial puzzle.
    AlreadyFixed,
    /// The cell already holds a value, fixed or deduced.
    AlreadyFilled,
}

/// A symbol of the grid's alphabet.
pub open spec fn is_symbol(v: int) -> bool {
    1 <= v <= 9
}

/// Each element of `s` is smaller than the next.
pub open spec fn strictly_increasing(s: Seq<i64>) -> bool {
    forall|a: int, b: int| 0 <= a < b < s.len() ==> s[a] < s[b]
}

/// Whether `v` occurs in `values`.
pub fn holds(values: &Vec<i64>, v: i64) -> (r: bool)
    ensures
        r == values@.contains(v),
{
    let mut k: usize = 0;
    while k < values.len()
        invariant
            k <= values.len(),
            forall|m: int| 0 <= m < k ==> values@[m] != v,
        decreases values.len() - k,
    {
        if values[k] == v {
            return true;
        }
        k = k + 1;
    }
    false
}

impl ValueCell {
    /// A cell is sound when its value is a symbol and a fixed cell is filled.
    pub open spec fn sound(&self) -> bool {
        &&& (self.value matches Some(v) ==> is_symbol(v as int))
        &&& (self.initial ==> self.value is Some)
    }

    /// The same cell holding `value`, with `initial` as its fixed flag.
    pub open spec fn holding(&self, value: Option<i64>, initial: bool) -> ValueCell {
        ValueCell { i: self.i, j: self.j, value, initial }
    }

    pub fn init_value(&mut self, value: Option<i64>, initial: bool)
        ensures
            *final(self) == old(self).holding(value, initial),
    {
        self.value = value;
        self.initial = initial;
    }
}

} // verus!
