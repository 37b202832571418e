//! The constraint validator: row, column and 3x3-block membership checks
//! and the combined placement-legality predicate.

use vstd::prelude::*;

use crate::board::at_xy;
use crate::board::SudokuBoard;

verus! {

/// Row `y` holds `val` somewhere.
pub open spec fn row_has(v: Seq<u8>, y: int, val: u8) -> bool {
    exists|x: int| 0 <= x < 9 && #[trigger] at_xy(v, x, y) == val
}

/// Column `x` holds `val` somewhere.
pub open spec fn col_has(v: Seq<u8>, x: int, val: u8) -> bool {
    exists|y: int| 0 <= y < 9 && #[trigger] at_xy(v, x, y) == val
}

/// The 3x3 block containing `(x, y)` holds `val` somewhere.
pub open spec fn block_has(v: Seq<u8>, x: int, y: int, val: u8) -> bool {
    exists|x2: int, y2: int|
        0 <= x2 < 9 && 0 <= y2 < 9 && x2 / 3 == x / 3 && y2 / 3 == y / 3
            && #[trigger] at_xy(v, x2, y2) == val
}

/// Placing `val` at `(x, y)` breaks no row, column or block constraint.
pub open spec fn move_ok(v: Seq<u8>, x: int, y: int, val: u8) -> bool {
    &&& !row_has(v, y, val)
    &&& !col_has(v, x, val)
    &&& !block_has(v, x, y, val)
}

/// Two distinct in-range cells lie in a common row, column or 3x3 block.
pub open spec fn shares_unit(x1: int, y1: int, x2: int, y2: int) -> bool {
    ||| y1 == y2
    ||| x1 == x2
    ||| (x1 / 3 == x2 / 3 && y1 / 3 == y2 / 3)
}

/// No row, column or block holds the same non-zero digit twice.
pub open spec fn no_duplicates(v: Seq<u8>) -> bool {
    forall|x1: int, y1: int, x2: int, y2: int|
        0 <= x1 < 9 && 0 <= y1 < 9 && 0 <= x2 < 9 && 0 <= y2 < 9
            && !(x1 == x2 && y1 == y2) && shares_unit(x1, y1, x2, y2)
            && #[trigger] at_xy(v, x1, y1) != 0
            ==> at_xy(v, x1, y1) != #[trigger] at_xy(v, x2, y2)
}

impl SudokuBoard {
    /// Whether row `y` already holds `value`.
    pub fn is_in_row(&self, y: usize, value: u8) -> (r: bool)
        requires
            self.wf(),
            y < 9,
        ensures
            r == row_has(self.values(), y as int, value),
    {
        let mut x: usize = 0;
        while x < 9
            invariant
                self.wf(),
                y < 9,
                x <= 9,
                forall|x2: int| 0 <= x2 < x ==> #[trigger] at_xy(self.values(), x2, y as int) != value,
            decreases 9 - x,
        {
            if self.get_field(x, y) == value {
                return true;
            }
            x = x + 1;
        }
        false
    }

    /// Whether column `x` already holds `value`.
    pub fn is_in_col(&self, x: usize, value: u8) -> (r: bool)
        requires
            self.wf(),
            x < 9,
        ensures
            r == col_has(self.values(), x as int, value),
    {
        let mut y: usize = 0;
        while y < 9
            invariant
                self.wf(),
                x < 9,
                y <= 9,
                forall|y2: int| 0 <= y2 < y ==> #[trigger] at_xy(self.values(), x as int, y2) != value,
            decreases 9 - y,
        {
            if self.get_field(x, y) == value {
                return true;
            }
            y = y + 1;
        }
        false
    }

    /// Whether the 3x3 block containing `(x, y)` already holds `value`.
    pub fn is_in_block(&self, x: usize, y: usize, value: u8) -> (r: bool)
        requires
            self.wf(),
            x < 9,
            y < 9,
        ensures
            r == block_has(self.values(), x as int, y as int, value),
    {
        let start_x = x - x % 3;
        let start_y = y - y % 3;
        proof {
            lemma_block_base(x as int);
            lemma_block_base(y as int);
        }
        let mut j: usize = 0;
        while j < 3
            invariant
                self.wf(),
                x < 9,
                y < 9,
                start_x == 3 * ((x as int) / 3),
                start_y == 3 * ((y as int) / 3),
                j <= 3,
                forall|x2: int, y2: int|
                    start_x <= x2 < start_x + 3 && start_y <= y2 < start_y + j
                        ==> #[trigger] at_xy(self.values(), x2, y2) != value,
            decreases 3 - j,
        {
            let mut i: usize = 0;
            while i < 3
                invariant
                    self.wf(),
                    x < 9,
                    y < 9,
                    start_x == 3 * ((x as int) / 3),
                    start_y == 3 * ((y as int) / 3),
                    j < 3,
                    i <= 3,
                    forall|x2: int, y2: int|
                        start_x <= x2 < start_x + 3 && start_y <= y2 < start_y + j
                            ==> #[trigger] at_xy(self.values(), x2, y2) != value,
                    forall|x2: int|
                        start_x <= x2 < start_x + i
                            ==> #[trigger] at_xy(self.values(), x2, start_y + j) != value,
                decreases 3 - i,
            {
                if self.get_field(start_x + i, start_y + j) == value {
                    proof {
                        lemma_same_block(x as int, (start_x + i) as int);
                        lemma_same_block(y as int, (start_y + j) as int);
                    }
                    return true;
                }
                i = i + 1;
            }
            j = j + 1;
        }
        proof {
            assert forall|x2: int, y2: int|
                0 <= x2 < 9 && 0 <= y2 < 9 && x2 / 3 == (x as int) / 3 && y2 / 3 == (y as int) / 3
                    implies #[trigger] at_xy(self.values(), x2, y2) != value by {
                lemma_block_span(x as int, x2);
                lemma_block_span(y as int, y2);
            }
        }
        false
    }

    /// Whether placing `value` at `(x, y)` would satisfy every Sudoku
    /// constraint against the current board contents.
    pub fn is_valid_move(&self, x: usize, y: usize, value: u8) -> (r: bool)
        requires
            self.wf(),
            x < 9,
            y < 9,
            1 <= value <= 9,
        ensures
            r == move_ok(self.values(), x as int, y as int, value),
    {
        if !self.is_in_row(y, value) && !self.is_in_col(x, value) && !self.is_in_block(x, y, value) {
            return true;
        }
        false
    }
}

/// Rounding an in-range coordinate down by its remainder lands on three
/// times its block number.
proof fn lemma_block_base(c: int)
    requires
        0 <= c < 9,
    ensures
        c - c % 3 == 3 * (c / 3),
        0 <= 3 * (c / 3) <= 6,
{
}

/// Every cell of the scanned block window shares the block number of the
/// probe coordinate.
proof fn lemma_same_block(c: int, c2: int)
    requires
        0 <= c < 9,
        3 * (c / 3) <= c2 < 3 * (c / 3) + 3,
    ensures
        c2 / 3 == c / 3,
{
}

/// Conversely, a coordinate with the probe's block number lies in the
/// scanned block window.
proof fn lemma_block_span(c: int, c2: int)
    requires
        0 <= c < 9,
        0 <= c2 < 9,
        c2 / 3 == c / 3,
    ensures
        3 * (c / 3) <= c2 < 3 * (c / 3) + 3,
{
}

} // verus!
