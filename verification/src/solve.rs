//! The solver: exhaustive backtracking over the first empty cell in
//! row-major scan order, trying candidate digits in ascending order.
//!
//! `solve` reports true exactly when the board as found admits a legal
//! completion; on success the board holds one, on failure it is left
//! exactly as found.

use vstd::prelude::*;

use crate::board::at_xy;
use crate::board::lemma_at_xy_update;
use crate::board::SudokuBoard;
use crate::decode::decoded_values;
use crate::decode::template_no_duplicates;
use crate::decode::template_ok;
use crate::rules::block_has;
use crate::rules::col_has;
use crate::rules::move_ok;
use crate::rules::no_duplicates;
use crate::rules::row_has;
use crate::rules::shares_unit;
use crate::transform::lemma_transformed_no_duplicates;
use crate::transform::transformed;

verus! {

/// Every cell holds a non-zero digit.
pub open spec fn board_complete(v: Seq<u8>) -> bool {
    forall|x: int, y: int| 0 <= x < 9 && 0 <= y < 9 ==> #[trigger] at_xy(v, x, y) != 0
}

/// `s` keeps every non-zero cell of `orig` as it is.
pub open spec fn keeps_givens(orig: Seq<u8>, s: Seq<u8>) -> bool {
    forall|x: int, y: int|
        0 <= x < 9 && 0 <= y < 9 && at_xy(orig, x, y) != 0
            ==> #[trigger] at_xy(s, x, y) == at_xy(orig, x, y)
}

/// No two distinct cells of a common unit agree in `s` when at least one
/// of them was empty in `orig`: every filled-in digit respects the row,
/// column and block constraints against everything around it.
pub open spec fn fills_legally(orig: Seq<u8>, s: Seq<u8>) -> bool {
    forall|x1: int, y1: int, x2: int, y2: int|
        0 <= x1 < 9 && 0 <= y1 < 9 && 0 <= x2 < 9 && 0 <= y2 < 9
            && !(x1 == x2 && y1 == y2) && shares_unit(x1, y1, x2, y2)
            && (at_xy(orig, x1, y1) == 0 || at_xy(orig, x2, y2) == 0)
            ==> #[trigger] at_xy(s, x1, y1) != #[trigger] at_xy(s, x2, y2)
}

/// A legal completion of `orig`: the givens are kept, every cell is
/// filled, every filled-in cell holds a digit, and no filled-in digit
/// clashes with its row, column or block.
pub open spec fn is_solution(orig: Seq<u8>, s: Seq<u8>) -> bool {
    &&& orig.len() == 81
    &&& s.len() == 81
    &&& keeps_givens(orig, s)
    &&& board_complete(s)
    &&& forall|x: int, y: int|
        0 <= x < 9 && 0 <= y < 9 && at_xy(orig, x, y) == 0 ==> 1 <= #[trigger] at_xy(s, x, y) <= 9
    &&& fills_legally(orig, s)
}

/// How many cells are still empty.
pub open spec fn count_zeros(v: Seq<u8>) -> nat
    decreases v.len(),
{
    if v.len() == 0 {
        0
    } else {
        count_zeros(v.drop_last()) + if v.last() == 0 {
            1nat
        } else {
            0nat
        }
    }
}

/// Filling one empty cell with a digit leaves one fewer empty cell.
proof fn lemma_count_zeros_update(v: Seq<u8>, i: int, d: u8)
    requires
        0 <= i < v.len(),
        v[i] == 0,
        d != 0,
    ensures
        count_zeros(v.update(i, d)) + 1 == count_zeros(v),
    decreases v.len(),
{
    let w = v.update(i, d);
    if i == v.len() - 1 {
        assert(w.drop_last() =~= v.drop_last());
    } else {
        assert(w.drop_last() =~= v.drop_last().update(i, d));
        lemma_count_zeros_update(v.drop_last(), i, d);
    }
}

/// A complete board is its own legal completion, whatever its contents:
/// with no empty cells there is nothing to keep legal.
pub proof fn lemma_complete_is_solution(v: Seq<u8>)
    requires
        v.len() == 81,
        board_complete(v),
    ensures
        is_solution(v, v),
{
}

/// The only legal completion of a complete board is the board itself, so
/// re-running the solver on a solved board succeeds and changes nothing.
pub proof fn lemma_solve_noop_on_complete(v: Seq<u8>, s: Seq<u8>)
    requires
        v.len() == 81,
        board_complete(v),
        is_solution(v, s),
    ensures
        s == v,
{
    assert forall|i: int| 0 <= i < 81 implies s[i] == v[i] by {
        let x = i / 9;
        let y = i % 9;
        assert(0 <= x < 9 && 0 <= y < 9 && x * 9 + y == i) by (nonlinear_arith)
            requires
                0 <= i < 81 && x == i / 9 && y == i % 9,
        ;
        assert(at_xy(s, x, y) == at_xy(v, x, y));
    }
    assert(s =~= v);
}

/// If a digit was legal in `orig` at an empty cell, any legal completion
/// of the board with that digit placed is also a legal completion of
/// `orig`.
proof fn lemma_solution_lift(orig: Seq<u8>, mid: Seq<u8>, s: Seq<u8>, x: int, y: int, d: u8)
    requires
        orig.len() == 81,
        0 <= x < 9,
        0 <= y < 9,
        at_xy(orig, x, y) == 0,
        1 <= d <= 9,
        move_ok(orig, x, y, d),
        mid == orig.update(x * 9 + y, d),
        is_solution(mid, s),
    ensures
        is_solution(orig, s),
{
    lemma_at_xy_update(orig, x, y, d);
    assert(keeps_givens(orig, s));
    assert forall|x1: int, y1: int, x2: int, y2: int|
        0 <= x1 < 9 && 0 <= y1 < 9 && 0 <= x2 < 9 && 0 <= y2 < 9
            && !(x1 == x2 && y1 == y2) && shares_unit(x1, y1, x2, y2)
            && (at_xy(orig, x1, y1) == 0 || at_xy(orig, x2, y2) == 0)
            implies #[trigger] at_xy(s, x1, y1) != #[trigger] at_xy(s, x2, y2) by {
        if at_xy(mid, x1, y1) == 0 || at_xy(mid, x2, y2) == 0 {
            // the pair still counts as filled-in for `mid`
        } else if x1 == x && y1 == y {
            // (x1, y1) is the newly placed cell; (x2, y2) kept its `orig`
            // value, and the placement was checked against it
            assert(at_xy(orig, x2, y2) != 0);
            assert(at_xy(s, x2, y2) == at_xy(orig, x2, y2));
            assert(at_xy(s, x1, y1) == d);
            assert(at_xy(orig, x2, y2) != d);
        } else {
            assert(x2 == x && y2 == y);
            assert(at_xy(orig, x1, y1) != 0);
            assert(at_xy(s, x1, y1) == at_xy(orig, x1, y1));
            assert(at_xy(s, x2, y2) == d);
            assert(at_xy(orig, x1, y1) != d);
        }
    }
}

/// Conversely, a legal completion of `orig` that places `d` at an empty
/// cell is a legal completion of the board with `d` already placed there.
proof fn lemma_solution_restrict(orig: Seq<u8>, mid: Seq<u8>, s: Seq<u8>, x: int, y: int, d: u8)
    requires
        orig.len() == 81,
        0 <= x < 9,
        0 <= y < 9,
        at_xy(orig, x, y) == 0,
        1 <= d <= 9,
        mid == orig.update(x * 9 + y, d),
        is_solution(orig, s),
        at_xy(s, x, y) == d,
    ensures
        is_solution(mid, s),
{
    lemma_at_xy_update(orig, x, y, d);
}

/// A digit that clashes with the current board at an empty cell appears in
/// no legal completion at that cell.
proof fn lemma_blocked_digit(orig: Seq<u8>, s: Seq<u8>, x: int, y: int, d: u8)
    requires
        is_solution(orig, s),
        0 <= x < 9,
        0 <= y < 9,
        at_xy(orig, x, y) == 0,
        1 <= d <= 9,
        !move_ok(orig, x, y, d),
    ensures
        at_xy(s, x, y) != d,
{
    if row_has(orig, y, d) {
        let x2 = choose|x2: int| 0 <= x2 < 9 && #[trigger] at_xy(orig, x2, y) == d;
        assert(at_xy(s, x2, y) == d);
        assert(at_xy(s, x, y) != at_xy(s, x2, y));
    } else if col_has(orig, x, d) {
        let y2 = choose|y2: int| 0 <= y2 < 9 && #[trigger] at_xy(orig, x, y2) == d;
        assert(at_xy(s, x, y2) == d);
        assert(at_xy(s, x, y) != at_xy(s, x, y2));
    } else {
        let (x2, y2) = choose|x2: int, y2: int|
            0 <= x2 < 9 && 0 <= y2 < 9 && x2 / 3 == x / 3 && y2 / 3 == y / 3
                && #[trigger] at_xy(orig, x2, y2) == d;
        assert(at_xy(s, x2, y2) == d);
        assert(shares_unit(x, y, x2, y2));
        assert(at_xy(s, x, y) != at_xy(s, x2, y2));
    }
}

/// If the starting board satisfies every constraint, so does each of its
/// legal completions: a successful solve of a freshly decoded and
/// transformed board meets the full row, column and block uniqueness
/// rules.
pub proof fn lemma_solution_no_duplicates(orig: Seq<u8>, s: Seq<u8>)
    requires
        no_duplicates(orig),
        is_solution(orig, s),
    ensures
        no_duplicates(s),
{
    assert forall|x1: int, y1: int, x2: int, y2: int|
        0 <= x1 < 9 && 0 <= y1 < 9 && 0 <= x2 < 9 && 0 <= y2 < 9
            && !(x1 == x2 && y1 == y2) && shares_unit(x1, y1, x2, y2)
            && #[trigger] at_xy(s, x1, y1) != 0
            implies at_xy(s, x1, y1) != #[trigger] at_xy(s, x2, y2) by {
        if at_xy(orig, x1, y1) != 0 && at_xy(orig, x2, y2) != 0 {
            assert(at_xy(s, x1, y1) == at_xy(orig, x1, y1));
            assert(at_xy(s, x2, y2) == at_xy(orig, x2, y2));
        }
    }
}

/// A legal completion of a freshly decoded and reoriented template board
/// is complete and satisfies the full uniqueness constraints: templates
/// without repeated unit letters stay duplicate-free through decoding,
/// through every symmetry transform, and through solving.
pub proof fn lemma_solved_board_valid(t: Seq<u8>, a: int, m: int, s: Seq<u8>)
    requires
        template_ok(t),
        template_no_duplicates(t),
        0 <= a < 10,
        is_solution(transformed(decoded_values(t, a), m), s),
    ensures
        board_complete(s),
        no_duplicates(s),
{
    crate::decode::lemma_decode_no_duplicates(t, a);
    lemma_transformed_no_duplicates(decoded_values(t, a), m);
    lemma_solution_no_duplicates(transformed(decoded_values(t, a), m), s);
}

/// `(x2, y2)` is visited before `(x, y)` in the solver's scan order: row
/// by row from the top, left to right within a row.
pub open spec fn scanned_before(x2: int, y2: int, x: int, y: int) -> bool {
    y2 < y || (y2 == y && x2 < x)
}

impl SudokuBoard {
    /// The first empty cell in scan order, or `None` on a complete board.
    pub fn next_empty_field(&self) -> (r: Option<(usize, usize)>)
        requires
            self.wf(),
        ensures
            match r {
                Some(p) => {
                    &&& p.0 < 9
                    &&& p.1 < 9
                    &&& self.value_at(p.0 as int, p.1 as int) == 0
                    &&& forall|x2: int, y2: int|
                        0 <= x2 < 9 && 0 <= y2 < 9 && scanned_before(x2, y2, p.0 as int, p.1 as int)
                            ==> #[trigger] self.value_at(x2, y2) != 0
                },
                None => board_complete(self.values()),
            },
    {
        let mut col: usize = 0;
        while col < 9
            invariant
                self.wf(),
                col <= 9,
                forall|x2: int, y2: int|
                    0 <= x2 < 9 && 0 <= y2 < col ==> #[trigger] self.value_at(x2, y2) != 0,
            decreases 9 - col,
        {
            let mut row: usize = 0;
            while row < 9
                invariant
                    self.wf(),
                    col < 9,
                    row <= 9,
                    forall|x2: int, y2: int|
                        0 <= x2 < 9 && 0 <= y2 < col ==> #[trigger] self.value_at(x2, y2) != 0,
                    forall|x2: int|
                        0 <= x2 < row ==> #[trigger] self.value_at(x2, col as int) != 0,
                decreases 9 - row,
            {
                if self.get_field(row, col) == 0 {
                    return Some((row, col));
                }
                row = row + 1;
            }
            col = col + 1;
        }
        proof {
            assert forall|x: int, y: int| 0 <= x < 9 && 0 <= y < 9 implies #[trigger] at_xy(
                self.values(),
                x,
                y,
            ) != 0 by {
                assert(self.value_at(x, y) != 0);
            }
        }
        None
    }

    /// Fill every empty cell by exhaustive backtracking. Returns true
    /// exactly when the board as found admits a legal completion; the
    /// board then holds one, with every given cell kept. Returns false on
    /// an unsolvable board, leaving it exactly as found. Both flag planes
    /// are never touched.
    pub fn solve(&mut self) -> (r: bool)
        requires
            old(self).wf(),
        ensures
            final(self).wf(),
            final(self).editables() == old(self).editables(),
            final(self).valids() == old(self).valids(),
            r ==> is_solution(old(self).values(), final(self).values()),
            !r ==> final(self).values() == old(self).values(),
            !r ==> forall|s: Seq<u8>| !#[trigger] is_solution(old(self).values(), s),
        decreases count_zeros(old(self).values()),
    {
        let first_empty = self.next_empty_field();
        match first_empty {
            None => {
                proof {
                    lemma_complete_is_solution(self.values());
                }
                true
            },
            Some((row, col)) => {
                let ghost v0 = self.values();
                let ghost e0 = self.editables();
                let ghost va0 = self.valids();
                let mut value: u8 = 1;
                while value <= 9
                    invariant
                        self.wf(),
                        row < 9,
                        col < 9,
                        1 <= value <= 10,
                        self.values() == v0,
                        self.editables() == e0,
                        self.valids() == va0,
                        v0.len() == 81,
                        at_xy(v0, row as int, col as int) == 0,
                        v0 == old(self).values(),
                        e0 == old(self).editables(),
                        va0 == old(self).valids(),
                        forall|s: Seq<u8>|
                            #[trigger] is_solution(v0, s)
                                ==> at_xy(s, row as int, col as int) >= value,
                    decreases 10 - value,
                {
                    if self.is_valid_move(row, col, value) {
                        self.set_field(row, col, value);
                        let ghost mid = self.values();
                        proof {
                            lemma_count_zeros_update(v0, row * 9 + col, value);
                        }
                        let solved = self.solve();
                        if solved {
                            proof {
                                lemma_solution_lift(
                                    v0,
                                    mid,
                                    self.values(),
                                    row as int,
                                    col as int,
                                    value,
                                );
                            }
                            return true;
                        }
                        self.set_field(row, col, 0);
                        proof {
                            lemma_at_xy_update(v0, row as int, col as int, value);
                            assert(self.values() =~= v0);
                            assert forall|s: Seq<u8>| #[trigger] is_solution(v0, s)
                                implies at_xy(s, row as int, col as int) != value by {
                                if at_xy(s, row as int, col as int) == value {
                                    lemma_solution_restrict(
                                        v0,
                                        mid,
                                        s,
                                        row as int,
                                        col as int,
                                        value,
                                    );
                                }
                            }
                        }
                    } else {
                        proof {
                            assert forall|s: Seq<u8>| #[trigger] is_solution(v0, s)
                                implies at_xy(s, row as int, col as int) != value by {
                                lemma_blocked_digit(v0, s, row as int, col as int, value);
                            }
                        }
                    }
                    value = value + 1;
                }
                proof {
                    assert forall|s: Seq<u8>| !#[trigger] is_solution(v0, s) by {
                        if is_solution(v0, s) {
                            assert(1 <= at_xy(s, row as int, col as int) <= 9);
                        }
                    }
                }
                false
            },
        }
    }
}

} // verus!
