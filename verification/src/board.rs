//! The grid store: a 9x9 board of cell values with per-cell editable and
//! validity flags, held as three flat 81-entry vectors indexed by
//! `x * 9 + y` for column `x` and row `y`.

use vstd::prelude::*;

verus! {

/// The spec-level cell accessor for a flat 81-entry column-major sequence.
pub open spec fn at_xy<T>(s: Seq<T>, x: int, y: int) -> T {
    s[x * 9 + y]
}

/// A 9x9 Sudoku board: each cell carries its digit (0 for empty), whether
/// the player may edit it, and whether its last placement was legal.
#[derive(Clone, Debug)]
pub struct SudokuBoard {
    board: Vec<u8>,
    editable: Vec<bool>,
    valid: Vec<bool>,
}

impl SudokuBoard {
    /// The 81 cell values, indexed by `x * 9 + y`.
    pub closed spec fn values(self) -> Seq<u8> {
        self.board@
    }

    /// The 81 editable flags, indexed by `x * 9 + y`.
    pub closed spec fn editables(self) -> Seq<bool> {
        self.editable@
    }

    /// The 81 validity flags, indexed by `x * 9 + y`.
    pub closed spec fn valids(self) -> Seq<bool> {
        self.valid@
    }

    /// Well-formed: all three flag planes hold exactly 81 cells and every
    /// cell value is a digit in `0 ..= 9`.
    pub open spec fn wf(self) -> bool {
        &&& self.values().len() == 81
        &&& self.editables().len() == 81
        &&& self.valids().len() == 81
        &&& forall|i: int| 0 <= i < 81 ==> self.values()[i] <= 9
    }

    pub open spec fn value_at(self, x: int, y: int) -> u8 {
        at_xy(self.values(), x, y)
    }

    pub open spec fn editable_at(self, x: int, y: int) -> bool {
        at_xy(self.editables(), x, y)
    }

    pub open spec fn valid_at(self, x: int, y: int) -> bool {
        at_xy(self.valids(), x, y)
    }

    /// The full (value, editable, valid) triple of one cell.
    pub open spec fn cell(self, x: int, y: int) -> (u8, bool, bool) {
        (self.value_at(x, y), self.editable_at(x, y), self.valid_at(x, y))
    }

    /// A board of 81 empty, non-editable, non-validated cells.
    pub fn new() -> (s: SudokuBoard)
        ensures
            s.wf(),
            forall|x: int, y: int| 0 <= x < 9 && 0 <= y < 9 ==> #[trigger] s.value_at(x, y) == 0,
            forall|x: int, y: int| 0 <= x < 9 && 0 <= y < 9 ==> !#[trigger] s.editable_at(x, y),
            forall|x: int, y: int| 0 <= x < 9 && 0 <= y < 9 ==> !#[trigger] s.valid_at(x, y),
    {
        let mut board: Vec<u8> = Vec::new();
        let mut editable: Vec<bool> = Vec::new();
        let mut valid: Vec<bool> = Vec::new();
        let mut i: usize = 0;
        while i < 81
            invariant
                i <= 81,
                board@.len() == i,
                editable@.len() == i,
                valid@.len() == i,
                forall|j: int| 0 <= j < i ==> board@[j] == 0,
                forall|j: int| 0 <= j < i ==> !editable@[j],
                forall|j: int| 0 <= j < i ==> !valid@[j],
            decreases 81 - i,
        {
            board.push(0);
            editable.push(false);
            valid.push(false);
            i = i + 1;
        }
        SudokuBoard { board, editable, valid }
    }

    /// Empty every cell and drop both flags everywhere.
    pub fn clear(&mut self)
        requires
            old(self).wf(),
        ensures
            final(self).wf(),
            forall|x: int, y: int|
                0 <= x < 9 && 0 <= y < 9 ==> #[trigger] final(self).value_at(x, y) == 0,
            forall|x: int, y: int|
                0 <= x < 9 && 0 <= y < 9 ==> !#[trigger] final(self).editable_at(x, y),
            forall|x: int, y: int|
                0 <= x < 9 && 0 <= y < 9 ==> !#[trigger] final(self).valid_at(x, y),
    {
        let mut i: usize = 0;
        while i < 81
            invariant
                i <= 81,
                self.board@.len() == 81,
                self.editable@.len() == 81,
                self.valid@.len() == 81,
                forall|j: int| 0 <= j < i ==> self.board@[j] == 0,
                forall|j: int| 0 <= j < i ==> !self.editable@[j],
                forall|j: int| 0 <= j < i ==> !self.valid@[j],
            decreases 81 - i,
        {
            self.board[i] = 0;
            self.editable[i] = false;
            self.valid[i] = false;
            i = i + 1;
        }
    }

    /// Put the board back to its starting position: empty every editable
    /// cell, keep every given cell, and drop all validity flags.
    pub fn reset(&mut self)
        requires
            old(self).wf(),
        ensures
            final(self).wf(),
            final(self).editables() == old(self).editables(),
            forall|i: int| 0 <= i < 81 ==> !final(self).valids()[i],
            forall|i: int|
                0 <= i < 81 ==> final(self).values()[i] == (if old(self).editables()[i] {
                    0u8
                } else {
                    old(self).values()[i]
                }),
    {
        let mut i: usize = 0;
        while i < 81
            invariant
                i <= 81,
                self.board@.len() == 81,
                self.editable@.len() == 81,
                self.valid@.len() == 81,
                self.editable@ == old(self).editable@,
                forall|j: int| i <= j < 81 ==> self.board@[j] == old(self).board@[j],
                forall|j: int|
                    0 <= j < i ==> self.board@[j] == (if old(self).editable@[j] {
                        0u8
                    } else {
                        old(self).board@[j]
                    }),
                forall|j: int| 0 <= j < i ==> !self.valid@[j],
                forall|j: int| 0 <= j < 81 ==> self.board@[j] <= 9,
            decreases 81 - i,
        {
            if self.editable[i] {
                self.board[i] = 0;
            }
            self.valid[i] = false;
            i = i + 1;
        }
    }

    /// Read one cell's value.
    pub fn get_field(&self, x: usize, y: usize) -> (v: u8)
        requires
            self.wf(),
            x < 9,
            y < 9,
        ensures
            v == self.value_at(x as int, y as int),
    {
        self.board[x * 9 + y]
    }

    /// Write one cell's value, leaving every other cell and both flag
    /// planes untouched.
    pub fn set_field(&mut self, x: usize, y: usize, value: u8)
        requires
            old(self).wf(),
            x < 9,
            y < 9,
            value <= 9,
        ensures
            final(self).wf(),
            final(self).values() == old(self).values().update(x * 9 + y, value),
            final(self).value_at(x as int, y as int) == value,
            forall|x2: int, y2: int|
                0 <= x2 < 9 && 0 <= y2 < 9 && !(x2 == x && y2 == y)
                    ==> final(self).value_at(x2, y2) == old(self).value_at(x2, y2),
            final(self).editables() == old(self).editables(),
            final(self).valids() == old(self).valids(),
    {
        self.board[x * 9 + y] = value;
        proof {
            lemma_at_xy_update(old(self).board@, x as int, y as int, value);
        }
    }

    /// Mark the most recent placement into a cell as legal.
    pub fn set_as_valid(&mut self, x: usize, y: usize)
        requires
            old(self).wf(),
            x < 9,
            y < 9,
        ensures
            final(self).wf(),
            final(self).valids() == old(self).valids().update(x * 9 + y, true),
            final(self).valid_at(x as int, y as int),
            forall|x2: int, y2: int|
                0 <= x2 < 9 && 0 <= y2 < 9 && !(x2 == x && y2 == y)
                    ==> final(self).valid_at(x2, y2) == old(self).valid_at(x2, y2),
            final(self).values() == old(self).values(),
            final(self).editables() == old(self).editables(),
    {
        self.valid[x * 9 + y] = true;
        proof {
            lemma_at_xy_update(old(self).valid@, x as int, y as int, true);
        }
    }

    /// Mark the most recent placement into a cell as illegal.
    pub fn set_as_invalid(&mut self, x: usize, y: usize)
        requires
            old(self).wf(),
            x < 9,
            y < 9,
        ensures
            final(self).wf(),
            final(self).valids() == old(self).valids().update(x * 9 + y, false),
            !final(self).valid_at(x as int, y as int),
            forall|x2: int, y2: int|
                0 <= x2 < 9 && 0 <= y2 < 9 && !(x2 == x && y2 == y)
                    ==> final(self).valid_at(x2, y2) == old(self).valid_at(x2, y2),
            final(self).values() == old(self).values(),
            final(self).editables() == old(self).editables(),
    {
        self.valid[x * 9 + y] = false;
        proof {
            lemma_at_xy_update(old(self).valid@, x as int, y as int, false);
        }
    }

    /// Whether the most recent placement into a cell was legal.
    pub fn was_valid(&self, x: usize, y: usize) -> (r: bool)
        requires
            self.wf(),
            x < 9,
            y < 9,
        ensures
            r == self.valid_at(x as int, y as int),
    {
        self.valid[x * 9 + y]
    }

    /// Whether a cell was empty in the starting puzzle, so the player may
    /// fill it.
    pub fn is_editable(&self, x: usize, y: usize) -> (r: bool)
        requires
            self.wf(),
            x < 9,
            y < 9,
        ensures
            r == self.editable_at(x as int, y as int),
    {
        self.editable[x * 9 + y]
    }

    /// Swap in freshly built flag planes.
    pub(crate) fn replace_planes(&mut self, board: Vec<u8>, editable: Vec<bool>, valid: Vec<bool>)
        ensures
            final(self).values() == board@,
            final(self).editables() == editable@,
            final(self).valids() == valid@,
    {
        self.board = board;
        self.editable = editable;
        self.valid = valid;
    }

    /// Repopulate the whole board from 81 ASCII digit characters laid out in
    /// row-major order: a cell becomes that digit, is editable exactly when
    /// the digit is zero, and loses its validity flag.
    pub(crate) fn install_digits(&mut self, digits: &[u8])
        requires
            digits@.len() >= 81,
            forall|i: int| 0 <= i < 81 ==> 48 <= #[trigger] digits@[i] <= 57,
        ensures
            final(self).wf(),
            final(self).values() == Seq::new(81, |i: int| (digits@[row_major(i)] - 48) as u8),
            final(self).editables() == Seq::new(81, |i: int| digits@[row_major(i)] == 48),
            final(self).valids() == Seq::new(81, |i: int| false),
    {
        let mut board: Vec<u8> = Vec::new();
        let mut editable: Vec<bool> = Vec::new();
        let mut valid: Vec<bool> = Vec::new();
        let mut x: usize = 0;
        while x < 9
            invariant
                x <= 9,
                digits@.len() >= 81,
                forall|i: int| 0 <= i < 81 ==> 48 <= #[trigger] digits@[i] <= 57,
                board@.len() == 9 * x,
                editable@.len() == 9 * x,
                valid@.len() == 9 * x,
                forall|j: int| 0 <= j < 9 * x ==> board@[j] == (digits@[row_major(j)] - 48) as u8,
                forall|j: int| 0 <= j < 9 * x ==> editable@[j] == (digits@[row_major(j)] == 48),
                forall|j: int| 0 <= j < 9 * x ==> !valid@[j],
            decreases 9 - x,
        {
            let mut y: usize = 0;
            while y < 9
                invariant
                    x < 9,
                    y <= 9,
                    digits@.len() >= 81,
                    forall|i: int| 0 <= i < 81 ==> 48 <= #[trigger] digits@[i] <= 57,
                    board@.len() == 9 * x + y,
                    editable@.len() == 9 * x + y,
                    valid@.len() == 9 * x + y,
                    forall|j: int|
                        0 <= j < 9 * x + y ==> board@[j] == (digits@[row_major(j)] - 48) as u8,
                    forall|j: int|
                        0 <= j < 9 * x + y ==> editable@[j] == (digits@[row_major(j)] == 48),
                    forall|j: int| 0 <= j < 9 * x + y ==> !valid@[j],
                decreases 9 - y,
            {
                proof {
                    lemma_row_major_of_coords(x as int, y as int);
                }
                let d = digits[y * 9 + x];
                board.push(d - 48);
                editable.push(d == 48);
                valid.push(false);
                y = y + 1;
            }
            x = x + 1;
        }
        self.board = board;
        self.editable = editable;
        self.valid = valid;
        proof {
            assert(final(self).values() =~= Seq::new(81, |i: int| (digits@[row_major(i)] - 48) as u8));
            assert(final(self).editables() =~= Seq::new(81, |i: int| digits@[row_major(i)] == 48));
            assert(final(self).valids() =~= Seq::new(81, |i: int| false));
        }
    }
}

impl Default for SudokuBoard {
    /// An all-empty board, as `new` returns.
    fn default() -> (s: Self)
        ensures
            s.wf(),
            forall|x: int, y: int| 0 <= x < 9 && 0 <= y < 9 ==> #[trigger] s.value_at(x, y) == 0,
            forall|x: int, y: int| 0 <= x < 9 && 0 <= y < 9 ==> !#[trigger] s.editable_at(x, y),
            forall|x: int, y: int| 0 <= x < 9 && 0 <= y < 9 ==> !#[trigger] s.valid_at(x, y),
    {
        SudokuBoard::new()
    }
}

/// The row-major position (the order records and templates are written in)
/// of the flat board index `i`.
pub open spec fn row_major(i: int) -> int {
    (i % 9) * 9 + i / 9
}

/// Flat indices are injective in the coordinates: distinct in-range
/// coordinate pairs never collide.
proof fn lemma_idx_injective(x1: int, y1: int, x2: int, y2: int)
    requires
        0 <= x1 < 9,
        0 <= y1 < 9,
        0 <= x2 < 9,
        0 <= y2 < 9,
        x1 * 9 + y1 == x2 * 9 + y2,
    ensures
        x1 == x2 && y1 == y2,
{
    assert((x1 - x2) * 9 == y2 - y1) by (nonlinear_arith)
        requires
            x1 * 9 + y1 == x2 * 9 + y2,
    ;
}

/// Updating the flat entry of one coordinate pair changes `at_xy` there and
/// nowhere else.
pub proof fn lemma_at_xy_update<T>(s: Seq<T>, x: int, y: int, v: T)
    requires
        s.len() == 81,
        0 <= x < 9,
        0 <= y < 9,
    ensures
        at_xy(s.update(x * 9 + y, v), x, y) == v,
        forall|x2: int, y2: int|
            0 <= x2 < 9 && 0 <= y2 < 9 && !(x2 == x && y2 == y)
                ==> at_xy(s.update(x * 9 + y, v), x2, y2) == at_xy(s, x2, y2),
{
    assert forall|x2: int, y2: int|
        0 <= x2 < 9 && 0 <= y2 < 9 && !(x2 == x && y2 == y)
            implies at_xy(s.update(x * 9 + y, v), x2, y2) == at_xy(s, x2, y2) by {
        if x2 * 9 + y2 == x * 9 + y {
            lemma_idx_injective(x2, y2, x, y);
        }
    }
}

/// The row-major position of in-range coordinates is the template position
/// `y * 9 + x`.
pub proof fn lemma_row_major_of_coords(x: int, y: int)
    requires
        0 <= x < 9,
        0 <= y < 9,
    ensures
        row_major(x * 9 + y) == y * 9 + x,
{
    assert((x * 9 + y) / 9 == x && (x * 9 + y) % 9 == y) by (nonlinear_arith)
        requires
            0 <= x < 9 && 0 <= y < 9,
    ;
}

} // verus!
