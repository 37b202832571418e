//! Symmetry transforms: the six operations selected by a modifier in
//! `[0, 8)` relocate every (value, editable, valid) triple as one unit.
//!
//! Modifier 1 is the 180-degree rotation, 2 the counter-clockwise quarter
//! turn, 3 the clockwise quarter turn, 4 the row mirror (top/bottom flip),
//! 5 the column mirror (left/right flip); 0, 6 and 7 leave the board as it
//! is.

use vstd::prelude::*;

use crate::board::at_xy;
use crate::board::SudokuBoard;
use crate::rules::no_duplicates;
use crate::rules::shares_unit;

verus! {

/// The source coordinates whose triple lands on `(x, y)` under the
/// operation named by `m`.
pub open spec fn source_cell(m: int, x: int, y: int) -> (int, int) {
    if m == 1 {
        (8 - x, 8 - y)
    } else if m == 2 {
        (8 - y, x)
    } else if m == 3 {
        (y, 8 - x)
    } else if m == 4 {
        (x, 8 - y)
    } else if m == 5 {
        (8 - x, y)
    } else {
        (x, y)
    }
}

/// The flat source index whose entry lands on flat index `i` under the
/// operation named by `m`.
pub open spec fn source_idx(m: int, i: int) -> int {
    source_cell(m, i / 9, i % 9).0 * 9 + source_cell(m, i / 9, i % 9).1
}

/// One flag plane after the operation named by `m`: entry `i` is the source
/// entry of `i`.
pub open spec fn transformed<T>(s: Seq<T>, m: int) -> Seq<T> {
    Seq::new(81, |i: int| s[source_idx(m, i)])
}

/// Source coordinates stay on the board.
proof fn lemma_source_cell_in_range(m: int, x: int, y: int)
    requires
        0 <= x < 9,
        0 <= y < 9,
    ensures
        0 <= source_cell(m, x, y).0 < 9,
        0 <= source_cell(m, x, y).1 < 9,
{
}

/// `transformed` read back at coordinates: the cell at `(x, y)` is the
/// source cell of `(x, y)`.
pub proof fn lemma_transformed_at<T>(s: Seq<T>, m: int, x: int, y: int)
    requires
        s.len() == 81,
        0 <= x < 9,
        0 <= y < 9,
    ensures
        at_xy(transformed(s, m), x, y) == at_xy(s, source_cell(m, x, y).0, source_cell(m, x, y).1),
{
    lemma_div_mod_9(x, y);
}

/// For modifiers that name no operation, `transformed` is the identity.
pub proof fn lemma_transformed_identity<T>(s: Seq<T>, m: int)
    requires
        s.len() == 81,
        !(1 <= m <= 5),
    ensures
        transformed(s, m) == s,
{
    assert forall|i: int| 0 <= i < 81 implies transformed(s, m)[i] == s[i] by {
        lemma_div_mod_9(i / 9, i % 9);
    }
    assert(transformed(s, m) =~= s);
}

/// A constant plane is unmoved by every operation.
pub proof fn lemma_transformed_const_false(s: Seq<bool>, m: int)
    requires
        s.len() == 81,
        forall|i: int| 0 <= i < 81 ==> !s[i],
    ensures
        transformed(s, m) == s,
{
    assert forall|i: int| 0 <= i < 81 implies transformed(s, m)[i] == s[i] by {
        lemma_div_mod_9(i / 9, i % 9);
        lemma_source_cell_in_range(m, i / 9, i % 9);
        lemma_source_idx_in_range(m, i);
    }
    assert(transformed(s, m) =~= s);
}

/// Flat source indices stay on the board.
proof fn lemma_source_idx_in_range(m: int, i: int)
    requires
        0 <= i < 81,
    ensures
        0 <= source_idx(m, i) < 81,
{
    lemma_source_cell_in_range(m, i / 9, i % 9);
}

/// Recombining the coordinate split of an in-range flat index.
proof fn lemma_div_mod_9(x: int, y: int)
    requires
        0 <= x < 9,
        0 <= y < 9,
    ensures
        (x * 9 + y) / 9 == x,
        (x * 9 + y) % 9 == y,
{
    assert((x * 9 + y) / 9 == x && (x * 9 + y) % 9 == y) by (nonlinear_arith)
        requires
            0 <= x < 9 && 0 <= y < 9,
    ;
}

/// Composing two operations at the level of flat indices.
proof fn lemma_transformed_twice<T>(s: Seq<T>, m1: int, m2: int, i: int)
    requires
        s.len() == 81,
        0 <= i < 81,
    ensures
        transformed(transformed(s, m1), m2)[i] == s[source_idx(m1, source_idx(m2, i))],
{
    lemma_source_idx_in_range(m2, i);
    lemma_source_idx_in_range(m1, source_idx(m2, i));
}

/// Four clockwise quarter turns restore every flag plane.
proof fn lemma_turn_cw_four_times<T>(s: Seq<T>)
    requires
        s.len() == 81,
    ensures
        transformed(transformed(transformed(transformed(s, 3), 3), 3), 3) == s,
{
    lemma_quadruple_identity(s, 3);
}

/// Four counter-clockwise quarter turns restore every flag plane.
proof fn lemma_turn_ccw_four_times<T>(s: Seq<T>)
    requires
        s.len() == 81,
    ensures
        transformed(transformed(transformed(transformed(s, 2), 2), 2), 2) == s,
{
    lemma_quadruple_identity(s, 2);
}

/// Two row mirrors restore every flag plane.
proof fn lemma_flip_h_twice<T>(s: Seq<T>)
    requires
        s.len() == 81,
    ensures
        transformed(transformed(s, 4), 4) == s,
{
    lemma_involution(s, 4);
}

/// Two column mirrors restore every flag plane.
proof fn lemma_flip_v_twice<T>(s: Seq<T>)
    requires
        s.len() == 81,
    ensures
        transformed(transformed(s, 5), 5) == s,
{
    lemma_involution(s, 5);
}

/// The quarter turns undo themselves after four applications.
proof fn lemma_quadruple_identity<T>(s: Seq<T>, m: int)
    requires
        s.len() == 81,
        m == 2 || m == 3,
    ensures
        transformed(transformed(transformed(transformed(s, m), m), m), m) == s,
{
    let s1 = transformed(s, m);
    let s2 = transformed(s1, m);
    let s3 = transformed(s2, m);
    let s4 = transformed(s3, m);
    assert forall|i: int| 0 <= i < 81 implies s4[i] == s[i] by {
        let x = i / 9;
        let y = i % 9;
        lemma_div_mod_9(x, y);
        let (x1, y1) = source_cell(m, x, y);
        lemma_div_mod_9(x1, y1);
        let (x2, y2) = source_cell(m, x1, y1);
        lemma_div_mod_9(x2, y2);
        let (x3, y3) = source_cell(m, x2, y2);
        lemma_div_mod_9(x3, y3);
        lemma_transformed_twice(s2, m, m, i);
        lemma_transformed_twice(s, m, m, source_idx(m, source_idx(m, i)));
        lemma_source_idx_in_range(m, i);
        lemma_source_idx_in_range(m, source_idx(m, i));
        lemma_source_idx_in_range(m, source_idx(m, source_idx(m, i)));
    }
    assert(transformed(transformed(transformed(transformed(s, m), m), m), m) =~= s);
}

/// The mirrors and the half turn undo themselves after two applications.
proof fn lemma_involution<T>(s: Seq<T>, m: int)
    requires
        s.len() == 81,
        m == 1 || m == 4 || m == 5,
    ensures
        transformed(transformed(s, m), m) == s,
{
    assert forall|i: int| 0 <= i < 81 implies transformed(transformed(s, m), m)[i] == s[i] by {
        let x = i / 9;
        let y = i % 9;
        lemma_div_mod_9(x, y);
        let (x1, y1) = source_cell(m, x, y);
        lemma_div_mod_9(x1, y1);
        lemma_transformed_twice(s, m, m, i);
    }
    assert(transformed(transformed(s, m), m) =~= s);
}

/// Every transform relocates each cell's (value, editable, valid) triple
/// as one unit: a board whose three planes each underwent the same
/// operation shows, at every position, the complete triple of that
/// position's source cell — the planes can never come apart.
pub proof fn lemma_cells_travel_together(before: SudokuBoard, after: SudokuBoard, m: int)
    requires
        before.wf(),
        reoriented(before, after, m),
    ensures
        forall|x: int, y: int|
            0 <= x < 9 && 0 <= y < 9 ==> #[trigger] after.cell(x, y) == before.cell(
                source_cell(m, x, y).0,
                source_cell(m, x, y).1,
            ),
{
    assert forall|x: int, y: int| 0 <= x < 9 && 0 <= y < 9 implies #[trigger] after.cell(x, y)
        == before.cell(source_cell(m, x, y).0, source_cell(m, x, y).1) by {
        lemma_transformed_at(before.values(), m, x, y);
        lemma_transformed_at(before.editables(), m, x, y);
        lemma_transformed_at(before.valids(), m, x, y);
    }
}

/// One board is another reoriented by the operation named by `m`: all
/// three flag planes underwent the same relocation, exactly what the
/// transform methods produce.
pub open spec fn reoriented(before: SudokuBoard, after: SudokuBoard, m: int) -> bool {
    &&& after.values() == transformed(before.values(), m)
    &&& after.editables() == transformed(before.editables(), m)
    &&& after.valids() == transformed(before.valids(), m)
}

/// Applying the clockwise quarter turn four times returns the board to
/// its original arrangement.
pub proof fn lemma_turn_cw_four_restores(
    b0: SudokuBoard,
    b1: SudokuBoard,
    b2: SudokuBoard,
    b3: SudokuBoard,
    b4: SudokuBoard,
)
    requires
        b0.wf(),
        reoriented(b0, b1, 3),
        reoriented(b1, b2, 3),
        reoriented(b2, b3, 3),
        reoriented(b3, b4, 3),
    ensures
        b4.values() == b0.values(),
        b4.editables() == b0.editables(),
        b4.valids() == b0.valids(),
{
    lemma_turn_cw_four_times(b0.values());
    lemma_turn_cw_four_times(b0.editables());
    lemma_turn_cw_four_times(b0.valids());
}

/// Applying the counter-clockwise quarter turn four times returns the
/// board to its original arrangement.
pub proof fn lemma_turn_ccw_four_restores(
    b0: SudokuBoard,
    b1: SudokuBoard,
    b2: SudokuBoard,
    b3: SudokuBoard,
    b4: SudokuBoard,
)
    requires
        b0.wf(),
        reoriented(b0, b1, 2),
        reoriented(b1, b2, 2),
        reoriented(b2, b3, 2),
        reoriented(b3, b4, 2),
    ensures
        b4.values() == b0.values(),
        b4.editables() == b0.editables(),
        b4.valids() == b0.valids(),
{
    lemma_turn_ccw_four_times(b0.values());
    lemma_turn_ccw_four_times(b0.editables());
    lemma_turn_ccw_four_times(b0.valids());
}

/// Applying the row mirror twice returns the board to its original
/// arrangement.
pub proof fn lemma_flip_h_twice_restores(b0: SudokuBoard, b1: SudokuBoard, b2: SudokuBoard)
    requires
        b0.wf(),
        reoriented(b0, b1, 4),
        reoriented(b1, b2, 4),
    ensures
        b2.values() == b0.values(),
        b2.editables() == b0.editables(),
        b2.valids() == b0.valids(),
{
    lemma_flip_h_twice(b0.values());
    lemma_flip_h_twice(b0.editables());
    lemma_flip_h_twice(b0.valids());
}

/// Applying the column mirror twice returns the board to its original
/// arrangement.
pub proof fn lemma_flip_v_twice_restores(b0: SudokuBoard, b1: SudokuBoard, b2: SudokuBoard)
    requires
        b0.wf(),
        reoriented(b0, b1, 5),
        reoriented(b1, b2, 5),
    ensures
        b2.values() == b0.values(),
        b2.editables() == b0.editables(),
        b2.valids() == b0.valids(),
{
    lemma_flip_v_twice(b0.values());
    lemma_flip_v_twice(b0.editables());
    lemma_flip_v_twice(b0.valids());
}

/// Mirroring a coordinate mirrors its block number.
proof fn lemma_mirror_block(c: int)
    requires
        0 <= c < 9,
    ensures
        (8 - c) / 3 == 2 - c / 3,
{
}

/// Every operation maps rows to rows or columns and blocks to blocks, so a
/// board without row, column or block duplicates stays without them under
/// every symmetry transform.
pub proof fn lemma_transformed_no_duplicates(v: Seq<u8>, m: int)
    requires
        v.len() == 81,
        no_duplicates(v),
    ensures
        no_duplicates(transformed(v, m)),
{
    let w = transformed(v, m);
    assert forall|x1: int, y1: int, x2: int, y2: int|
        0 <= x1 < 9 && 0 <= y1 < 9 && 0 <= x2 < 9 && 0 <= y2 < 9
            && !(x1 == x2 && y1 == y2) && shares_unit(x1, y1, x2, y2)
            && #[trigger] at_xy(w, x1, y1) != 0
            implies at_xy(w, x1, y1) != #[trigger] at_xy(w, x2, y2) by {
        lemma_transformed_at(v, m, x1, y1);
        lemma_transformed_at(v, m, x2, y2);
        lemma_mirror_block(x1);
        lemma_mirror_block(y1);
        lemma_mirror_block(x2);
        lemma_mirror_block(y2);
        let (sx1, sy1) = source_cell(m, x1, y1);
        let (sx2, sy2) = source_cell(m, x2, y2);
        assert(!(sx1 == sx2 && sy1 == sy2));
        assert(shares_unit(sx1, sy1, sx2, sy2));
        assert(at_xy(v, sx1, sy1) != at_xy(v, sx2, sy2));
    }
}

impl SudokuBoard {
    /// Rebuild the three flag planes so that every cell triple moves to its
    /// place under the operation named by `m`.
    fn relocate(&mut self, m: u32)
        requires
            old(self).wf(),
            m < 8,
        ensures
            final(self).wf(),
            final(self).values() == transformed(old(self).values(), m as int),
            final(self).editables() == transformed(old(self).editables(), m as int),
            final(self).valids() == transformed(old(self).valids(), m as int),
    {
        let mut board: Vec<u8> = Vec::new();
        let mut editable: Vec<bool> = Vec::new();
        let mut valid: Vec<bool> = Vec::new();
        let mut x: usize = 0;
        while x < 9
            invariant
                old(self) == self,
                self.wf(),
                m < 8,
                x <= 9,
                board@.len() == 9 * x,
                editable@.len() == 9 * x,
                valid@.len() == 9 * x,
                forall|j: int|
                    0 <= j < 9 * x ==> #[trigger] board@[j] == self.values()[source_idx(m as int, j)],
                forall|j: int|
                    0 <= j < 9 * x
                        ==> #[trigger] editable@[j] == self.editables()[source_idx(m as int, j)],
                forall|j: int|
                    0 <= j < 9 * x ==> #[trigger] valid@[j] == self.valids()[source_idx(m as int, j)],
            decreases 9 - x,
        {
            let mut y: usize = 0;
            while y < 9
                invariant
                    old(self) == self,
                    self.wf(),
                    m < 8,
                    x < 9,
                    y <= 9,
                    board@.len() == 9 * x + y,
                    editable@.len() == 9 * x + y,
                    valid@.len() == 9 * x + y,
                    forall|j: int|
                        0 <= j < 9 * x + y
                            ==> #[trigger] board@[j] == self.values()[source_idx(m as int, j)],
                    forall|j: int|
                        0 <= j < 9 * x + y
                            ==> #[trigger] editable@[j] == self.editables()[source_idx(m as int, j)],
                    forall|j: int|
                        0 <= j < 9 * x + y
                            ==> #[trigger] valid@[j] == self.valids()[source_idx(m as int, j)],
                decreases 9 - y,
            {
                let (sx, sy): (usize, usize) = if m == 1 {
                    (8 - x, 8 - y)
                } else if m == 2 {
                    (8 - y, x)
                } else if m == 3 {
                    (y, 8 - x)
                } else if m == 4 {
                    (x, 8 - y)
                } else if m == 5 {
                    (8 - x, y)
                } else {
                    (x, y)
                };
                proof {
                    lemma_div_mod_9(x as int, y as int);
                    assert((sx as int, sy as int) == source_cell(m as int, x as int, y as int));
                    assert(source_idx(m as int, (x * 9 + y) as int) == sx * 9 + sy);
                }
                board.push(self.get_field(sx, sy));
                editable.push(self.is_editable(sx, sy));
                valid.push(self.was_valid(sx, sy));
                y = y + 1;
            }
            x = x + 1;
        }
        proof {
            assert forall|j: int| 0 <= j < 81 implies #[trigger] board@[j] <= 9 by {
                lemma_source_idx_in_range(m as int, j);
            }
        }
        self.replace_planes(board, editable, valid);
        proof {
            assert(final(self).values() =~= transformed(old(self).values(), m as int));
            assert(final(self).editables() =~= transformed(old(self).editables(), m as int));
            assert(final(self).valids() =~= transformed(old(self).valids(), m as int));
        }
    }

    /// Rotate the board a half turn.
    pub fn turn_180(&mut self)
        requires
            old(self).wf(),
        ensures
            final(self).wf(),
            final(self).values() == transformed(old(self).values(), 1),
            final(self).editables() == transformed(old(self).editables(), 1),
            final(self).valids() == transformed(old(self).valids(), 1),
    {
        self.relocate(1);
    }

    /// Rotate the board a quarter turn counter-clockwise.
    pub fn turn_ccw(&mut self)
        requires
            old(self).wf(),
        ensures
            final(self).wf(),
            final(self).values() == transformed(old(self).values(), 2),
            final(self).editables() == transformed(old(self).editables(), 2),
            final(self).valids() == transformed(old(self).valids(), 2),
    {
        self.relocate(2);
    }

    /// Rotate the board a quarter turn clockwise.
    pub fn turn_cw(&mut self)
        requires
            old(self).wf(),
        ensures
            final(self).wf(),
            final(self).values() == transformed(old(self).values(), 3),
            final(self).editables() == transformed(old(self).editables(), 3),
            final(self).valids() == transformed(old(self).valids(), 3),
    {
        self.relocate(3);
    }

    /// Mirror the board top to bottom.
    pub fn flip_h(&mut self)
        requires
            old(self).wf(),
        ensures
            final(self).wf(),
            final(self).values() == transformed(old(self).values(), 4),
            final(self).editables() == transformed(old(self).editables(), 4),
            final(self).valids() == transformed(old(self).valids(), 4),
    {
        self.relocate(4);
    }

    /// Mirror the board left to right.
    pub fn flip_v(&mut self)
        requires
            old(self).wf(),
        ensures
            final(self).wf(),
            final(self).values() == transformed(old(self).values(), 5),
            final(self).editables() == transformed(old(self).editables(), 5),
            final(self).valids() == transformed(old(self).valids(), 5),
    {
        self.relocate(5);
    }
}

} // verus!
