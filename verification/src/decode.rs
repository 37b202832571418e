//! The template decoder: an 81-letter template over the alphabet `a ..= j`
//! plus one offset in `[0, 10)` yields 81 concrete digits. Letters
//! `a ..= i` cycle through the digits `1 ..= 9` shifted by the offset, and
//! `j` marks a blank, editable cell. One shared cyclic relabelling of the
//! nine digit letters keeps every row, column and block duplicate-free.

use vstd::prelude::*;

use crate::board::at_xy;
use crate::board::row_major;
use crate::board::SudokuBoard;
use crate::rng::next_random;
use crate::rng::seed_rng;
use crate::rules::no_duplicates;
use crate::rules::shares_unit;
use crate::transform::transformed;

verus! {

/// Why a template was rejected.
#[derive(Clone, Copy, Debug, PartialEq, Eq, Structural)]
pub enum TemplateError {
    /// The template does not hold exactly 81 characters.
    WrongLength,
    /// The template holds a character outside `a ..= j`.
    UnknownChar,
}

/// The digit that template letter `ch` yields under offset `a`: `j` (byte
/// 106) is the blank, and the letters `a ..= i` map to
/// `((a + letter ordinal) mod 9) + 1`.
pub open spec fn digit_of(ch: u8, a: int) -> u8 {
    if ch == 106 {
        0u8
    } else {
        (((a + ch - 97) % 9) + 1) as u8
    }
}

/// A byte that may appear in a template.
pub open spec fn template_char_ok(ch: u8) -> bool {
    97 <= ch <= 106
}

/// A whole well-formed template: exactly 81 bytes over `a ..= j`.
pub open spec fn template_ok(t: Seq<u8>) -> bool {
    &&& t.len() == 81
    &&& forall|i: int| 0 <= i < t.len() ==> template_char_ok(#[trigger] t[i])
}

/// The canonical rejection for a malformed template, `None` when it is
/// well-formed.
pub open spec fn template_error_of(t: Seq<u8>) -> Option<TemplateError> {
    if t.len() != 81 {
        Some(TemplateError::WrongLength)
    } else if exists|i: int| 0 <= i < t.len() && !template_char_ok(#[trigger] t[i]) {
        Some(TemplateError::UnknownChar)
    } else {
        None
    }
}

/// The template letter written for board cell `(x, y)`: templates are laid
/// out row-major.
pub open spec fn letter_at(t: Seq<u8>, x: int, y: int) -> u8 {
    t[y * 9 + x]
}

/// The decoded board values (flat `x * 9 + y` layout) of template `t`
/// under offset `a`.
pub open spec fn decoded_values(t: Seq<u8>, a: int) -> Seq<u8> {
    Seq::new(81, |i: int| digit_of(t[row_major(i)], a))
}

/// The editable plane derived from decoded values: exactly the blanks.
pub open spec fn blanks_of(v: Seq<u8>) -> Seq<bool> {
    Seq::new(81, |i: int| v[i] == 0)
}

/// No row, column or block of the template repeats a non-blank letter.
pub open spec fn template_no_duplicates(t: Seq<u8>) -> bool {
    forall|x1: int, y1: int, x2: int, y2: int|
        0 <= x1 < 9 && 0 <= y1 < 9 && 0 <= x2 < 9 && 0 <= y2 < 9
            && !(x1 == x2 && y1 == y2) && shares_unit(x1, y1, x2, y2)
            && #[trigger] letter_at(t, x1, y1) != 106
            ==> letter_at(t, x1, y1) != #[trigger] letter_at(t, x2, y2)
}

/// Distinct non-blank letters decode to distinct non-zero digits: the
/// relabelling `k |-> ((a + k) mod 9) + 1` is injective on the nine digit
/// letters.
pub proof fn lemma_digit_of_injective(c1: u8, c2: u8, a: int)
    requires
        97 <= c1 <= 105,
        97 <= c2 <= 105,
        c1 != c2,
        0 <= a < 10,
    ensures
        digit_of(c1, a) != digit_of(c2, a),
        digit_of(c1, a) != 0,
        digit_of(c2, a) != 0,
{
    let b1 = a + c1 - 97;
    let b2 = a + c2 - 97;
    if b1 % 9 == b2 % 9 {
        assert(b1 == 9 * (b1 / 9) + b1 % 9);
        assert(b2 == 9 * (b2 / 9) + b2 % 9);
        assert(b1 - b2 == 9 * (b1 / 9 - b2 / 9)) by (nonlinear_arith)
            requires
                b1 == 9 * (b1 / 9) + b1 % 9 && b2 == 9 * (b2 / 9) + b2 % 9 && b1 % 9 == b2 % 9,
        ;
        assert(-9 < b1 - b2 < 9);
        assert(b1 / 9 == b2 / 9) by (nonlinear_arith)
            requires
                b1 - b2 == 9 * (b1 / 9 - b2 / 9) && -9 < b1 - b2 < 9,
        ;
    }
}

/// Decoding keeps every row, column and block duplicate-free: relabelling
/// digits by a permutation can neither create nor destroy duplicates.
pub proof fn lemma_decode_no_duplicates(t: Seq<u8>, a: int)
    requires
        template_ok(t),
        template_no_duplicates(t),
        0 <= a < 10,
    ensures
        no_duplicates(decoded_values(t, a)),
{
    let v = decoded_values(t, a);
    assert forall|x1: int, y1: int, x2: int, y2: int|
        0 <= x1 < 9 && 0 <= y1 < 9 && 0 <= x2 < 9 && 0 <= y2 < 9
            && !(x1 == x2 && y1 == y2) && shares_unit(x1, y1, x2, y2)
            && #[trigger] at_xy(v, x1, y1) != 0
            implies at_xy(v, x1, y1) != #[trigger] at_xy(v, x2, y2) by {
        crate::board::lemma_row_major_of_coords(x1, y1);
        crate::board::lemma_row_major_of_coords(x2, y2);
        let c1 = letter_at(t, x1, y1);
        let c2 = letter_at(t, x2, y2);
        assert(at_xy(v, x1, y1) == digit_of(c1, a));
        assert(at_xy(v, x2, y2) == digit_of(c2, a));
        if c2 != 106 {
            lemma_digit_of_injective(c1, c2, a);
        }
    }
}

impl SudokuBoard {
    /// The ASCII digit character for a letter ordinal shifted by the
    /// offset: `sign` is offset plus ordinal, and the sum cycles through
    /// `'1' ..= '9'`.
    pub fn calc_num(sign: u8) -> (c: u8)
        requires
            sign <= 17,
        ensures
            c == sign % 9 + 49,
    {
        let mut s = sign + 48 + 1;
        if s > 57 {
            s = s - 9;
        }
        s
    }

    /// Decode a template into one ASCII digit character per template
    /// position under offset `a`, rejecting any character outside
    /// `a ..= j` without producing a partial board.
    pub fn create(code: &[u8], a: u8) -> (res: Result<Vec<u8>, TemplateError>)
        requires
            a < 10,
        ensures
            match res {
                Ok(digits) => {
                    &&& forall|i: int|
                        0 <= i < code@.len() ==> template_char_ok(#[trigger] code@[i])
                    &&& digits@.len() == code@.len()
                    &&& forall|i: int|
                        0 <= i < code@.len()
                            ==> #[trigger] digits@[i] == 48 + digit_of(code@[i], a as int)
                },
                Err(e) => {
                    &&& e == TemplateError::UnknownChar
                    &&& exists|i: int|
                        0 <= i < code@.len() && !template_char_ok(#[trigger] code@[i])
                },
            },
    {
        let mut digits: Vec<u8> = Vec::new();
        let mut n: usize = 0;
        while n < code.len()
            invariant
                a < 10,
                n <= code@.len(),
                digits@.len() == n,
                forall|i: int| 0 <= i < n ==> template_char_ok(#[trigger] code@[i]),
                forall|i: int|
                    0 <= i < n ==> #[trigger] digits@[i] == 48 + digit_of(code@[i], a as int),
            decreases code@.len() - n,
        {
            let ch = code[n];
            if 97 <= ch && ch <= 105 {
                digits.push(Self::calc_num(a + (ch - 97)));
            } else if ch == 106 {
                digits.push(48);
            } else {
                return Err(TemplateError::UnknownChar);
            }
            n = n + 1;
        }
        Ok(digits)
    }

    /// Expand a template into a fresh playable board under the given offset
    /// and symmetry modifier: decoded digits fill the board, blanks become
    /// the editable cells, all validity flags drop, and the whole board is
    /// reoriented by the operation the modifier names. A malformed template
    /// leaves the board untouched.
    pub fn edit_with(&mut self, code: &[u8], a: u8, modifier: u32) -> (res: Result<
        (),
        TemplateError,
    >)
        requires
            old(self).wf(),
            a < 10,
            modifier < 8,
        ensures
            final(self).wf(),
            match res {
                Ok(_) => {
                    &&& template_ok(code@)
                    &&& final(self).values() == transformed(
                        decoded_values(code@, a as int),
                        modifier as int,
                    )
                    &&& final(self).editables() == transformed(
                        blanks_of(decoded_values(code@, a as int)),
                        modifier as int,
                    )
                    &&& forall|i: int| 0 <= i < 81 ==> !final(self).valids()[i]
                },
                Err(e) => {
                    &&& !template_ok(code@)
                    &&& Some(e) == template_error_of(code@)
                    &&& final(self).values() == old(self).values()
                    &&& final(self).editables() == old(self).editables()
                    &&& final(self).valids() == old(self).valids()
                },
            },
    {
        if code.len() != 81 {
            return Err(TemplateError::WrongLength);
        }
        let digits = match Self::create(code, a) {
            Ok(d) => d,
            Err(e) => {
                return Err(e);
            },
        };
        proof {
            assert forall|i: int| 0 <= i < 81 implies 48 <= #[trigger] digits@[i] <= 57 by {
                assert(digits@[i] == 48 + digit_of(code@[i], a as int));
            }
        }
        self.install_digits(digits.as_slice());
        let ghost dv = decoded_values(code@, a as int);
        proof {
            assert forall|i: int| 0 <= i < 81 implies 0 <= #[trigger] row_major(i) < 81 by {}
            assert(self.values() =~= dv);
            assert(self.editables() =~= blanks_of(dv));
        }
        let ghost mid = *self;
        match modifier {
            1 => self.turn_180(),
            2 => self.turn_ccw(),
            3 => self.turn_cw(),
            4 => self.flip_h(),
            5 => self.flip_v(),
            _ => (),
        }
        proof {
            if modifier == 0 || modifier >= 6 {
                crate::transform::lemma_transformed_identity(mid.values(), modifier as int);
                crate::transform::lemma_transformed_identity(mid.editables(), modifier as int);
            }
            crate::transform::lemma_transformed_const_false(mid.valids(), modifier as int);
        }
        Ok(())
    }

    /// Expand a template into a fresh playable board, drawing the digit
    /// offset and the symmetry modifier pseudo-randomly after reseeding the
    /// generator from the caller's entropy value. Whatever is drawn, the
    /// result is some offset's decoding reoriented by some modifier; a
    /// malformed template leaves the board untouched.
    pub fn edit(&mut self, code: &[u8], seed: u64) -> (res: Result<(), TemplateError>)
        requires
            old(self).wf(),
        ensures
            final(self).wf(),
            match res {
                Ok(_) => {
                    &&& template_ok(code@)
                    &&& exists|a: int, m: int|
                        0 <= a < 10 && 0 <= m < 8 && final(self).values() == #[trigger] transformed(
                            decoded_values(code@, a),
                            m,
                        ) && final(self).editables() == transformed(
                            blanks_of(decoded_values(code@, a)),
                            m,
                        )
                    &&& forall|i: int| 0 <= i < 81 ==> !final(self).valids()[i]
                },
                Err(e) => {
                    &&& !template_ok(code@)
                    &&& Some(e) == template_error_of(code@)
                    &&& final(self).values() == old(self).values()
                    &&& final(self).editables() == old(self).editables()
                    &&& final(self).valids() == old(self).valids()
                },
            },
    {
        seed_rng(seed);
        let a = (next_random() % 10) as u8;
        let m = next_random() % 8;
        let res = self.edit_with(code, a, m);
        proof {
            if res is Ok {
                assert((a as int) < 10 && (m as int) < 8 && final(self).values() == transformed(
                    decoded_values(code@, a as int),
                    m as int,
                ) && final(self).editables() == transformed(
                    blanks_of(decoded_values(code@, a as int)),
                    m as int,
                ));
            }
        }
        res
    }
}

} // verus!
