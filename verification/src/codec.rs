//! The persistence codec: a board plus an elapsed duration becomes a flat
//! record of 81 ASCII digits (row-major cell values), a comma, and the
//! duration in decimal. Decoding reads the digits back directly, derives
//! the editable flags from the zero cells, and never applies a corrupt
//! record partially.

use vstd::prelude::*;

use crate::board::row_major;
use crate::board::SudokuBoard;
use crate::decode::blanks_of;

verus! {

/// Why a persistence record was rejected.
#[derive(Clone, Copy, Debug, PartialEq, Eq, Structural)]
pub enum RecordError {
    /// Too short to hold 81 board digits, the separator and a duration.
    TooShort,
    /// One of the 81 board positions is not an ASCII digit.
    BadBoardChar,
    /// The byte after the board digits is not the comma separator.
    BadSeparator,
    /// The duration field holds a byte that is not an ASCII digit.
    BadDurationChar,
    /// The duration does not fit in 64 bits.
    DurationTooLarge,
}

/// An ASCII decimal digit.
pub open spec fn digit_byte(b: u8) -> bool {
    48 <= b <= 57
}

/// The decimal value of a run of ASCII digit bytes, most significant
/// first.
pub open spec fn dec_value(s: Seq<u8>) -> nat
    decreases s.len(),
{
    if s.len() == 0 {
        0
    } else {
        dec_value(s.drop_last()) * 10 + (s.last() - 48) as nat
    }
}

/// The decimal digits of `n`, most significant first, without leading
/// zeros.
pub open spec fn dec_digits(n: nat) -> Seq<u8>
    decreases n,
{
    if n < 10 {
        seq![(48 + n) as u8]
    } else {
        dec_digits(n / 10).push((48 + n % 10) as u8)
    }
}

/// Reading back the decimal digits of `n` yields `n`; the digit run is
/// never empty and holds digits only.
pub proof fn lemma_dec_round_trip(n: nat)
    ensures
        dec_value(dec_digits(n)) == n,
        dec_digits(n).len() >= 1,
        forall|i: int| 0 <= i < dec_digits(n).len() ==> digit_byte(#[trigger] dec_digits(n)[i]),
    decreases n,
{
    if n < 10 {
        assert(dec_digits(n).drop_last() =~= Seq::<u8>::empty());
        assert(dec_value(Seq::<u8>::empty()) == 0);
    } else {
        lemma_dec_round_trip(n / 10);
        assert(dec_digits(n).drop_last() =~= dec_digits(n / 10));
        assert(n == (n / 10) * 10 + n % 10) by (nonlinear_arith);
    }
}

/// A prefix of a digit run never exceeds the whole run's value.
proof fn lemma_dec_value_prefix(s: Seq<u8>, k: int)
    requires
        0 <= k <= s.len(),
    ensures
        dec_value(s) >= dec_value(s.take(k)),
    decreases s.len(),
{
    if k < s.len() {
        assert(s.drop_last() =~= s.take(s.len() - 1));
        assert(s.take(s.len() - 1).take(k) =~= s.take(k));
        lemma_dec_value_prefix(s.take(s.len() - 1), k);
    } else {
        assert(s.take(k) =~= s);
    }
}

/// The row-major reading order is its own inverse on flat board indices.
pub proof fn lemma_row_major_involution(i: int)
    requires
        0 <= i < 81,
    ensures
        0 <= row_major(i) < 81,
        row_major(row_major(i)) == i,
{
    let x = i / 9;
    let y = i % 9;
    assert(0 <= x < 9 && 0 <= y < 9 && x * 9 + y == i) by (nonlinear_arith)
        requires
            0 <= i < 81 && x == i / 9 && y == i % 9,
    ;
    crate::board::lemma_row_major_of_coords(x, y);
    crate::board::lemma_row_major_of_coords(y, x);
}

/// The 81 record digits of board values `v`, in row-major order.
pub open spec fn digit_line(v: Seq<u8>) -> Seq<u8> {
    Seq::new(81, |i: int| (48 + v[row_major(i)]) as u8)
}

/// The full record of board values `v` and duration `t`.
pub open spec fn encoded(v: Seq<u8>, t: u64) -> Seq<u8> {
    digit_line(v) + seq![44u8] + dec_digits(t as nat)
}

/// The canonical rejection for a malformed record, `None` when it is
/// well-formed.
pub open spec fn record_error_of(r: Seq<u8>) -> Option<RecordError> {
    if r.len() < 83 {
        Some(RecordError::TooShort)
    } else if exists|i: int| 0 <= i < 81 && !digit_byte(#[trigger] r[i]) {
        Some(RecordError::BadBoardChar)
    } else if r[81] != 44 {
        Some(RecordError::BadSeparator)
    } else if exists|i: int| 82 <= i < r.len() && !digit_byte(#[trigger] r[i]) {
        Some(RecordError::BadDurationChar)
    } else if dec_value(r.subrange(82, r.len() as int)) > u64::MAX {
        Some(RecordError::DurationTooLarge)
    } else {
        None
    }
}

/// Round-trip law: a record encoded from any well-formed board decodes
/// cleanly back to the same 81 cell values and the same duration, with
/// the editable flags recomputed as exactly the blank cells.
pub proof fn lemma_record_round_trip(v: Seq<u8>, t: u64)
    requires
        v.len() == 81,
        forall|i: int| 0 <= i < 81 ==> v[i] <= 9,
    ensures
        record_error_of(encoded(v, t)) is None,
        dec_value(encoded(v, t).subrange(82, encoded(v, t).len() as int)) == t as nat,
        Seq::new(81, |i: int| (encoded(v, t)[row_major(i)] - 48) as u8) == v,
        Seq::new(81, |i: int| encoded(v, t)[row_major(i)] == 48) == blanks_of(v),
{
    let r = encoded(v, t);
    lemma_dec_round_trip(t as nat);
    assert forall|i: int| 0 <= i < 81 implies digit_byte(#[trigger] r[i]) by {
        lemma_row_major_involution(i);
    }
    assert(r[81] == 44);
    assert(r.subrange(82, r.len() as int) =~= dec_digits(t as nat));
    assert forall|i: int| 0 <= i < 81 implies (r[#[trigger] row_major(i)] - 48) as u8 == v[i]
        && (r[row_major(i)] == 48) == (v[i] == 0) by {
        lemma_row_major_involution(i);
        assert(r[row_major(i)] == 48 + v[row_major(row_major(i))]);
    }
    assert(Seq::new(81, |i: int| (r[row_major(i)] - 48) as u8) =~= v);
    assert(Seq::new(81, |i: int| r[row_major(i)] == 48) =~= blanks_of(v));
}

impl SudokuBoard {
    /// Serialise the board and an elapsed duration to the flat record: 81
    /// digits in row-major order, a comma, and the duration in decimal.
    pub fn encode(&self, duration: u64) -> (r: Vec<u8>)
        requires
            self.wf(),
        ensures
            r@ == encoded(self.values(), duration),
    {
        let mut rec: Vec<u8> = Vec::new();
        let mut row: usize = 0;
        while row < 9
            invariant
                self.wf(),
                row <= 9,
                rec@.len() == 9 * row,
                forall|p: int| 0 <= p < 9 * row ==> #[trigger] rec@[p] == digit_line(self.values())[p],
            decreases 9 - row,
        {
            let mut col: usize = 0;
            while col < 9
                invariant
                    self.wf(),
                    row < 9,
                    col <= 9,
                    rec@.len() == 9 * row + col,
                    forall|p: int|
                        0 <= p < 9 * row + col ==> #[trigger] rec@[p] == digit_line(self.values())[p],
                decreases 9 - col,
            {
                proof {
                    crate::board::lemma_row_major_of_coords(row as int, col as int);
                }
                rec.push(self.get_field(col, row) + 48);
                col = col + 1;
            }
            row = row + 1;
        }
        rec.push(44);
        let ghost head = rec@;
        proof {
            assert(head =~= digit_line(self.values()) + seq![44u8]);
        }
        if duration == 0 {
            rec.push(48);
            proof {
                assert(rec@ =~= head + dec_digits(duration as nat));
            }
        } else {
            let mut tmp: Vec<u8> = Vec::new();
            let mut n: u64 = duration;
            while n > 0
                invariant
                    duration > 0,
                    n > 0 ==> dec_digits(duration as nat) == dec_digits(n as nat) + tmp@.reverse(),
                    n == 0 ==> dec_digits(duration as nat) == tmp@.reverse(),
                decreases n,
            {
                let d = 48 + (n % 10) as u8;
                proof {
                    assert(tmp@.push(d).reverse() =~= seq![d] + tmp@.reverse());
                    if n >= 10 {
                        assert(dec_digits(n as nat) + tmp@.reverse() =~= dec_digits(
                            (n / 10) as nat,
                        ) + (seq![d] + tmp@.reverse()));
                    } else {
                        assert(dec_digits(n as nat) + tmp@.reverse() =~= seq![d] + tmp@.reverse());
                    }
                }
                tmp.push(d);
                n = n / 10;
            }
            let mut k: usize = 0;
            while k < tmp.len()
                invariant
                    dec_digits(duration as nat) == tmp@.reverse(),
                    k <= tmp@.len(),
                    rec@.len() == head.len() + k,
                    rec@ == head + tmp@.reverse().take(k as int),
                decreases tmp@.len() - k,
            {
                let b = tmp[tmp.len() - 1 - k];
                proof {
                    assert(tmp@.reverse()[k as int] == b);
                    assert(head + tmp@.reverse().take(k + 1) =~= (head + tmp@.reverse().take(
                        k as int,
                    )).push(b));
                }
                rec.push(b);
                k = k + 1;
            }
            proof {
                assert(tmp@.reverse().take(tmp@.len() as int) =~= tmp@.reverse());
            }
        }
        proof {
            assert(rec@ =~= encoded(self.values(), duration));
        }
        rec
    }

    /// Restore the board and the elapsed duration from a record: the 81
    /// digits become the cell values directly (never routed through the
    /// template decoder), a cell is editable exactly when its digit is
    /// zero, and every validity flag drops. A malformed record changes
    /// nothing and reports why it was rejected.
    pub fn decode(&mut self, record: &[u8]) -> (res: Result<u64, RecordError>)
        requires
            old(self).wf(),
        ensures
            final(self).wf(),
            match res {
                Ok(d) => {
                    &&& record_error_of(record@) is None
                    &&& d as nat == dec_value(record@.subrange(82, record@.len() as int))
                    &&& final(self).values() == Seq::new(
                        81,
                        |i: int| (record@[row_major(i)] - 48) as u8,
                    )
                    &&& final(self).editables() == Seq::new(
                        81,
                        |i: int| record@[row_major(i)] == 48,
                    )
                    &&& forall|i: int| 0 <= i < 81 ==> !final(self).valids()[i]
                },
                Err(e) => {
                    &&& Some(e) == record_error_of(record@)
                    &&& final(self).values() == old(self).values()
                    &&& final(self).editables() == old(self).editables()
                    &&& final(self).valids() == old(self).valids()
                },
            },
    {
        if record.len() < 83 {
            return Err(RecordError::TooShort);
        }
        let mut i: usize = 0;
        while i < 81
            invariant
                old(self).wf(),
                self == old(self),
                record@.len() >= 83,
                i <= 81,
                forall|j: int| 0 <= j < i ==> digit_byte(#[trigger] record@[j]),
            decreases 81 - i,
        {
            let b = record[i];
            if b < 48 || b > 57 {
                return Err(RecordError::BadBoardChar);
            }
            i = i + 1;
        }
        if record[81] != 44 {
            return Err(RecordError::BadSeparator);
        }
        let mut k: usize = 82;
        while k < record.len()
            invariant
                old(self).wf(),
                self == old(self),
                record@.len() >= 83,
                forall|j: int| 0 <= j < 81 ==> digit_byte(#[trigger] record@[j]),
                record@[81] == 44,
                82 <= k <= record@.len(),
                forall|j: int| 82 <= j < k ==> digit_byte(#[trigger] record@[j]),
            decreases record@.len() - k,
        {
            let b = record[k];
            if b < 48 || b > 57 {
                return Err(RecordError::BadDurationChar);
            }
            k = k + 1;
        }
        let mut acc: u64 = 0;
        let mut p: usize = 82;
        while p < record.len()
            invariant
                old(self).wf(),
                self == old(self),
                record@.len() >= 83,
                forall|j: int| 0 <= j < 81 ==> digit_byte(#[trigger] record@[j]),
                record@[81] == 44,
                82 <= p <= record@.len(),
                forall|j: int| 82 <= j < record@.len() ==> digit_byte(#[trigger] record@[j]),
                acc as nat == dec_value(record@.subrange(82, p as int)),
            decreases record@.len() - p,
        {
            let b = record[p];
            let d = (b - 48) as u64;
            let ghost pre = record@.subrange(82, p as int);
            proof {
                assert(record@.subrange(82, p + 1).drop_last() =~= pre);
                assert(record@.subrange(82, p + 1).last() == b);
            }
            let shifted = match acc.checked_mul(10) {
                Some(a) => a,
                None => {
                    proof {
                        lemma_decode_overflow(record@, p as int);
                    }
                    return Err(RecordError::DurationTooLarge);
                },
            };
            acc = match shifted.checked_add(d) {
                Some(a) => a,
                None => {
                    proof {
                        lemma_decode_overflow(record@, p as int);
                    }
                    return Err(RecordError::DurationTooLarge);
                },
            };
            p = p + 1;
        }
        proof {
            assert(record@.subrange(82, record@.len() as int) =~= record@.subrange(
                82,
                p as int,
            ));
        }
        self.install_digits(record);
        Ok(acc)
    }
}

/// If the duration run's value already exceeds `u64::MAX` at some prefix,
/// it exceeds it as a whole.
proof fn lemma_decode_overflow(r: Seq<u8>, p: int)
    requires
        r.len() >= 83,
        82 <= p < r.len(),
        dec_value(r.subrange(82, p)) * 10 + (r[p] - 48) as nat > u64::MAX,
    ensures
        dec_value(r.subrange(82, r.len() as int)) > u64::MAX,
{
    let full = r.subrange(82, r.len() as int);
    assert(r.subrange(82, p + 1).drop_last() =~= r.subrange(82, p));
    assert(r.subrange(82, p + 1).last() == r[p]);
    assert(dec_value(r.subrange(82, p + 1)) > u64::MAX);
    assert(full.take(p + 1 - 82) =~= r.subrange(82, p + 1));
    lemma_dec_value_prefix(full, p + 1 - 82);
}

} // verus!
