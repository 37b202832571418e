//! Persistence codec: the record layout, the round trip, every rejection,
//! and the timer display helper.

use sudoku_engine::codec::RecordError;
use sudoku_engine::timer::get_time_from_seconds;
use sudoku_engine::SudokuBoard;

const BOARD_EASY: &[u8] =
    b"fecdjbgjiijhejcjbaadbjijjcfjjdcbjijhjjjfedjabbjjjhgjjejajhgjbfdjhijdfjecdbjjjejij";

/// A record of 81 digits, a comma and a duration, built by hand.
fn record_of(digits: &[u8], duration: &[u8]) -> Vec<u8> {
    let mut rec = digits.to_vec();
    rec.push(b',');
    rec.extend_from_slice(duration);
    rec
}

#[test]
fn encode_layout_row_major() {
    let mut board = SudokuBoard::new();
    board.set_field(3, 0, 5);
    board.set_field(0, 2, 7);
    let rec = board.encode(0);
    assert_eq!(rec.len(), 83);
    // record position y * 9 + x holds the digit of cell (x, y)
    assert_eq!(rec[3], b'5');
    assert_eq!(rec[2 * 9], b'7');
    assert_eq!(rec[81], b',');
    assert_eq!(rec[82], b'0');
    assert_eq!(rec.iter().filter(|&&b| b == b'0').count(), 80);
}

#[test]
fn encode_solved_board_with_duration() {
    let mut board = SudokuBoard::new();
    assert_eq!(board.edit_with(BOARD_EASY, 0, 0), Ok(()));
    assert!(board.solve());
    let rec = board.encode(125);
    assert_eq!(rec.len(), 85);
    assert_eq!(&rec[81..], b",125");
    assert!(rec[..81].iter().all(|&b| (b'1'..=b'9').contains(&b)));

    let mut restored = SudokuBoard::new();
    assert_eq!(restored.decode(&rec), Ok(125));
    for y in 0..9 {
        for x in 0..9 {
            assert_eq!(restored.get_field(x, y), board.get_field(x, y));
            assert!(!restored.is_editable(x, y));
            assert!(!restored.was_valid(x, y));
        }
    }
}

#[test]
fn record_round_trip_restores_blanks() {
    let mut board = SudokuBoard::new();
    assert_eq!(board.edit_with(BOARD_EASY, 6, 4), Ok(()));
    let rec = board.encode(98765);
    let mut restored = SudokuBoard::new();
    assert_eq!(restored.decode(&rec), Ok(98765));
    for y in 0..9 {
        for x in 0..9 {
            let v = board.get_field(x, y);
            assert_eq!(restored.get_field(x, y), v);
            assert_eq!(restored.is_editable(x, y), v == 0);
            assert!(!restored.was_valid(x, y));
        }
    }
}

#[test]
fn decode_reads_digits_directly() {
    // a saved record is 81 digits, never template letters: the first row
    // of the record fills board row 0 left to right
    let mut digits = [b'0'; 81];
    digits[0] = b'4';
    digits[10] = b'6';
    let rec = record_of(&digits, b"7");
    let mut board = SudokuBoard::new();
    assert_eq!(board.decode(&rec), Ok(7));
    assert_eq!(board.get_field(0, 0), 4);
    assert_eq!(board.get_field(1, 1), 6);
    assert!(!board.is_editable(0, 0));
    assert!(board.is_editable(5, 5));
}

#[test]
fn decode_rejects_short_record() {
    let mut board = SudokuBoard::new();
    assert_eq!(board.decode(b"123,45"), Err(RecordError::TooShort));
    let digits = [b'1'; 81];
    // 81 digits and a comma but no duration at all
    let rec = record_of(&digits, b"");
    assert_eq!(board.decode(&rec), Err(RecordError::TooShort));
}

#[test]
fn decode_rejects_bad_board_digit() {
    let mut digits = [b'1'; 81];
    digits[40] = b'a';
    let rec = record_of(&digits, b"12");
    let mut board = SudokuBoard::new();
    assert_eq!(board.decode(&rec), Err(RecordError::BadBoardChar));
}

#[test]
fn decode_rejects_bad_separator() {
    let mut rec = record_of(&[b'2'; 81], b"12");
    rec[81] = b';';
    let mut board = SudokuBoard::new();
    assert_eq!(board.decode(&rec), Err(RecordError::BadSeparator));
}

#[test]
fn decode_rejects_bad_duration_digit() {
    let rec = record_of(&[b'3'; 81], b"1x2");
    let mut board = SudokuBoard::new();
    assert_eq!(board.decode(&rec), Err(RecordError::BadDurationChar));
}

#[test]
fn decode_rejects_oversized_duration() {
    // u64::MAX is 18446744073709551615; one more does not fit
    let rec = record_of(&[b'4'; 81], b"18446744073709551616");
    let mut board = SudokuBoard::new();
    assert_eq!(board.decode(&rec), Err(RecordError::DurationTooLarge));
    let rec = record_of(&[b'4'; 81], b"18446744073709551615");
    assert_eq!(board.decode(&rec), Ok(u64::MAX));
}

#[test]
fn decode_failure_keeps_prior_state() {
    let mut board = SudokuBoard::new();
    assert_eq!(board.edit_with(BOARD_EASY, 0, 0), Ok(()));
    let before: Vec<(u8, bool)> = (0..9)
        .flat_map(|x| (0..9).map(move |y| (x, y)))
        .map(|(x, y)| (board.get_field(x, y), board.is_editable(x, y)))
        .collect();
    assert_eq!(board.decode(b"not a record"), Err(RecordError::TooShort));
    let after: Vec<(u8, bool)> = (0..9)
        .flat_map(|x| (0..9).map(move |y| (x, y)))
        .map(|(x, y)| (board.get_field(x, y), board.is_editable(x, y)))
        .collect();
    assert_eq!(before, after);
}

#[test]
fn duration_with_leading_zeros_parses() {
    let rec = record_of(&[b'0'; 81], b"00125");
    let mut board = SudokuBoard::new();
    assert_eq!(board.decode(&rec), Ok(125));
}

#[test]
fn time_from_seconds_splits_clock_fields() {
    assert_eq!(get_time_from_seconds(0), (0, 0, 0));
    assert_eq!(get_time_from_seconds(125), (0, 2, 5));
    assert_eq!(get_time_from_seconds(3661), (1, 1, 1));
    assert_eq!(get_time_from_seconds(86399), (23, 59, 59));
    // the hour field is only eight bits wide and wraps
    assert_eq!(get_time_from_seconds(3600 * 300), (44, 0, 0));
}
