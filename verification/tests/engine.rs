//! Grid store, validator, template decoding and transform behaviour.

use sudoku_engine::decode::TemplateError;
use sudoku_engine::SudokuBoard;

const BOARD_EASY: &[u8] =
    b"fecdjbgjiijhejcjbaadbjijjcfjjdcbjijhjjjfedjabbjjjhgjjejajhgjbfdjhijdfjecdbjjjejij";
const BOARD_MOD: &[u8] =
    b"jaejghjbjghjfjbjacjbjejaihjefdabjjjjbjjghidjjjjjjjjacbjjjhijjefigjjfebjjfjcjjdjgi";
const BOARD_HARD: &[u8] =
    b"jfjhjgjjdbjjjfjjighijjadjjjdejjhjjbjgjijjcjejjjjdjfjhijjhecafjjjdbjjjecjjjafjjijj";

/// The digit a template byte yields under offset `a`.
fn expected_digit(ch: u8, a: u8) -> u8 {
    if ch == b'j' {
        0
    } else {
        ((a + ch - b'a') % 9) + 1
    }
}

/// Whether any row, column or 3x3 block repeats a non-zero digit.
fn has_duplicates(board: &SudokuBoard) -> bool {
    for y in 0..9 {
        for x in 0..9 {
            let v = board.get_field(x, y);
            if v == 0 {
                continue;
            }
            for x2 in 0..9 {
                if x2 != x && board.get_field(x2, y) == v {
                    return true;
                }
            }
            for y2 in 0..9 {
                if y2 != y && board.get_field(x, y2) == v {
                    return true;
                }
            }
            let bx = x - x % 3;
            let by = y - y % 3;
            for i in 0..3 {
                for j in 0..3 {
                    let (x2, y2) = (bx + i, by + j);
                    if (x2, y2) != (x, y) && board.get_field(x2, y2) == v {
                        return true;
                    }
                }
            }
        }
    }
    false
}

#[test]
fn new_board_is_empty() {
    let board = SudokuBoard::new();
    for y in 0..9 {
        for x in 0..9 {
            assert_eq!(board.get_field(x, y), 0);
            assert!(!board.is_editable(x, y));
            assert!(!board.was_valid(x, y));
        }
    }
}

#[test]
fn set_and_get_field() {
    let mut board = SudokuBoard::new();
    board.set_field(4, 7, 9);
    assert_eq!(board.get_field(4, 7), 9);
    assert_eq!(board.get_field(7, 4), 0);
    board.set_field(4, 7, 0);
    assert_eq!(board.get_field(4, 7), 0);
}

#[test]
fn validity_flags_toggle() {
    let mut board = SudokuBoard::new();
    board.set_as_valid(2, 3);
    assert!(board.was_valid(2, 3));
    assert!(!board.was_valid(3, 2));
    board.set_as_invalid(2, 3);
    assert!(!board.was_valid(2, 3));
}

#[test]
fn clear_empties_everything() {
    let mut board = SudokuBoard::new();
    assert_eq!(board.edit_with(BOARD_EASY, 4, 3), Ok(()));
    board.clear();
    for y in 0..9 {
        for x in 0..9 {
            assert_eq!(board.get_field(x, y), 0);
            assert!(!board.is_editable(x, y));
            assert!(!board.was_valid(x, y));
        }
    }
}

#[test]
fn reset_clears_only_editable_cells() {
    let mut board = SudokuBoard::new();
    assert_eq!(board.edit_with(BOARD_MOD, 2, 0), Ok(()));
    let mut given = [[0u8; 9]; 9];
    for y in 0..9 {
        for x in 0..9 {
            given[x][y] = board.get_field(x, y);
        }
    }
    // play a few editable cells, one marked valid
    let mut played = 0;
    for y in 0..9 {
        for x in 0..9 {
            if board.is_editable(x, y) && played < 5 {
                board.set_field(x, y, 7);
                board.set_as_valid(x, y);
                played += 1;
            }
        }
    }
    board.reset();
    for y in 0..9 {
        for x in 0..9 {
            if board.is_editable(x, y) {
                assert_eq!(board.get_field(x, y), 0);
            } else {
                assert_eq!(board.get_field(x, y), given[x][y]);
            }
            assert!(!board.was_valid(x, y));
        }
    }
}

#[test]
fn decode_identity_matches_template() {
    // offset 0 and the identity transform: 'j' cells become 0 and editable,
    // letters a..=i become 1..=9 in place
    let mut board = SudokuBoard::new();
    assert_eq!(board.edit_with(BOARD_MOD, 0, 0), Ok(()));
    for y in 0..9 {
        for x in 0..9 {
            let ch = BOARD_MOD[y * 9 + x];
            let expected = expected_digit(ch, 0);
            assert_eq!(board.get_field(x, y), expected);
            assert_eq!(board.is_editable(x, y), expected == 0);
            assert!(!board.was_valid(x, y));
        }
    }
}

#[test]
fn decode_every_offset_no_duplicates() {
    for template in [BOARD_EASY, BOARD_MOD, BOARD_HARD] {
        for a in 0..10 {
            let mut board = SudokuBoard::new();
            assert_eq!(board.edit_with(template, a, 0), Ok(()));
            assert!(!has_duplicates(&board));
        }
    }
}

#[test]
fn decode_transformed_no_duplicates() {
    for m in 0..8 {
        let mut board = SudokuBoard::new();
        assert_eq!(board.edit_with(BOARD_HARD, 5, m), Ok(()));
        assert!(!has_duplicates(&board));
    }
}

#[test]
fn calc_num_cycles_digits() {
    assert_eq!(SudokuBoard::calc_num(0), b'1');
    assert_eq!(SudokuBoard::calc_num(8), b'9');
    assert_eq!(SudokuBoard::calc_num(9), b'1');
    assert_eq!(SudokuBoard::calc_num(17), b'9');
}

#[test]
fn create_decodes_alphabet() {
    let digits = SudokuBoard::create(b"abcdefghij", 0).unwrap();
    assert_eq!(digits, b"1234567890".to_vec());
    let shifted = SudokuBoard::create(b"abcdefghij", 3).unwrap();
    assert_eq!(shifted, b"4567891230".to_vec());
}

#[test]
fn create_rejects_unknown_char() {
    assert_eq!(
        SudokuBoard::create(b"abck", 0),
        Err(TemplateError::UnknownChar)
    );
}

#[test]
fn edit_with_rejects_wrong_length() {
    let mut board = SudokuBoard::new();
    assert_eq!(
        board.edit_with(b"abc", 0, 0),
        Err(TemplateError::WrongLength)
    );
    // the board is untouched
    for y in 0..9 {
        for x in 0..9 {
            assert_eq!(board.get_field(x, y), 0);
        }
    }
}

#[test]
fn edit_with_rejects_unknown_char() {
    let mut template = BOARD_EASY.to_vec();
    template[40] = b'z';
    let mut board = SudokuBoard::new();
    assert_eq!(
        board.edit_with(&template, 0, 0),
        Err(TemplateError::UnknownChar)
    );
}

#[test]
fn edit_draws_some_valid_arrangement() {
    // whatever the generator yields, the board is a reoriented decoding:
    // digits only, editable exactly at blanks, as many blanks as 'j's
    let mut board = SudokuBoard::new();
    assert_eq!(board.edit(BOARD_EASY, 123456789), Ok(()));
    let mut blanks = 0;
    for y in 0..9 {
        for x in 0..9 {
            let v = board.get_field(x, y);
            assert!(v <= 9);
            assert_eq!(board.is_editable(x, y), v == 0);
            assert!(!board.was_valid(x, y));
            if v == 0 {
                blanks += 1;
            }
        }
    }
    let expected_blanks = BOARD_EASY.iter().filter(|&&c| c == b'j').count();
    assert_eq!(blanks, expected_blanks);
    assert!(!has_duplicates(&board));
}

#[test]
fn is_valid_move_checks_all_units() {
    let mut board = SudokuBoard::new();
    board.set_field(3, 0, 5);
    // same row
    assert!(!board.is_valid_move(7, 0, 5));
    // same column
    assert!(!board.is_valid_move(3, 8, 5));
    // same block
    assert!(!board.is_valid_move(4, 1, 5));
    // unrelated cell and digit
    assert!(board.is_valid_move(7, 7, 5));
    assert!(board.is_valid_move(7, 0, 6));
}

#[test]
fn transforms_move_triples_as_units() {
    let mut board = SudokuBoard::new();
    assert_eq!(board.edit_with(BOARD_MOD, 1, 0), Ok(()));
    let value = board.get_field(2, 3);
    let editable = board.is_editable(2, 3);
    board.set_as_valid(2, 3);
    // clockwise: (x, y) lands on (8 - y, x)
    board.turn_cw();
    assert_eq!(board.get_field(5, 2), value);
    assert_eq!(board.is_editable(5, 2), editable);
    assert!(board.was_valid(5, 2));
}

#[test]
fn turn_cw_four_times_is_identity() {
    let mut board = SudokuBoard::new();
    assert_eq!(board.edit_with(BOARD_EASY, 2, 0), Ok(()));
    board.set_as_valid(1, 6);
    let before = snapshot(&board);
    for _ in 0..4 {
        board.turn_cw();
    }
    assert_eq!(before, snapshot(&board));
}

#[test]
fn turn_ccw_four_times_is_identity() {
    let mut board = SudokuBoard::new();
    assert_eq!(board.edit_with(BOARD_EASY, 7, 0), Ok(()));
    let before = snapshot(&board);
    for _ in 0..4 {
        board.turn_ccw();
    }
    assert_eq!(before, snapshot(&board));
}

#[test]
fn flip_h_twice_is_identity() {
    let mut board = SudokuBoard::new();
    assert_eq!(board.edit_with(BOARD_HARD, 3, 0), Ok(()));
    let before = snapshot(&board);
    board.flip_h();
    board.flip_h();
    assert_eq!(before, snapshot(&board));
}

#[test]
fn flip_v_twice_is_identity() {
    let mut board = SudokuBoard::new();
    assert_eq!(board.edit_with(BOARD_HARD, 9, 0), Ok(()));
    let before = snapshot(&board);
    board.flip_v();
    board.flip_v();
    assert_eq!(before, snapshot(&board));
}

#[test]
fn turn_180_twice_is_identity() {
    let mut board = SudokuBoard::new();
    assert_eq!(board.edit_with(BOARD_MOD, 6, 0), Ok(()));
    let before = snapshot(&board);
    board.turn_180();
    board.turn_180();
    assert_eq!(before, snapshot(&board));
}

/// All three cell planes, for whole-board comparisons.
fn snapshot(board: &SudokuBoard) -> Vec<(u8, bool, bool)> {
    let mut cells = Vec::new();
    for x in 0..9 {
        for y in 0..9 {
            cells.push((
                board.get_field(x, y),
                board.is_editable(x, y),
                board.was_valid(x, y),
            ));
        }
    }
    cells
}
