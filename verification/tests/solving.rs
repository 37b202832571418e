//! Solver behaviour: success on well-formed puzzles, refusal and restore
//! on unsolvable ones, and idempotence on solved boards.

use sudoku_engine::SudokuBoard;

const BOARD_EASY: &[u8] =
    b"fecdjbgjiijhejcjbaadbjijjcfjjdcbjijhjjjfedjabbjjjhgjjejajhgjbfdjhijdfjecdbjjjejij";
const BOARD_MOD: &[u8] =
    b"jaejghjbjghjfjbjacjbjejaihjefdabjjjjbjjghidjjjjjjjjacbjjjhijjefigjjfebjjfjcjjdjgi";
const BOARD_HARD: &[u8] =
    b"jfjhjgjjdbjjjfjjighijjadjjjdejjhjjbjgjijjcjejjjjdjfjhijjhecafjjjdbjjjecjjjafjjijj";

/// Whether any row, column or 3x3 block repeats a non-zero digit.
fn has_duplicates(board: &SudokuBoard) -> bool {
    for y in 0..9 {
        for x in 0..9 {
            let v = board.get_field(x, y);
            if v == 0 {
                continue;
            }
            for x2 in 0..9 {
                if x2 != x && board.get_field(x2, y) == v {
                    return true;
                }
            }
            for y2 in 0..9 {
                if y2 != y && board.get_field(x, y2) == v {
                    return true;
                }
            }
            let bx = x - x % 3;
            let by = y - y % 3;
            for i in 0..3 {
                for j in 0..3 {
                    let (x2, y2) = (bx + i, by + j);
                    if (x2, y2) != (x, y) && board.get_field(x2, y2) == v {
                        return true;
                    }
                }
            }
        }
    }
    false
}

fn is_complete(board: &SudokuBoard) -> bool {
    (0..9).all(|x| (0..9).all(|y| board.get_field(x, y) != 0))
}

#[test]
fn solve_completes_every_template() {
    for template in [BOARD_EASY, BOARD_MOD, BOARD_HARD] {
        for (a, m) in [(0u8, 0u32), (4, 1), (7, 3), (9, 5)] {
            let mut board = SudokuBoard::new();
            assert_eq!(board.edit_with(template, a, m), Ok(()));
            let mut given = [[0u8; 9]; 9];
            for y in 0..9 {
                for x in 0..9 {
                    given[x][y] = board.get_field(x, y);
                }
            }
            assert!(board.solve());
            assert!(is_complete(&board));
            assert!(!has_duplicates(&board));
            // every given cell kept its value
            for y in 0..9 {
                for x in 0..9 {
                    if given[x][y] != 0 {
                        assert_eq!(board.get_field(x, y), given[x][y]);
                    }
                }
            }
        }
    }
}

#[test]
fn solve_on_solved_board_is_noop() {
    let mut board = SudokuBoard::new();
    assert_eq!(board.edit_with(BOARD_EASY, 1, 0), Ok(()));
    assert!(board.solve());
    let mut solved = [[0u8; 9]; 9];
    for y in 0..9 {
        for x in 0..9 {
            solved[x][y] = board.get_field(x, y);
        }
    }
    assert!(board.solve());
    for y in 0..9 {
        for x in 0..9 {
            assert_eq!(board.get_field(x, y), solved[x][y]);
        }
    }
}

#[test]
fn solve_keeps_editable_and_valid_flags() {
    let mut board = SudokuBoard::new();
    assert_eq!(board.edit_with(BOARD_MOD, 3, 0), Ok(()));
    board.set_as_valid(8, 8);
    let mut editable = [[false; 9]; 9];
    for y in 0..9 {
        for x in 0..9 {
            editable[x][y] = board.is_editable(x, y);
        }
    }
    assert!(board.solve());
    for y in 0..9 {
        for x in 0..9 {
            assert_eq!(board.is_editable(x, y), editable[x][y]);
            assert_eq!(board.was_valid(x, y), (x, y) == (8, 8));
        }
    }
}

#[test]
fn solve_blocked_cell_reports_failure() {
    // a lone empty cell at (0, 0) whose row and column together already
    // hold every digit: the solver must refuse and leave the cell empty
    let mut board = SudokuBoard::new();
    for x in 1..9 {
        board.set_field(x, 0, (x + 1) as u8);
    }
    board.set_field(0, 1, 1);
    // fill every other cell with an arbitrary digit so only (0, 0) is empty
    for y in 1..9 {
        for x in 0..9 {
            if (x, y) != (0, 1) {
                board.set_field(x, y, 9);
            }
        }
    }
    let before: Vec<u8> = (0..9)
        .flat_map(|x| (0..9).map(move |y| (x, y)))
        .map(|(x, y)| board.get_field(x, y))
        .collect();
    assert!(!board.solve());
    assert_eq!(board.get_field(0, 0), 0);
    let after: Vec<u8> = (0..9)
        .flat_map(|x| (0..9).map(move |y| (x, y)))
        .map(|(x, y)| board.get_field(x, y))
        .collect();
    assert_eq!(before, after);
}

#[test]
fn next_empty_field_scans_row_major() {
    let mut board = SudokuBoard::new();
    assert_eq!(board.next_empty_field(), Some((0, 0)));
    board.set_field(0, 0, 1);
    board.set_field(1, 0, 2);
    assert_eq!(board.next_empty_field(), Some((2, 0)));
    for x in 2..9 {
        board.set_field(x, 0, 3);
    }
    // row 0 full: the scan moves to the second row
    assert_eq!(board.next_empty_field(), Some((0, 1)));
}

#[test]
fn next_empty_field_none_when_complete() {
    let mut board = SudokuBoard::new();
    assert_eq!(board.edit_with(BOARD_HARD, 0, 2), Ok(()));
    assert!(board.solve());
    assert_eq!(board.next_empty_field(), None);
}
