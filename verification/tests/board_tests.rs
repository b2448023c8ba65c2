use sudoku_hint_engine::strategy::{bit, is_single, single_digit, Hint};
use sudoku_hint_engine::sudoku::{parse_board, Sudoku, ALL};

const PUZZLE: &str =
    "530070000600195000098000060800060003400803001700020006060000280000419005000080079";

#[test]
fn bit_gives_the_digit_mask() {
    assert_eq!(bit(1), 2);
    assert_eq!(bit(5), 32);
    assert_eq!(bit(9), 512);
}

#[test]
fn is_single_counts_one_bit() {
    assert!(!is_single(0));
    assert!(is_single(1));
    assert!(is_single(8));
    assert!(!is_single(ALL));
    assert!(!is_single(0b110));
}

#[test]
fn single_digit_reads_digits_one_to_nine() {
    assert_eq!(single_digit(32), Some(5));
    assert_eq!(single_digit(512), Some(9));
    assert_eq!(single_digit(ALL), None);
    assert_eq!(single_digit(0), None);
    assert_eq!(single_digit(1), None);
    assert_eq!(single_digit(1 << 10), None);
}

#[test]
fn new_board_has_all_candidates() {
    let sdk = Sudoku::new();
    for i in 0..81 {
        assert_eq!(sdk.cell_mask(i), ALL);
        assert!(!sdk.initially_given(i));
        assert!(!sdk.is_confirmed(i));
    }
    assert_eq!(sdk.candidates_string(0), "[1,2,3,4,5,6,7,8,9]");
}

#[test]
fn units_are_rows_columns_boxes() {
    let sdk = Sudoku::new();
    let units = sdk.units();
    assert_eq!(units.len(), 27);
    assert_eq!(units[0], [0, 1, 2, 3, 4, 5, 6, 7, 8]);
    assert_eq!(units[8], [72, 73, 74, 75, 76, 77, 78, 79, 80]);
    assert_eq!(units[9], [0, 9, 18, 27, 36, 45, 54, 63, 72]);
    assert_eq!(units[17], [8, 17, 26, 35, 44, 53, 62, 71, 80]);
    assert_eq!(units[18], [0, 1, 2, 9, 10, 11, 18, 19, 20]);
    assert_eq!(units[22], [30, 31, 32, 39, 40, 41, 48, 49, 50]);
    assert_eq!(units[26], [60, 61, 62, 69, 70, 71, 78, 79, 80]);
}

#[test]
fn from_string_places_givens() {
    let sdk = Sudoku::from_string(PUZZLE);
    assert!(sdk.initially_given(0));
    assert!(sdk.is_confirmed(0));
    assert!(!sdk.initially_given(2));
    assert!(!sdk.is_confirmed(2));
    assert_eq!(sdk.candidates_string(0), "5");
    assert_eq!(sdk.candidates_string(2), "[1,2,4]");
    assert_eq!(sdk.candidates_string(3), "[2,6]");
    assert_eq!(sdk.candidates_string(40), "5");
    assert_eq!(sdk.cell_mask(0), 32);
}

#[test]
fn from_string_ignores_whitespace_and_reads_dots() {
    let spaced = "53..7....\n6..195...\n.98....6.\n8...6...3\n4..8.3..1\n7...2...6\n.6....28.\n...419..5\n....8..79\n";
    let a = Sudoku::from_string(spaced);
    let b = Sudoku::from_string(PUZZLE);
    for i in 0..81 {
        assert_eq!(a.cell_mask(i), b.cell_mask(i));
        assert_eq!(a.initially_given(i), b.initially_given(i));
    }
}

#[test]
fn from_string_clash_leaves_earlier_cell_empty() {
    let mut text = String::from("11");
    for _ in 0..79 {
        text.push('.');
    }
    let sdk = Sudoku::from_string(&text);
    assert_eq!(sdk.cell_mask(0), 0);
    assert_eq!(sdk.candidates_string(0), "[]");
    assert_eq!(sdk.candidates_string(1), "1");
    assert_eq!(sdk.candidates_string(2), "[2,3,4,5,6,7,8,9]");
}

#[test]
fn set_value_clears_the_digit_from_peers() {
    let mut sdk = Sudoku::new();
    sdk.set_value(0, 5);
    assert_eq!(sdk.cell_mask(0), 32);
    assert_eq!(sdk.cell_mask(1), ALL & !32);
    assert_eq!(sdk.cell_mask(72), ALL & !32);
    assert_eq!(sdk.cell_mask(20), ALL & !32);
    assert_eq!(sdk.cell_mask(80), ALL);
    assert_eq!(sdk.cell_mask(30), ALL);
    assert!(!sdk.is_confirmed(0));
}

#[test]
fn assign_confirms_the_cell() {
    let mut sdk = Sudoku::new();
    assert_eq!(sdk.assign(40, 7), Ok(()));
    assert!(sdk.is_confirmed(40));
    assert!(!sdk.initially_given(40));
    assert_eq!(sdk.candidates_string(40), "7");
    assert_eq!(sdk.cell_mask(41), ALL & !128);
}

#[test]
fn eliminate_fails_when_no_candidate_is_left() {
    let mut sdk = Sudoku::new();
    assert_eq!(sdk.eliminate(1, 3), Ok(()));
    assert_eq!(sdk.cell_mask(1), ALL & !8);
    assert_eq!(sdk.candidates_string(1), "[1,2,4,5,6,7,8,9]");
    sdk.set_value(0, 5);
    assert_eq!(sdk.eliminate(0, 5), Err(()));
    assert_eq!(sdk.cell_mask(0), 0);
}

#[test]
fn hint_apply_assigns_then_eliminates() {
    let mut sdk = Sudoku::new();
    let hint = Hint {
        description: String::from("test"),
        assignments: vec![(0, 5)],
        eliminations: vec![(1, vec![1, 2])],
    };
    assert_eq!(hint.apply(&mut sdk), Ok(()));
    assert_eq!(sdk.candidates_string(0), "5");
    assert!(sdk.is_confirmed(0));
    assert_eq!(sdk.candidates_string(1), "[3,4,6,7,8,9]");
}

#[test]
fn hint_apply_stops_at_an_empty_cell() {
    let mut sdk = Sudoku::new();
    let hint = Hint {
        description: String::from("test"),
        assignments: vec![(0, 5)],
        eliminations: vec![(0, vec![5, 6]), (2, vec![1])],
    };
    assert_eq!(hint.apply(&mut sdk), Err(()));
    assert_eq!(sdk.cell_mask(0), 0);
    assert_eq!(sdk.cell_mask(2), ALL & !32);
}

#[test]
fn parse_board_reads_digits_and_blanks() {
    let cells = parse_board(PUZZLE);
    assert_eq!(cells.len(), 81);
    assert_eq!(cells[0], Some(5));
    assert_eq!(cells[1], Some(3));
    assert_eq!(cells[2], None);
    assert_eq!(cells[80], Some(9));
    let spaced = parse_board("12345678.\n.........\n.........\n.........\n.........\n.........\n.........\n.........\n........x");
    assert_eq!(spaced[7], Some(8));
    assert_eq!(spaced[8], None);
    assert_eq!(spaced[80], None);
}

#[test]
fn every_cell_has_twenty_peers() {
    for cell in [0usize, 13, 40, 67, 80] {
        let mut sdk = Sudoku::new();
        sdk.set_value(cell, 1);
        let changed = (0..81)
            .filter(|&i| i != cell && sdk.cell_mask(i) != ALL)
            .count();
        assert_eq!(changed, 20);
    }
}

#[test]
fn given_cells_are_confirmed_and_confirmed_cells_single() {
    let mut sdk = Sudoku::from_string(PUZZLE);
    sdk.assign(2, 4).unwrap();
    let _ = sdk.eliminate(3, 2);
    sdk.set_value(4, 7);
    for i in 0..81 {
        if sdk.initially_given(i) {
            assert!(sdk.is_confirmed(i));
        }
        if sdk.is_confirmed(i) {
            assert!(sdk.cell_mask(i).count_ones() <= 1);
        }
    }
}
