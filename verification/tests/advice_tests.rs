use sudoku_hint_engine::advice::{collect_user_moves, corrected_board, review_user_board, BoardIssue};
use sudoku_hint_engine::sudoku::{parse_board, Sudoku};

const PUZZLE: &str =
    "530070000600195000098000060800060003400803001700020006060000280000419005000080079";

fn user_board(changes: &[(usize, u8)]) -> Vec<Option<u8>> {
    let mut cells = parse_board(PUZZLE);
    for &(i, d) in changes {
        cells[i] = Some(d);
    }
    cells
}

#[test]
fn review_accepts_matching_givens_and_assigns_the_rest() {
    let mut base = Sudoku::from_string(PUZZLE);
    let user = user_board(&[(2, 4), (3, 6)]);
    let issues = review_user_board(&mut base, &user);
    assert!(issues.is_empty());
    assert!(base.is_confirmed(2));
    assert_eq!(base.candidates_string(2), "4");
    assert_eq!(base.candidates_string(3), "6");
    assert!(!base.initially_given(2));
}

#[test]
fn review_reports_a_changed_given() {
    let mut base = Sudoku::from_string(PUZZLE);
    let user = user_board(&[(0, 7)]);
    let issues = review_user_board(&mut base, &user);
    assert_eq!(
        issues,
        vec![BoardIssue::GivenMismatch { cell: 0, given: 5, user: 7 }]
    );
}

#[test]
fn review_reports_a_given_that_is_no_longer_single() {
    let mut text = String::from("11");
    for _ in 0..79 {
        text.push('.');
    }
    let mut base = Sudoku::from_string(&text);
    let user = parse_board(&text);
    let issues = review_user_board(&mut base, &user);
    assert_eq!(issues, vec![BoardIssue::GivenNotSingle { cell: 0 }]);
}

#[test]
fn user_moves_skip_given_cells() {
    let base = Sudoku::from_string(PUZZLE);
    let user = user_board(&[(3, 6), (2, 4)]);
    assert_eq!(collect_user_moves(&base, &user), vec![(2, 4), (3, 6)]);
}

#[test]
fn corrected_board_drops_premature_moves_only() {
    let base = Sudoku::from_string(PUZZLE);
    let user = user_board(&[(2, 4), (3, 6)]);
    let fixed = corrected_board(&base, &user, &[(2, 4), (0, 5)]);
    assert_eq!(fixed[0], Some(5));
    assert_eq!(fixed[2], None);
    assert_eq!(fixed[3], Some(6));
    assert_eq!(fixed[4], Some(7));
    assert_eq!(fixed[5], None);
}
