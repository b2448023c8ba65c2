use sudoku_hint_engine::engine::Engine;
use sudoku_hint_engine::strategies::{HiddenSingle, NakedSingle};
use sudoku_hint_engine::strategy::{HintLevel, Strategy};
use sudoku_hint_engine::sudoku::Sudoku;

const PUZZLE: &str =
    "530070000600195000098000060800060003400803001700020006060000280000419005000080079";
const SOLUTION: &str =
    "534678912672195348198342567859761423426853791713924856961537284287419635345286179";
const DOC_PUZZLE: &str = ".4.....8.\n6..2....3\n.893.....\n.....8.6.\n..1......\n...754.9.\n.....6...\n.2....64.\n..31....5\n";

fn solution_digit(cell: usize) -> u8 {
    SOLUTION.as_bytes()[cell] - b'0'
}

fn clash_board() -> Sudoku {
    let mut text = String::from("11");
    for _ in 0..79 {
        text.push('.');
    }
    Sudoku::from_string(&text)
}

#[test]
fn naked_single_finds_single_candidate_cells() {
    let sdk = Sudoku::from_string(PUZZLE);
    assert_eq!(NakedSingle.name(), "Naked Single");
    let hint = NakedSingle.find(&sdk).unwrap();
    assert_eq!(hint.description, "セル(5,5) は候補が1つ 5 なので確定（Naked Single）");
    assert_eq!(hint.assignments, vec![(40, 5)]);
    assert!(hint.eliminations.is_empty());
    assert_eq!(NakedSingle.find_all(&sdk).len(), 4);
}

#[test]
fn naked_single_weak_hint_names_the_cell() {
    let sdk = Sudoku::from_string(PUZZLE);
    let hint = NakedSingle.find_with_level(&sdk, HintLevel::Weak).unwrap();
    assert_eq!(hint.description, "セル(5,5) に注目（Naked Single）");
    assert!(hint.assignments.is_empty());
    let all = NakedSingle.find_all_with_level(&sdk, HintLevel::Full);
    assert_eq!(all.len(), 4);
    assert_eq!(all[0].assignments, vec![(40, 5)]);
}

#[test]
fn hidden_single_finds_the_only_place() {
    let sdk = Sudoku::from_string(PUZZLE);
    assert_eq!(HiddenSingle.name(), "Hidden Single");
    let hint = HiddenSingle.find(&sdk).unwrap();
    assert_eq!(hint.description, "行 3 で数字 5 を置けるのはセル(3,7) だけ（Hidden Single）");
    assert_eq!(hint.assignments, vec![(24, 5)]);
    assert_eq!(HiddenSingle.find_all(&sdk).len(), 20);
    let weak = HiddenSingle.find_with_level(&sdk, HintLevel::Weak).unwrap();
    assert_eq!(weak.description, "行 3 の数字 5 に注目（Hidden Single）");
    assert!(weak.assignments.is_empty());
}

#[test]
fn no_hints_on_an_empty_board() {
    let sdk = Sudoku::new();
    assert!(NakedSingle.find(&sdk).is_none());
    assert!(HiddenSingle.find_all(&sdk).is_empty());
    let engine = Engine::basic();
    assert!(engine.next_hint(&sdk).is_none());
    assert!(engine.all_hints(&sdk).is_empty());
    let mut board = Sudoku::new();
    assert!(engine.apply_next(&mut board).is_none());
    assert!(engine.solve_stepwise(&mut board, None).is_empty());
}

#[test]
fn engine_tries_naked_single_first() {
    let sdk = Sudoku::from_string(PUZZLE);
    let engine = Engine::basic();
    let hint = engine.next_hint(&sdk).unwrap();
    assert_eq!(hint.assignments, vec![(40, 5)]);
    let (name, hint) = engine.next_hint_with_name(&sdk).unwrap();
    assert_eq!(name, "Naked Single");
    assert_eq!(hint.description, "セル(5,5) は候補が1つ 5 なので確定（Naked Single）");
    let weak = engine.next_hint_with_level(&sdk, HintLevel::Weak).unwrap();
    assert_eq!(weak.description, "セル(5,5) に注目（Naked Single）");
    let (name, weak) = engine
        .next_hint_with_name_and_level(&sdk, HintLevel::Weak)
        .unwrap();
    assert_eq!(name, "Naked Single");
    assert!(weak.assignments.is_empty());
}

#[test]
fn engine_hint_on_the_documented_puzzle() {
    let sdk = Sudoku::from_string(DOC_PUZZLE);
    let engine = Engine::basic();
    let (name, hint) = engine.next_hint_with_name(&sdk).unwrap();
    assert_eq!(name, "Naked Single");
    assert_eq!(hint.description, "セル(4,4) は候補が1つ 9 なので確定（Naked Single）");
    assert_eq!(hint.assignments, vec![(30, 9)]);
    assert!(Engine::has_solution(&sdk));
}

#[test]
fn all_hints_lists_each_technique() {
    let sdk = Sudoku::from_string(PUZZLE);
    let all = Engine::basic().all_hints(&sdk);
    assert_eq!(all.len(), 2);
    assert_eq!(all[0].0, "Naked Single");
    assert_eq!(all[0].1.len(), 4);
    assert_eq!(all[1].0, "Hidden Single");
    assert_eq!(all[1].1.len(), 20);
}

#[test]
fn apply_next_applies_one_hint() {
    let mut sdk = Sudoku::from_string(PUZZLE);
    let engine = Engine::basic();
    let (name, hint) = engine.apply_next(&mut sdk).unwrap();
    assert_eq!(name, "Naked Single");
    assert_eq!(hint.assignments, vec![(40, 5)]);
    assert!(sdk.is_confirmed(40));
    assert_eq!(sdk.candidates_string(40), "5");
}

#[test]
fn solve_stepwise_with_a_limit() {
    let mut sdk = Sudoku::from_string(PUZZLE);
    let steps = Engine::basic().solve_stepwise(&mut sdk, Some(3));
    assert_eq!(steps.len(), 3);
    assert_eq!(steps[0].1.description, "セル(5,5) は候補が1つ 5 なので確定（Naked Single）");
    assert_eq!(steps[1].1.description, "セル(5,2) は候補が1つ 2 なので確定（Naked Single）");
    assert_eq!(steps[2].1.description, "セル(5,8) は候補が1つ 9 なので確定（Naked Single）");
    assert!(sdk.is_confirmed(37));
    let none = Engine::basic().solve_stepwise(&mut sdk, Some(0));
    assert!(none.is_empty());
}

#[test]
fn solve_stepwise_solves_an_easy_puzzle() {
    let mut sdk = Sudoku::from_string(PUZZLE);
    let steps = Engine::basic().solve_stepwise(&mut sdk, None);
    assert_eq!(steps.len(), 51);
    for i in 0..81 {
        assert_eq!(sdk.candidates_string(i), solution_digit(i).to_string());
        assert!(sdk.is_confirmed(i));
    }
}

#[test]
fn every_full_hint_agrees_with_the_solution() {
    let sdk = Sudoku::from_string(PUZZLE);
    for hint in NakedSingle.find_all(&sdk).iter().chain(HiddenSingle.find_all(&sdk).iter()) {
        assert_eq!(hint.assignments.len(), 1);
        let (cell, digit) = hint.assignments[0];
        assert_eq!(digit, solution_digit(cell));
    }
}

#[test]
fn solving_keeps_the_solution() {
    let mut sdk = Sudoku::from_string(PUZZLE);
    Engine::basic().solve_stepwise(&mut sdk, Some(20));
    for i in 0..81 {
        assert!(sdk.cell_mask(i) & (1u16 << solution_digit(i)) != 0);
    }
    assert!(Engine::has_solution(&sdk));
}

#[test]
fn has_solution_decides_solvability() {
    assert!(Engine::has_solution(&Sudoku::from_string(PUZZLE)));
    assert!(!Engine::has_solution(&clash_board()));
    let mut sdk = Sudoku::from_string(PUZZLE);
    sdk.assign(2, 1).unwrap();
    assert!(!Engine::has_solution(&sdk));
}

#[test]
fn moves_are_checked_against_solutions() {
    let sdk = Sudoku::from_string(PUZZLE);
    assert!(Engine::is_move_possible(&sdk, (2, 4)));
    assert!(!Engine::is_move_possible(&sdk, (2, 1)));
    assert!(Engine::has_solution_with_moves(&sdk, &[(2, 4), (3, 6)]));
    assert!(!Engine::has_solution_with_moves(&sdk, &[(2, 1), (3, 6), (5, 8)]));
    assert!(Engine::has_solution_with_moves(&sdk, &[]));
}

#[test]
fn minimal_unsat_subset_keeps_the_culprit() {
    let sdk = Sudoku::from_string(PUZZLE);
    let moves = vec![(2, 1), (3, 6), (5, 8)];
    let minimal = Engine::minimal_unsat_subset(&sdk, moves);
    assert_eq!(minimal, vec![(2, 1)]);
    assert!(!Engine::has_solution_with_moves(&sdk, &minimal));
    assert!(Engine::has_solution_with_moves(&sdk, &[]));
    let two_wrong = vec![(2, 1), (3, 2), (5, 8)];
    assert_eq!(Engine::minimal_unsat_subset(&sdk, two_wrong), vec![(3, 2)]);
}

#[test]
fn minimal_unsat_subset_of_solvable_moves_is_unchanged() {
    let sdk = Sudoku::from_string(PUZZLE);
    let moves = vec![(2, 4), (3, 6)];
    assert_eq!(Engine::minimal_unsat_subset(&sdk, moves.clone()), moves);
}

#[test]
fn suspects_are_moves_whose_removal_helps() {
    let sdk = Sudoku::from_string(PUZZLE);
    let moves = [(2, 1), (3, 6), (5, 8)];
    assert_eq!(Engine::suspect_single_moves(&sdk, &moves), vec![(2, 1)]);
    assert_eq!(
        Engine::suspect_pair_move(&sdk, &moves, 500),
        Some(((2, 1), (3, 6)))
    );
    assert_eq!(Engine::suspect_pair_move(&sdk, &moves, 0), None);
    let two_wrong = [(2, 1), (3, 2), (5, 8)];
    assert!(Engine::suspect_single_moves(&sdk, &two_wrong).is_empty());
    assert_eq!(
        Engine::suspect_pair_move(&sdk, &two_wrong, 500),
        Some(((2, 1), (3, 2)))
    );
    assert_eq!(
        Engine::suspect_pair_move(&sdk, &two_wrong, 1),
        Some(((2, 1), (3, 2)))
    );
}

#[test]
fn premature_moves_are_those_not_yet_justified() {
    let sdk = Sudoku::from_string(PUZZLE);
    let moves = [(40, 5), (2, 4), (24, 5)];
    assert_eq!(Engine::find_premature_moves(&sdk, &moves), vec![(2, 4)]);
    let early = [(2, 4), (3, 6)];
    assert_eq!(Engine::find_premature_moves(&sdk, &early), vec![(2, 4), (3, 6)]);
    assert!(Engine::find_premature_moves(&sdk, &[]).is_empty());
}

#[test]
fn moves_that_empty_a_cell_are_refused() {
    let sdk = Sudoku::new();
    assert!(!Engine::has_solution_with_moves(&sdk, &[(0, 1), (1, 1)]));
    assert!(!Engine::has_solution_with_moves(&sdk, &[(0, 1), (1, 1), (0, 2)]));
}

#[test]
fn premature_moves_accept_any_pair() {
    let sdk = Sudoku::from_string(PUZZLE);
    assert_eq!(
        Engine::find_premature_moves(&sdk, &[(40, 5), (100, 0)]),
        vec![(100, 0)]
    );
}

#[test]
fn premature_moves_do_not_depend_on_order() {
    let sdk = Sudoku::from_string(PUZZLE);
    assert_eq!(
        Engine::find_premature_moves(&sdk, &[(24, 5), (2, 4), (40, 5)]),
        vec![(2, 4)]
    );
    assert_eq!(
        Engine::find_premature_moves(&sdk, &[(24, 5), (2, 4), (40, 5), (40, 5)]),
        vec![(2, 4)]
    );
}

#[test]
fn solving_in_two_parts_equals_one_run() {
    let engine = Engine::basic();
    let mut x = Sudoku::from_string(PUZZLE);
    let mut y = Sudoku::from_string(PUZZLE);
    let first = engine.solve_stepwise(&mut x, Some(5));
    let second = engine.solve_stepwise(&mut x, None);
    let whole = engine.solve_stepwise(&mut y, None);
    assert_eq!(first.len() + second.len(), whole.len());
    for (k, (name, hint)) in first.iter().chain(second.iter()).enumerate() {
        assert_eq!(name, &whole[k].0);
        assert_eq!(hint.description, whole[k].1.description);
        assert_eq!(hint.assignments, whole[k].1.assignments);
    }
    for i in 0..81 {
        assert_eq!(x.cell_mask(i), y.cell_mask(i));
        assert_eq!(x.is_confirmed(i), y.is_confirmed(i));
    }
}
