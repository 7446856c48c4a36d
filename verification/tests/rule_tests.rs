use sudoku_smt::constraint::anti_knight::AntiKnightConstraint;
use sudoku_smt::constraint::arrow::ArrowConstraint;
use sudoku_smt::constraint::diagonal::{Direction as DiagonalDirection, DiagonalConstraint};
use sudoku_smt::constraint::entropic_line::EntropicLineConstraint;
use sudoku_smt::constraint::equal_sum::EqualSumConstraint;
use sudoku_smt::constraint::german_whisper::GermanWhisperConstraint;
use sudoku_smt::constraint::kropki::BlackKropkiConstraint;
use sudoku_smt::constraint::little_killer::LittleKillerConstraint;
use sudoku_smt::constraint::palindrome::PalindromeConstraint;
use sudoku_smt::constraint::parity::{Parity, ParityConstraint};
use sudoku_smt::constraint::x_sum::{Direction, XSumConstraint};
use sudoku_smt::constraint::Rule;
use sudoku_smt::engine::solve;
use sudoku_smt::solver::SolveResult;
use sudoku_smt::sudoku::Cell;

fn empty_givens() -> Vec<Option<i32>> {
    vec![None; 81]
}

fn digit(sol: &Vec<i32>, row: usize, col: usize) -> i32 {
    sol[col + 9 * row]
}

#[test]
fn arrow_sums_to_its_head() {
    let arrow = Rule::Arrow(ArrowConstraint {
        cells: vec![Cell::new(0, 0), Cell::new(1, 1), Cell::new(2, 2)],
    });
    let (res, sol) = solve(&empty_givens(), &vec![arrow]);
    assert!(matches!(res, SolveResult::Solved));
    let sol = sol.unwrap();
    assert_eq!(digit(&sol, 0, 0), digit(&sol, 1, 1) + digit(&sol, 2, 2));
}

#[test]
fn palindrome_mirrors_values() {
    let pal = Rule::Palindrome(PalindromeConstraint {
        cells: vec![Cell::new(0, 0), Cell::new(1, 2), Cell::new(4, 1), Cell::new(5, 3)],
    });
    let (res, sol) = solve(&empty_givens(), &vec![pal]);
    assert!(matches!(res, SolveResult::Solved));
    let sol = sol.unwrap();
    assert_eq!(digit(&sol, 0, 0), digit(&sol, 5, 3));
    assert_eq!(digit(&sol, 1, 2), digit(&sol, 4, 1));
}

#[test]
fn german_whisper_keeps_distance() {
    let line = Rule::GermanWhisper(GermanWhisperConstraint {
        cells: vec![Cell::new(4, 4), Cell::new(4, 5), Cell::new(5, 5)],
    });
    let (res, sol) = solve(&empty_givens(), &vec![line]);
    assert!(matches!(res, SolveResult::Solved));
    let sol = sol.unwrap();
    assert!((digit(&sol, 4, 4) - digit(&sol, 4, 5)).abs() >= 5);
    assert!((digit(&sol, 4, 5) - digit(&sol, 5, 5)).abs() >= 5);

    let mut givens = empty_givens();
    givens[4 * 9 + 4] = Some(4);
    givens[4 * 9 + 5] = Some(6);
    let line2 = Rule::GermanWhisper(GermanWhisperConstraint {
        cells: vec![Cell::new(4, 4), Cell::new(4, 5)],
    });
    let (res2, _) = solve(&givens, &vec![line2]);
    assert!(matches!(res2, SolveResult::Unsolvable));
}

#[test]
fn entropic_line_mixes_bands() {
    let mut givens = empty_givens();
    givens[0] = Some(1);
    givens[1] = Some(2);
    let line = Rule::EntropicLine(EntropicLineConstraint {
        cells: vec![Cell::new(0, 0), Cell::new(0, 1), Cell::new(0, 2)],
    });
    // two low digits in one window of three cannot mix all three bands
    let (res, _) = solve(&givens, &vec![line]);
    assert!(matches!(res, SolveResult::Unsolvable));

    let mut givens2 = empty_givens();
    givens2[0] = Some(1);
    givens2[1] = Some(4);
    let line2 = Rule::EntropicLine(EntropicLineConstraint {
        cells: vec![Cell::new(0, 0), Cell::new(0, 1), Cell::new(0, 2)],
    });
    let (res2, sol2) = solve(&givens2, &vec![line2]);
    assert!(matches!(res2, SolveResult::Solved));
    let sol2 = sol2.unwrap();
    assert!(digit(&sol2, 0, 2) >= 7);
}

#[test]
fn equal_sum_balances_boxes() {
    let line = Rule::EqualSum(EqualSumConstraint {
        cells: vec![Cell::new(0, 2), Cell::new(0, 3), Cell::new(0, 4)],
    });
    let (res, sol) = solve(&empty_givens(), &vec![line]);
    assert!(matches!(res, SolveResult::Solved));
    let sol = sol.unwrap();
    assert_eq!(digit(&sol, 0, 2), digit(&sol, 0, 3) + digit(&sol, 0, 4));
}

#[test]
fn x_sum_counts_its_prefix() {
    let mut givens = empty_givens();
    givens[0] = Some(3);
    let clue = Rule::XSum(XSumConstraint {
        total: "15".to_string(),
        direction: Direction::Horizontal,
        cells: vec![Cell::new(0, 0)],
    });
    let (res, sol) = solve(&givens, &vec![clue]);
    assert!(matches!(res, SolveResult::Solved));
    let sol = sol.unwrap();
    assert_eq!(digit(&sol, 0, 0) + digit(&sol, 0, 1) + digit(&sol, 0, 2), 15);
}

#[test]
fn little_killer_sums_a_diagonal() {
    let clue = Rule::LittleKiller(LittleKillerConstraint {
        cells: vec![Cell::new(0, 0), Cell::new(1, 1)],
        total: "4".to_string(),
    });
    let (res, sol) = solve(&empty_givens(), &vec![clue]);
    assert!(matches!(res, SolveResult::Solved));
    let sol = sol.unwrap();
    assert_eq!(digit(&sol, 0, 0) + digit(&sol, 1, 1), 4);
}

#[test]
fn diagonal_rule_keeps_diagonals_distinct() {
    let diag = Rule::Diagonal(DiagonalConstraint { direction: DiagonalDirection::Both });
    let (res, sol) = solve(&empty_givens(), &vec![diag]);
    assert!(matches!(res, SolveResult::Solved));
    let sol = sol.unwrap();
    for d in 1..=9 {
        assert!((0..9).any(|i| digit(&sol, i, i) == d));
        assert!((0..9).any(|i| digit(&sol, i, 8 - i) == d));
    }
}

#[test]
fn anti_knight_blocks_knight_moves() {
    let mut givens = empty_givens();
    givens[0] = Some(5);
    givens[9 + 2] = Some(5);
    let (res, _) = solve(&givens, &vec![Rule::AntiKnight(AntiKnightConstraint)]);
    assert!(matches!(res, SolveResult::Unsolvable));

    let (res2, sol2) = solve(&empty_givens(), &vec![Rule::AntiKnight(AntiKnightConstraint)]);
    assert!(matches!(res2, SolveResult::Solved));
    let sol2 = sol2.unwrap();
    assert_ne!(digit(&sol2, 0, 0), digit(&sol2, 1, 2));
    assert_ne!(digit(&sol2, 0, 0), digit(&sol2, 2, 1));
}

#[test]
fn parity_fixes_a_cell() {
    let even = Rule::Parity(ParityConstraint { parity: Parity::Even, cells: vec![Cell::new(0, 0)] });
    let (res, sol) = solve(&empty_givens(), &vec![even]);
    assert!(matches!(res, SolveResult::Solved));
    assert_eq!(sol.unwrap()[0] % 2, 0);

    let odd = Rule::Parity(ParityConstraint { parity: Parity::Odd, cells: vec![Cell::new(0, 0)] });
    let (res2, sol2) = solve(&empty_givens(), &vec![odd]);
    assert!(matches!(res2, SolveResult::Solved));
    assert_eq!(sol2.unwrap()[0] % 2, 1);
}

#[test]
fn black_dot_doubles_a_neighbour() {
    let mut givens = empty_givens();
    givens[0] = Some(3);
    let dot = Rule::BlackKropki(BlackKropkiConstraint {
        cells: vec![Cell::new(0, 0), Cell::new(0, 1)],
    });
    let (res, sol) = solve(&givens, &vec![dot]);
    assert!(matches!(res, SolveResult::Solved));
    assert_eq!(digit(&sol.unwrap(), 0, 1), 6);

    let mut givens2 = empty_givens();
    givens2[0] = Some(5);
    let dot2 = Rule::BlackKropki(BlackKropkiConstraint {
        cells: vec![Cell::new(0, 0), Cell::new(0, 1)],
    });
    let (res2, _) = solve(&givens2, &vec![dot2]);
    assert!(matches!(res2, SolveResult::Unsolvable));
}
