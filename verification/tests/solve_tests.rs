use sudoku_smt::constraint::kropki::{
    BlackKropkiConstraint, NegativeBlackKropkiConstraint, NegativeWhiteKropkiConstraint,
    WhiteKropkiConstraint,
};
use sudoku_smt::constraint::killer_cage::KillerCageConstraint;
use sudoku_smt::constraint::renban::RenbanConstraint;
use sudoku_smt::constraint::thermo::ThermoConstraint;
use sudoku_smt::constraint::Rule;
use sudoku_smt::engine::solve;
use sudoku_smt::solver::SolveResult;
use sudoku_smt::sudoku::Cell;

fn empty_givens() -> Vec<Option<i32>> {
    vec![None; 81]
}

fn digit(sol: &Vec<i32>, row: usize, col: usize) -> i32 {
    sol[col + 9 * row]
}

fn assert_is_permutation(vals: &Vec<i32>) {
    assert_eq!(vals.len(), 9);
    for d in 1..=9 {
        assert!(vals.contains(&d), "digit missing from a house");
    }
}

#[test]
fn empty_grid_has_a_solution() {
    let (res, sol) = solve(&empty_givens(), &Vec::new());
    assert!(matches!(res, SolveResult::Solved));
    let sol = sol.unwrap();
    assert_eq!(sol.len(), 81);
    for r in 0..9 {
        let row: Vec<i32> = (0..9).map(|c| digit(&sol, r, c)).collect();
        assert_is_permutation(&row);
    }
    for c in 0..9 {
        let col: Vec<i32> = (0..9).map(|r| digit(&sol, r, c)).collect();
        assert_is_permutation(&col);
    }
    for bx in 0..3 {
        for by in 0..3 {
            let mut cells = Vec::new();
            for i in 0..3 {
                for j in 0..3 {
                    cells.push(digit(&sol, 3 * bx + i, 3 * by + j));
                }
            }
            assert_is_permutation(&cells);
        }
    }
}

#[test]
fn single_given_digit_is_kept() {
    let mut givens = empty_givens();
    givens[0] = Some(5);
    let (res, sol) = solve(&givens, &Vec::new());
    assert!(matches!(res, SolveResult::Solved));
    let sol = sol.unwrap();
    assert_eq!(digit(&sol, 0, 0), 5);
}

#[test]
fn repeated_digit_in_a_row_is_unsolvable() {
    let mut givens = empty_givens();
    givens[0] = Some(5);
    givens[5] = Some(5);
    let (res, sol) = solve(&givens, &Vec::new());
    assert!(matches!(res, SolveResult::Unsolvable));
    assert!(sol.is_none());
}

#[test]
fn unparsable_cage_total_is_rejected() {
    let cage = Rule::KillerCage(KillerCageConstraint {
        cells: vec![Cell::new(0, 0), Cell::new(0, 1), Cell::new(1, 0)],
        total: "abc".to_string(),
    });
    let (res, sol) = solve(&empty_givens(), &vec![cage]);
    assert!(matches!(res, SolveResult::InvalidInput));
    assert!(sol.is_none());
}

#[test]
fn cage_forces_its_total() {
    let cage = Rule::KillerCage(KillerCageConstraint {
        cells: vec![Cell::new(0, 0), Cell::new(0, 1)],
        total: "17".to_string(),
    });
    let (res, sol) = solve(&empty_givens(), &vec![cage]);
    assert!(matches!(res, SolveResult::Solved));
    let sol = sol.unwrap();
    assert_eq!(digit(&sol, 0, 0) + digit(&sol, 0, 1), 17);
    assert_ne!(digit(&sol, 0, 0), digit(&sol, 0, 1));
}

#[test]
fn renban_accepts_a_consecutive_run() {
    let mut givens = empty_givens();
    givens[0] = Some(5);
    givens[1] = Some(3);
    givens[2] = Some(4);
    let renban = Rule::Renban(RenbanConstraint {
        cells: vec![Cell::new(0, 0), Cell::new(0, 1), Cell::new(0, 2)],
    });
    let (res, _) = solve(&givens, &vec![renban]);
    assert!(matches!(res, SolveResult::Solved));
}

#[test]
fn renban_rejects_a_gap() {
    let mut givens = empty_givens();
    givens[0] = Some(5);
    givens[1] = Some(3);
    givens[2] = Some(7);
    let renban = Rule::Renban(RenbanConstraint {
        cells: vec![Cell::new(0, 0), Cell::new(0, 1), Cell::new(0, 2)],
    });
    let (res, sol) = solve(&givens, &vec![renban]);
    assert!(matches!(res, SolveResult::Unsolvable));
    assert!(sol.is_none());
}

#[test]
fn renban_is_order_blind() {
    // the same digits in a different claimed order must stay satisfiable
    for perm in [[4, 5, 6], [6, 4, 5], [5, 6, 4]] {
        let mut givens = empty_givens();
        givens[0] = Some(perm[0]);
        givens[1] = Some(perm[1]);
        givens[2] = Some(perm[2]);
        let renban = Rule::Renban(RenbanConstraint {
            cells: vec![Cell::new(0, 0), Cell::new(0, 1), Cell::new(0, 2)],
        });
        let (res, _) = solve(&givens, &vec![renban]);
        assert!(matches!(res, SolveResult::Solved));
    }
}

#[test]
fn white_dot_links_neighbours() {
    let mut givens = empty_givens();
    givens[0] = Some(3);
    let dot = Rule::WhiteKropki(WhiteKropkiConstraint {
        cells: vec![Cell::new(0, 0), Cell::new(0, 1)],
    });
    let (res, sol) = solve(&givens, &vec![dot]);
    assert!(matches!(res, SolveResult::Solved));
    let sol = sol.unwrap();
    let b = digit(&sol, 0, 1);
    assert!(b == 2 || b == 4);
}

/// A full grid in which no two orthogonally adjacent cells hold
/// consecutive digits: a cyclically shifted base grid relabelled so that
/// neighbouring cells always land at least two apart.
fn non_consecutive_grid() -> Vec<Option<i32>> {
    let relabel = [9, 5, 1, 6, 2, 7, 3, 8, 4];
    let mut givens = empty_givens();
    for r in 0..9 {
        for c in 0..9 {
            givens[c + 9 * r] = Some(relabel[(c + 3 * r + r / 3) % 9]);
        }
    }
    givens
}

#[test]
fn negative_white_dots_hold_off_dots() {
    // a grid with no consecutive neighbours anywhere satisfies the
    // blanket negative rule
    let (res, sol) = solve(&non_consecutive_grid(), &vec![
        Rule::NegativeWhiteKropki(NegativeWhiteKropkiConstraint),
    ]);
    assert!(matches!(res, SolveResult::Solved));
    assert!(sol.is_some());
}

#[test]
fn negative_white_dots_spare_the_claimed_pair() {
    // an unclaimed adjacent consecutive pair contradicts the blanket
    // negation outright ...
    let mut givens2 = empty_givens();
    givens2[0] = Some(1);
    givens2[1] = Some(2);
    givens2[2] = Some(3);
    let rules2 = vec![
        Rule::WhiteKropki(WhiteKropkiConstraint {
            cells: vec![Cell::new(0, 0), Cell::new(0, 1)],
        }),
        Rule::NegativeWhiteKropki(NegativeWhiteKropkiConstraint),
    ];
    let (res2, sol2) = solve(&givens2, &rules2);
    assert!(matches!(res2, SolveResult::Unsolvable));
    assert!(sol2.is_none());

    // ... while the same consecutive digits on the pair the dot claims
    // raise no contradiction at all
    let mut givens = empty_givens();
    givens[0] = Some(1);
    givens[1] = Some(2);
    let rules = vec![
        Rule::WhiteKropki(WhiteKropkiConstraint {
            cells: vec![Cell::new(0, 0), Cell::new(0, 1)],
        }),
        Rule::NegativeWhiteKropki(NegativeWhiteKropkiConstraint),
    ];
    let (res, _) = solve(&givens, &rules);
    assert!(!matches!(res, SolveResult::Unsolvable));
    assert!(!matches!(res, SolveResult::InvalidInput));
}

#[test]
fn negative_black_dots_ignore_white_dots() {
    // a white dot shields its pair from the negative white rule only:
    // the same pair still falls under the blanket negative black rule,
    // and 1 next to 2 satisfies the black relation
    let mut givens = empty_givens();
    givens[0] = Some(1);
    givens[1] = Some(2);
    let rules = vec![
        Rule::WhiteKropki(WhiteKropkiConstraint {
            cells: vec![Cell::new(0, 0), Cell::new(0, 1)],
        }),
        Rule::NegativeBlackKropki(NegativeBlackKropkiConstraint),
    ];
    let (res, sol) = solve(&givens, &rules);
    assert!(matches!(res, SolveResult::Unsolvable));
    assert!(sol.is_none());
}

#[test]
fn negative_black_dots_spare_their_own_colour() {
    // the same digits under a black dot claiming the pair raise no
    // contradiction with the negative black rule
    let mut givens = empty_givens();
    givens[0] = Some(1);
    givens[1] = Some(2);
    let rules = vec![
        Rule::BlackKropki(BlackKropkiConstraint {
            cells: vec![Cell::new(0, 0), Cell::new(0, 1)],
        }),
        Rule::NegativeBlackKropki(NegativeBlackKropkiConstraint),
    ];
    let (res, _) = solve(&givens, &rules);
    assert!(!matches!(res, SolveResult::Unsolvable));
    assert!(!matches!(res, SolveResult::InvalidInput));
}

#[test]
fn thermometer_increases() {
    let mut givens = empty_givens();
    givens[0] = Some(7);
    let thermo = Rule::Thermo(ThermoConstraint {
        cells: vec![Cell::new(0, 0), Cell::new(1, 0), Cell::new(2, 0)],
    });
    let (res, sol) = solve(&givens, &vec![thermo]);
    assert!(matches!(res, SolveResult::Solved));
    let sol = sol.unwrap();
    assert!(digit(&sol, 0, 0) < digit(&sol, 1, 0));
    assert!(digit(&sol, 1, 0) < digit(&sol, 2, 0));

    let mut givens2 = empty_givens();
    givens2[0] = Some(9);
    let thermo2 = Rule::Thermo(ThermoConstraint {
        cells: vec![Cell::new(0, 0), Cell::new(1, 0)],
    });
    let (res2, _) = solve(&givens2, &vec![thermo2]);
    assert!(matches!(res2, SolveResult::Unsolvable));
}

#[test]
fn empty_rule_is_rejected_before_any_engine_work() {
    let cage = Rule::KillerCage(KillerCageConstraint { cells: vec![], total: "10".to_string() });
    let (res, sol) = solve(&empty_givens(), &vec![cage]);
    assert!(matches!(res, SolveResult::InvalidInput));
    assert!(sol.is_none());
}
