use sudoku_smt::constraint::diagonal::Direction as DiagonalDirection;
use sudoku_smt::constraint::parity::Parity;
use sudoku_smt::constraint::x_sum::{iter_cells_in_dir, Direction};
use sudoku_smt::constraint::{
    configurable_names, make_configurable, make_default_constraint, ConfigurableConstraint,
    DynClone, KillerCageConstraint, Rule,
};
use sudoku_smt::parse::parse_i32;
use sudoku_smt::solver::SolveResult;
use sudoku_smt::sudoku::Cell;

#[test]
fn cell_navigation() {
    let c = Cell::new(4, 7);
    assert_eq!(c.up(), Cell::new(3, 7));
    assert_eq!(c.down(), Cell::new(5, 7));
    assert_eq!(c.left(), Cell::new(4, 6));
    assert_eq!(c.right(), Cell::new(4, 8));
}

#[test]
fn parse_plain_numbers() {
    assert_eq!(parse_i32("0"), Some(0));
    assert_eq!(parse_i32("45"), Some(45));
    assert_eq!(parse_i32("007"), Some(7));
    assert_eq!(parse_i32("+17"), Some(17));
    assert_eq!(parse_i32("-9"), Some(-9));
}

#[test]
fn parse_limits() {
    assert_eq!(parse_i32("2147483647"), Some(i32::MAX));
    assert_eq!(parse_i32("-2147483648"), Some(i32::MIN));
    assert_eq!(parse_i32("2147483648"), None);
    assert_eq!(parse_i32("-2147483649"), None);
}

#[test]
fn parse_rejects_junk() {
    assert_eq!(parse_i32(""), None);
    assert_eq!(parse_i32("abc"), None);
    assert_eq!(parse_i32("-"), None);
    assert_eq!(parse_i32("+"), None);
    assert_eq!(parse_i32("1 2"), None);
    assert_eq!(parse_i32("12a"), None);
}

#[test]
fn verdict_messages() {
    assert_eq!(SolveResult::Solved.message(), "");
    assert_eq!(SolveResult::Unsolvable.message(), "Unsolvable");
    assert_eq!(SolveResult::TimedOut.message(), "Solver timed out");
    assert_eq!(SolveResult::InvalidInput.message(), "Invalid input");
}

#[test]
fn registry_knows_every_catalog_name() {
    let names = configurable_names();
    assert_eq!(names.len(), 17);
    for name in &names {
        let rule = make_configurable(name);
        assert!(rule.is_some(), "missing registry entry");
        assert_eq!(rule.unwrap().name(), *name);
    }
    assert!(make_configurable("Sandwich Sum").is_none());
    assert!(make_configurable("").is_none());
}

#[test]
fn registry_default_is_a_cage() {
    let rule = make_default_constraint();
    assert_eq!(rule.name(), "Killer Cage");
    match rule {
        Rule::KillerCage(c) => {
            assert!(c.cells.is_empty());
            assert_eq!(c.total, "0");
        },
        _ => panic!("unexpected default rule"),
    }
}

#[test]
fn clone_is_value_independent() {
    let original = KillerCageConstraint {
        cells: vec![Cell::new(0, 0), Cell::new(0, 1)],
        total: "9".to_string(),
    };
    let mut copy = original.dyn_clone();
    copy.push_highlighted_cell(Cell::new(0, 2));
    copy.total.push('9');
    assert_eq!(original.cells.len(), 2);
    assert_eq!(copy.cells.len(), 3);
    assert_eq!(original.total, "9");
    assert_eq!(copy.total, "99");
}

#[test]
fn clone_is_value_independent_for_rules() {
    let original = Rule::KillerCage(KillerCageConstraint {
        cells: vec![Cell::new(3, 3)],
        total: "5".to_string(),
    });
    let mut copy = original.dyn_clone();
    copy.push_highlighted_cell(Cell::new(3, 4));
    match (&original, &copy) {
        (Rule::KillerCage(a), Rule::KillerCage(b)) => {
            assert_eq!(a.cells.len(), 1);
            assert_eq!(b.cells.len(), 2);
        },
        _ => panic!("clone changed the rule kind"),
    }
}

#[test]
fn validity_checks_per_rule() {
    let cage = KillerCageConstraint { cells: vec![Cell::new(0, 0)], total: "12".to_string() };
    assert!(cage.is_valid());
    let empty_cage = KillerCageConstraint { cells: vec![], total: "12".to_string() };
    assert!(!empty_cage.is_valid());
    let bad_total = KillerCageConstraint { cells: vec![Cell::new(0, 0)], total: "abc".to_string() };
    assert!(!bad_total.is_valid());

    let mut dot = make_configurable("White Kropki Dot").unwrap();
    assert!(!dot.is_valid());
    assert_eq!(dot.get_max_highlighted_cells(), 2);
    dot.push_highlighted_cell(Cell::new(0, 0));
    dot.push_highlighted_cell(Cell::new(0, 1));
    assert!(dot.is_valid());

    let knight = make_configurable("Anti-Knight").unwrap();
    assert!(knight.is_valid());
    assert!(knight.get_highlighted_cells().is_none());
}

#[test]
fn default_configurations() {
    match make_configurable("Diagonal").unwrap() {
        Rule::Diagonal(d) => assert!(d.direction == DiagonalDirection::Both),
        _ => panic!("wrong rule kind"),
    }
    match make_configurable("Parity").unwrap() {
        Rule::Parity(p) => assert!(p.parity == Parity::Odd),
        _ => panic!("wrong rule kind"),
    }
    match make_configurable("X-Sum").unwrap() {
        Rule::XSum(x) => {
            assert!(x.direction == Direction::Horizontal);
            assert_eq!(x.total, "0");
        },
        _ => panic!("wrong rule kind"),
    }
}

#[test]
fn edge_lines_walk_inward() {
    let line = iter_cells_in_dir(Cell::new(0, 0), Direction::Horizontal).unwrap();
    assert_eq!(line.len(), 9);
    assert_eq!(line[0], Cell::new(0, 0));
    assert_eq!(line[8], Cell::new(0, 8));
    let back = iter_cells_in_dir(Cell::new(3, 8), Direction::Horizontal).unwrap();
    assert_eq!(back[0], Cell::new(3, 8));
    assert_eq!(back[8], Cell::new(3, 0));
    let down = iter_cells_in_dir(Cell::new(0, 4), Direction::Vertical).unwrap();
    assert_eq!(down[8], Cell::new(8, 4));
    assert!(iter_cells_in_dir(Cell::new(4, 4), Direction::Horizontal).is_none());
    assert!(iter_cells_in_dir(Cell::new(3, 0), Direction::Vertical).is_none());
}
