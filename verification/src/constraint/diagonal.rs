use vstd::prelude::*;

use crate::constraint::{
    assert_cells_distinct, ConfigurableConstraint, Constraint, DynClone, Rule,
};
use crate::expr::pairwise_distinct;
use crate::sudoku::{cell_vals, full_asg, holds_from, AssertionList, Cell, SudokuContext};

verus! {

/// Which of the two main diagonals the rule constrains.
#[derive(Clone, Copy, PartialEq, Eq, Structural)]
pub enum Direction {
    Positive,
    Negative,
    Both,
}

/// A diagonal rule: the chosen main diagonal(s) hold pairwise different
/// values.
pub struct DiagonalConstraint {
    pub direction: Direction,
}

/// The cells of the top-left to bottom-right diagonal.
pub open spec fn diag_main_cells() -> Seq<Cell> {
    Seq::new(9, |i: int| Cell { row: i as usize, col: i as usize })
}

/// The cells of the top-right to bottom-left diagonal.
pub open spec fn diag_anti_cells() -> Seq<Cell> {
    Seq::new(9, |i: int| Cell { row: i as usize, col: (8 - i) as usize })
}

impl Default for DiagonalConstraint {
    /// Constrains both diagonals.
    fn default() -> (r: Self)
        ensures
            r.direction == Direction::Both,
    {
        DiagonalConstraint { direction: Direction::Both }
    }
}

impl Constraint for DiagonalConstraint {
    open spec fn rule_wf(&self) -> bool {
        true
    }

    open spec fn siblings_wf(&self, rules: Seq<Rule>) -> bool {
        true
    }

    open spec fn sem(&self, rules: Seq<Rule>, asg: Seq<int>) -> bool {
        &&& (self.direction != Direction::Positive ==> pairwise_distinct(
            cell_vals(asg, diag_main_cells()),
        ))
        &&& (self.direction != Direction::Negative ==> pairwise_distinct(
            cell_vals(asg, diag_anti_cells()),
        ))
    }

    fn apply(&self, solver: &mut AssertionList, context: &mut SudokuContext) {
        let ghost base = solver@.len() as int;
        let ghost cpre = *context;
        let ghost lpre = solver@;
        if !matches!(self.direction, Direction::Positive) {
            let mut md: Vec<Cell> = Vec::new();
            let mut i: usize = 0;
            while i < 9
                invariant
                    i <= 9,
                    md@ == diag_main_cells().take(i as int),
                decreases 9 - i,
            {
                md.push(Cell::new(i, i));
                proof {
                    assert(md@ =~= diag_main_cells().take(i as int + 1));
                }
                i += 1;
            }
            proof {
                assert(md@ =~= diag_main_cells());
            }
            assert_cells_distinct(solver, context, &md);
        }
        let ghost cmid = *context;
        let ghost lmid = solver@;
        proof {
            assert forall|asg: Seq<int>| full_asg(asg) implies (holds_from(
                &cmid,
                lmid,
                base,
                asg,
            ) <==> (self.direction != Direction::Positive ==> pairwise_distinct(
                cell_vals(asg, diag_main_cells()),
            ))) by {
                if self.direction != Direction::Positive {
                    crate::sudoku::lemma_holds_push(&cmid, lpre, lmid.last(), base, asg);
                    assert(lmid =~= lpre.push(lmid.last()));
                }
            }
        }
        if !matches!(self.direction, Direction::Negative) {
            let mut ad: Vec<Cell> = Vec::new();
            let mut i: usize = 0;
            while i < 9
                invariant
                    i <= 9,
                    ad@ == diag_anti_cells().take(i as int),
                decreases 9 - i,
            {
                ad.push(Cell::new(i, 8 - i));
                proof {
                    assert(ad@ =~= diag_anti_cells().take(i as int + 1));
                }
                i += 1;
            }
            proof {
                assert(ad@ =~= diag_anti_cells());
            }
            assert_cells_distinct(solver, context, &ad);
        }
        proof {
            if self.direction != Direction::Positive {
                crate::sudoku::lemma_extends_trans(cpre, cmid, *context);
            }
            assert forall|asg: Seq<int>| full_asg(asg) implies (holds_from(
                context,
                solver@,
                base,
                asg,
            ) <==> self.sem(old(context).rules(), asg)) by {
                crate::sudoku::lemma_holds_extends(&cmid, context, lmid, base, asg);
                if self.direction != Direction::Negative {
                    crate::sudoku::lemma_holds_push(context, lmid, solver@.last(), base, asg);
                    assert(solver@ =~= lmid.push(solver@.last()));
                } else {
                    assert(solver@ =~= lmid);
                }
            }
        }
    }
}

impl DynClone for DiagonalConstraint {
    open spec fn cloned_from(&self, r: &Self) -> bool {
        r.direction == self.direction
    }

    fn dyn_clone(&self) -> (r: Self) {
        DiagonalConstraint { direction: self.direction }
    }
}

impl ConfigurableConstraint for DiagonalConstraint {
    open spec fn spec_valid(&self) -> bool {
        true
    }

    open spec fn spec_cells(&self) -> Option<Seq<Cell>> {
        Option::None
    }

    open spec fn spec_max_cells(&self) -> usize {
        usize::MAX
    }

    fn is_valid(&self) -> (r: bool) {
        true
    }

    fn get_highlighted_cells(&self) -> (r: Option<&Vec<Cell>>) {
        None
    }

    fn push_highlighted_cell(&mut self, c: Cell) {
    }

    fn get_max_highlighted_cells(&self) -> (r: usize) {
        usize::MAX
    }

    open spec fn spec_name(&self) -> Seq<char> {
        "Diagonal"@
    }

    fn name(&self) -> (r: &'static str) {
        "Diagonal"
    }
}

} // verus!
