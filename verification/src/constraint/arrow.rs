use vstd::prelude::*;

use crate::constraint::{
    assert_cells_sum_eq_cell, cells_in_bounds, clone_cells, ConfigurableConstraint, Constraint,
    DynClone, Rule,
};
use crate::expr::sum_of;
use crate::sudoku::{
    cell_val, cell_vals, full_asg, holds_from, log_wf, AssertionList, Cell, SudokuContext,
};

verus! {

/// An arrow: the cells along the shaft sum to the value in the circled
/// head cell (the first claimed cell).
pub struct ArrowConstraint {
    pub cells: Vec<Cell>,
}

impl Default for ArrowConstraint {
    /// An arrow with no cells claimed yet.
    fn default() -> (r: Self)
        ensures
            r.cells@.len() == 0,
    {
        ArrowConstraint { cells: Vec::new() }
    }
}

impl Constraint for ArrowConstraint {
    open spec fn rule_wf(&self) -> bool {
        cells_in_bounds(self.cells@) && self.cells@.len() >= 1
    }

    open spec fn siblings_wf(&self, rules: Seq<Rule>) -> bool {
        true
    }

    open spec fn sem(&self, rules: Seq<Rule>, asg: Seq<int>) -> bool {
        sum_of(cell_vals(asg, self.cells@.skip(1))) == cell_val(asg, self.cells@[0])
    }

    fn apply(&self, solver: &mut AssertionList, context: &mut SudokuContext) {
        let ghost base = solver@.len() as int;
        let head = self.cells[0];
        let mut tail: Vec<Cell> = Vec::new();
        let n = self.cells.len();
        let mut i: usize = 1;
        while i < n
            invariant
                n == self.cells@.len(),
                1 <= i <= n,
                tail@ == self.cells@.subrange(1, i as int),
            decreases n - i,
        {
            tail.push(self.cells[i]);
            proof {
                assert(tail@ =~= self.cells@.subrange(1, i + 1));
            }
            i += 1;
        }
        proof {
            assert(tail@ =~= self.cells@.skip(1));
        }
        let ghost lpre = solver@;
        assert_cells_sum_eq_cell(solver, context, &tail, head);
        proof {
            assert forall|asg: Seq<int>| full_asg(asg) implies (holds_from(
                context,
                solver@,
                base,
                asg,
            ) <==> self.sem(old(context).rules(), asg)) by {
                crate::sudoku::lemma_holds_push(context, lpre, solver@.last(), base, asg);
                assert(solver@ =~= lpre.push(solver@.last()));
                assert(holds_from(context, lpre, base, asg));
            }
        }
    }
}

impl DynClone for ArrowConstraint {
    open spec fn cloned_from(&self, r: &Self) -> bool {
        r.cells@ == self.cells@
    }

    fn dyn_clone(&self) -> (r: Self) {
        ArrowConstraint { cells: clone_cells(&self.cells) }
    }
}

impl ConfigurableConstraint for ArrowConstraint {
    open spec fn spec_valid(&self) -> bool {
        self.cells@.len() >= 2
    }

    open spec fn spec_cells(&self) -> Option<Seq<Cell>> {
        Option::Some(self.cells@)
    }

    open spec fn spec_max_cells(&self) -> usize {
        usize::MAX
    }

    fn is_valid(&self) -> (r: bool) {
        self.cells.len() >= 2
    }

    fn get_highlighted_cells(&self) -> (r: Option<&Vec<Cell>>) {
        Some(&self.cells)
    }

    fn push_highlighted_cell(&mut self, c: Cell) {
        self.cells.push(c);
    }

    fn get_max_highlighted_cells(&self) -> (r: usize) {
        usize::MAX
    }

    open spec fn spec_name(&self) -> Seq<char> {
        "Arrow"@
    }

    fn name(&self) -> (r: &'static str) {
        "Arrow"
    }
}

} // verus!
