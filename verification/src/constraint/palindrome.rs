use vstd::prelude::*;

use crate::constraint::{
    assert_cells_eq, cells_in_bounds, clone_cells, ConfigurableConstraint, Constraint, DynClone,
    Rule,
};
use crate::sudoku::{cell_val, full_asg, holds_from, log_wf, AssertionList, Cell, SudokuContext};

verus! {

/// A palindrome line: values read the same from both ends of the claimed
/// path inward.
pub struct PalindromeConstraint {
    pub cells: Vec<Cell>,
}

/// The first `upto` cells from the front match their mirrors from the
/// back.
pub open spec fn palindrome_upto(cs: Seq<Cell>, asg: Seq<int>, upto: int) -> bool {
    forall|i: int|
        0 <= i < upto ==> cell_val(asg, #[trigger] cs[i]) == cell_val(asg, cs[cs.len() - 1 - i])
}

impl Default for PalindromeConstraint {
    /// A palindrome with no cells claimed yet.
    fn default() -> (r: Self)
        ensures
            r.cells@.len() == 0,
    {
        PalindromeConstraint { cells: Vec::new() }
    }
}

impl Constraint for PalindromeConstraint {
    open spec fn rule_wf(&self) -> bool {
        cells_in_bounds(self.cells@)
    }

    open spec fn siblings_wf(&self, rules: Seq<Rule>) -> bool {
        true
    }

    open spec fn sem(&self, rules: Seq<Rule>, asg: Seq<int>) -> bool {
        palindrome_upto(self.cells@, asg, self.cells@.len() as int / 2)
    }

    fn apply(&self, solver: &mut AssertionList, context: &mut SudokuContext) {
        let ghost base = solver@.len() as int;
        let n = self.cells.len();
        let mut i: usize = 0;
        while i < n / 2
            invariant
                context.wf(),
                log_wf(context, solver@),
                context.extends(old(context)),
                n == self.cells@.len(),
                i <= n / 2,
                cells_in_bounds(self.cells@),
                base == old(solver)@.len() as int,
                solver@.len() >= base,
                forall|k: int| 0 <= k < base ==> solver@[k] == old(solver)@[k],
                forall|asg: Seq<int>|
                    full_asg(asg) ==> (holds_from(context, solver@, base, asg)
                        <==> palindrome_upto(self.cells@, asg, i as int)),
            decreases n / 2 - i,
        {
            let ghost cpre = *context;
            let ghost lpre = solver@;
            assert_cells_eq(solver, context, self.cells[i], self.cells[n - 1 - i]);
            proof {
                crate::sudoku::lemma_extends_trans(*old(context), cpre, *context);
                assert forall|asg: Seq<int>| full_asg(asg) implies (holds_from(
                    context,
                    solver@,
                    base,
                    asg,
                ) <==> palindrome_upto(self.cells@, asg, i as int + 1)) by {
                    crate::sudoku::lemma_holds_extends(&cpre, context, lpre, base, asg);
                    crate::sudoku::lemma_holds_push(context, lpre, solver@.last(), base, asg);
                    assert(solver@ =~= lpre.push(solver@.last()));
                    if holds_from(context, solver@, base, asg) {
                        assert forall|j: int| 0 <= j < i as int + 1 implies cell_val(
                            asg,
                            #[trigger] self.cells@[j],
                        ) == cell_val(asg, self.cells@[self.cells@.len() - 1 - j]) by {
                            if j == i as int {
                                assert(context.bval(solver@.last(), asg));
                            }
                        }
                    }
                    if palindrome_upto(self.cells@, asg, i as int + 1) {
                        assert(palindrome_upto(self.cells@, asg, i as int));
                        assert(cell_val(asg, self.cells@[i as int]) == cell_val(
                            asg,
                            self.cells@[self.cells@.len() - 1 - i as int],
                        ));
                    }
                }
            }
            i += 1;
        }
    }
}

impl DynClone for PalindromeConstraint {
    open spec fn cloned_from(&self, r: &Self) -> bool {
        r.cells@ == self.cells@
    }

    fn dyn_clone(&self) -> (r: Self) {
        PalindromeConstraint { cells: clone_cells(&self.cells) }
    }
}

impl ConfigurableConstraint for PalindromeConstraint {
    open spec fn spec_valid(&self) -> bool {
        self.cells@.len() >= 2
    }

    open spec fn spec_cells(&self) -> Option<Seq<Cell>> {
        Option::Some(self.cells@)
    }

    open spec fn spec_max_cells(&self) -> usize {
        usize::MAX
    }

    fn is_valid(&self) -> (r: bool) {
        self.cells.len() >= 2
    }

    fn get_highlighted_cells(&self) -> (r: Option<&Vec<Cell>>) {
        Some(&self.cells)
    }

    fn push_highlighted_cell(&mut self, c: Cell) {
        self.cells.push(c);
    }

    fn get_max_highlighted_cells(&self) -> (r: usize) {
        usize::MAX
    }

    open spec fn spec_name(&self) -> Seq<char> {
        "Palindrome"@
    }

    fn name(&self) -> (r: &'static str) {
        "Palindrome"
    }
}

} // verus!
