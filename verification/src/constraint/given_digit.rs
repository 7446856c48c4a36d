use vstd::prelude::*;

use crate::constraint::{Constraint, Rule};
use crate::sudoku::{
    cell_val, full_asg, holds_from, AssertionList, Cell, SudokuContext, SUDOKU_SIZE,
};

verus! {

/// A pre-filled digit: the cell at (`row`, `col`) takes exactly `value`.
pub struct GivenDigitConstraint {
    pub row: usize,
    pub col: usize,
    pub value: i32,
}

impl Constraint for GivenDigitConstraint {
    open spec fn rule_wf(&self) -> bool {
        self.row < SUDOKU_SIZE && self.col < SUDOKU_SIZE
    }

    open spec fn siblings_wf(&self, rules: Seq<Rule>) -> bool {
        true
    }

    open spec fn sem(&self, rules: Seq<Rule>, asg: Seq<int>) -> bool {
        cell_val(asg, Cell { row: self.row, col: self.col }) == self.value as int
    }

    fn apply(&self, solver: &mut AssertionList, context: &mut SudokuContext) {
        let ghost base = solver@.len() as int;
        let cellid = context.get_cell(self.row, self.col);
        let ghost c0 = *context;
        let constid = context.const_int(self.value);
        let ghost c1 = *context;
        let b = context.mk_eq(cellid, constid);
        solver.assert_id(b);
        proof {
            assert forall|asg: Seq<int>| full_asg(asg) implies (holds_from(
                context,
                solver@,
                base,
                asg,
            ) <==> self.sem(old(context).rules(), asg)) by {
                assert(solver@[base] == b);
                assert(context.bval(b, asg) == (c1.ival(cellid, asg) == c1.ival(constid, asg)));
                assert(c1.ival(cellid, asg) == c0.ival(cellid, asg));
                assert(c0.ival(cellid, asg) == cell_val(
                    asg,
                    Cell { row: self.row, col: self.col },
                ));
                if holds_from(context, solver@, base, asg) {
                    assert(context.bval(solver@[base], asg));
                }
                if self.sem(old(context).rules(), asg) {
                    assert forall|k: int| base <= k < solver@.len() implies context.bval(
                        #[trigger] solver@[k],
                        asg,
                    ) by {
                        assert(solver@[k] == b);
                    }
                }
            }
        }
    }
}

} // verus!
