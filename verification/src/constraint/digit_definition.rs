use vstd::prelude::*;

use crate::constraint::{assert_cell_has_digit, Constraint, Rule};
use crate::sudoku::{full_asg, holds_from, log_wf, AssertionList, Cell, SudokuContext};

verus! {

/// The digit-definition rule: every cell takes one of the legal digits,
/// asserted as a disjunction over the legal range.
pub struct DigitDefinitionConstraint;

/// The first `upto` cells (in row-major order) hold a legal digit.
pub open spec fn digits_legal_upto(asg: Seq<int>, upto: int) -> bool {
    forall|k: int| 0 <= k < upto ==> 1 <= #[trigger] asg[k] <= 9
}

impl Constraint for DigitDefinitionConstraint {
    open spec fn rule_wf(&self) -> bool {
        true
    }

    open spec fn siblings_wf(&self, rules: Seq<Rule>) -> bool {
        true
    }

    open spec fn sem(&self, rules: Seq<Rule>, asg: Seq<int>) -> bool {
        digits_legal_upto(asg, 81)
    }

    fn apply(&self, solver: &mut AssertionList, context: &mut SudokuContext) {
        let ghost base = solver@.len() as int;
        let mut k: usize = 0;
        while k < 81
            invariant
                context.wf(),
                log_wf(context, solver@),
                context.extends(old(context)),
                k <= 81,
                base == old(solver)@.len() as int,
                solver@.len() >= base,
                forall|j: int| 0 <= j < base ==> solver@[j] == old(solver)@[j],
                forall|asg: Seq<int>|
                    full_asg(asg) ==> (holds_from(context, solver@, base, asg)
                        <==> digits_legal_upto(asg, k as int)),
            decreases 81 - k,
        {
            let row = k / 9;
            let col = k % 9;
            let ghost cpre = *context;
            let ghost lpre = solver@;
            assert_cell_has_digit(solver, context, row, col);
            proof {
                crate::sudoku::lemma_extends_trans(*old(context), cpre, *context);
                assert forall|asg: Seq<int>| full_asg(asg) implies (holds_from(
                    context,
                    solver@,
                    base,
                    asg,
                ) <==> digits_legal_upto(asg, k as int + 1)) by {
                    crate::sudoku::lemma_holds_extends(&cpre, context, lpre, base, asg);
                    crate::sudoku::lemma_holds_push(context, lpre, solver@.last(), base, asg);
                    assert(solver@ =~= lpre.push(solver@.last()));
                    assert(crate::sudoku::cell_index(Cell { row, col }) == k as int);
                    if holds_from(context, solver@, base, asg) {
                        assert forall|j: int| 0 <= j < k as int + 1 implies 1 <= #[trigger] asg[j]
                            <= 9 by {
                            if j == k as int {
                                assert(context.bval(solver@.last(), asg));
                            }
                        }
                    }
                    if digits_legal_upto(asg, k as int + 1) {
                        assert(digits_legal_upto(asg, k as int));
                        assert(1 <= asg[k as int] <= 9);
                    }
                }
            }
            k += 1;
        }
    }
}

} // verus!
