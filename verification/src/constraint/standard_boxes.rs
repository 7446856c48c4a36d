use vstd::prelude::*;

use crate::constraint::{assert_cells_distinct, box_cells, Constraint, Rule};
use crate::expr::pairwise_distinct;
use crate::sudoku::{cell_vals, full_asg, holds_from, log_wf, AssertionList, Cell, SudokuContext};

verus! {

/// The standard 3-by-3 box rule: each of the nine boxes holds pairwise
/// different values.
pub struct StandardBoxesConstraint;

/// The first `upto` boxes (in row-major box order) hold pairwise
/// different values.
pub open spec fn boxes_distinct_upto(asg: Seq<int>, upto: int) -> bool {
    forall|b: int|
        0 <= b < upto ==> pairwise_distinct(cell_vals(asg, #[trigger] box_cells(b / 3, b % 3)))
}

/// Every 3-by-3 box holds pairwise different values.
pub open spec fn boxes_distinct(asg: Seq<int>) -> bool {
    forall|bx: int, by: int|
        0 <= bx < 3 && 0 <= by < 3 ==> pairwise_distinct(
            cell_vals(asg, #[trigger] box_cells(bx, by)),
        )
}

impl Constraint for StandardBoxesConstraint {
    open spec fn rule_wf(&self) -> bool {
        true
    }

    open spec fn siblings_wf(&self, rules: Seq<Rule>) -> bool {
        true
    }

    open spec fn sem(&self, rules: Seq<Rule>, asg: Seq<int>) -> bool {
        boxes_distinct(asg)
    }

    fn apply(&self, solver: &mut AssertionList, context: &mut SudokuContext) {
        let ghost base = solver@.len() as int;
        let mut bi: usize = 0;
        while bi < 9
            invariant
                context.wf(),
                log_wf(context, solver@),
                context.extends(old(context)),
                bi <= 9,
                base == old(solver)@.len() as int,
                solver@.len() >= base,
                forall|j: int| 0 <= j < base ==> solver@[j] == old(solver)@[j],
                forall|asg: Seq<int>|
                    full_asg(asg) ==> (holds_from(context, solver@, base, asg)
                        <==> boxes_distinct_upto(asg, bi as int)),
            decreases 9 - bi,
        {
            let bx = bi / 3;
            let by = bi % 3;
            let mut bc: Vec<Cell> = Vec::new();
            let mut t: usize = 0;
            while t < 9
                invariant
                    bx == bi / 3,
                    by == bi % 3,
                    bi < 9,
                    t <= 9,
                    bc@ == box_cells(bx as int, by as int).take(t as int),
                decreases 9 - t,
            {
                bc.push(Cell::new(bx * 3 + t / 3, by * 3 + t % 3));
                proof {
                    assert(bc@ =~= box_cells(bx as int, by as int).take(t as int + 1));
                }
                t += 1;
            }
            proof {
                assert(bc@ =~= box_cells(bx as int, by as int));
            }
            let ghost cpre = *context;
            let ghost lpre = solver@;
            assert_cells_distinct(solver, context, &bc);
            proof {
                crate::sudoku::lemma_extends_trans(*old(context), cpre, *context);
                assert forall|asg: Seq<int>| full_asg(asg) implies (holds_from(
                    context,
                    solver@,
                    base,
                    asg,
                ) <==> boxes_distinct_upto(asg, bi as int + 1)) by {
                    crate::sudoku::lemma_holds_extends(&cpre, context, lpre, base, asg);
                    crate::sudoku::lemma_holds_push(context, lpre, solver@.last(), base, asg);
                    assert(solver@ =~= lpre.push(solver@.last()));
                    if holds_from(context, solver@, base, asg) {
                        assert forall|b: int| 0 <= b < bi as int + 1 implies pairwise_distinct(
                            cell_vals(asg, #[trigger] box_cells(b / 3, b % 3)),
                        ) by {
                            if b == bi as int {
                                assert(context.bval(solver@.last(), asg));
                            }
                        }
                    }
                    if boxes_distinct_upto(asg, bi as int + 1) {
                        assert(boxes_distinct_upto(asg, bi as int));
                        assert(pairwise_distinct(
                            cell_vals(asg, box_cells(bi as int / 3, bi as int % 3)),
                        ));
                    }
                }
            }
            bi += 1;
        }
        proof {
            assert forall|asg: Seq<int>| full_asg(asg) implies (holds_from(
                context,
                solver@,
                base,
                asg,
            ) <==> boxes_distinct(asg)) by {
                if boxes_distinct_upto(asg, 9) {
                    assert forall|bx: int, by: int| 0 <= bx < 3 && 0 <= by < 3 implies
                        pairwise_distinct(cell_vals(asg, #[trigger] box_cells(bx, by))) by {
                        let b = 3 * bx + by;
                        assert(b / 3 == bx && b % 3 == by);
                        assert(pairwise_distinct(cell_vals(asg, box_cells(b / 3, b % 3))));
                    }
                }
                if boxes_distinct(asg) {
                    assert forall|b: int| 0 <= b < 9 implies pairwise_distinct(
                        cell_vals(asg, #[trigger] box_cells(b / 3, b % 3)),
                    ) by {
                        assert(0 <= b / 3 < 3 && 0 <= b % 3 < 3);
                    }
                }
            }
        }
    }
}

} // verus!
