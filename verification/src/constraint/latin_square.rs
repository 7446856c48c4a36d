use vstd::prelude::*;

use crate::constraint::{
    assert_cells_distinct, cells_in_bounds, col_cells, row_cells, Constraint, Rule,
};
use crate::expr::pairwise_distinct;
use crate::sudoku::{
    cell_vals, full_asg, holds_from, log_wf, AssertionList, Cell, SudokuContext,
};

verus! {

/// The Latin-square backbone: every row and every column holds pairwise
/// different values.
pub struct LatinSquareConstraint;

/// Rows 0 through `upto` (exclusive) hold pairwise different values.
pub open spec fn rows_distinct_upto(asg: Seq<int>, upto: int) -> bool {
    forall|r: int| 0 <= r < upto ==> pairwise_distinct(cell_vals(asg, #[trigger] row_cells(r)))
}

/// Columns 0 through `upto` (exclusive) hold pairwise different values.
pub open spec fn cols_distinct_upto(asg: Seq<int>, upto: int) -> bool {
    forall|c: int| 0 <= c < upto ==> pairwise_distinct(cell_vals(asg, #[trigger] col_cells(c)))
}

impl Constraint for LatinSquareConstraint {
    open spec fn rule_wf(&self) -> bool {
        true
    }

    open spec fn siblings_wf(&self, rules: Seq<Rule>) -> bool {
        true
    }

    open spec fn sem(&self, rules: Seq<Rule>, asg: Seq<int>) -> bool {
        rows_distinct_upto(asg, 9) && cols_distinct_upto(asg, 9)
    }

    fn apply(&self, solver: &mut AssertionList, context: &mut SudokuContext) {
        let ghost base = solver@.len() as int;
        let height = context.height();
        let width = context.width();
        let mut row: usize = 0;
        while row < height
            invariant
                context.wf(),
                log_wf(context, solver@),
                context.extends(old(context)),
                width == 9,
                height == 9,
                row <= 9,
                base == old(solver)@.len() as int,
                solver@.len() >= base,
                forall|k: int| 0 <= k < base ==> solver@[k] == old(solver)@[k],
                forall|asg: Seq<int>|
                    full_asg(asg) ==> (holds_from(context, solver@, base, asg)
                        <==> rows_distinct_upto(asg, row as int)),
            decreases 9 - row,
        {
            let mut rc: Vec<Cell> = Vec::new();
            let mut col: usize = 0;
            while col < width
                invariant
                    width == 9,
                    row < 9,
                    col <= 9,
                    rc@ == row_cells(row as int).take(col as int),
                decreases 9 - col,
            {
                rc.push(Cell::new(row, col));
                proof {
                    assert(rc@ =~= row_cells(row as int).take(col as int + 1));
                }
                col += 1;
            }
            proof {
                assert(rc@ =~= row_cells(row as int));
            }
            let ghost cpre = *context;
            let ghost lpre = solver@;
            assert_cells_distinct(solver, context, &rc);
            proof {
                lemma_step(
                    &cpre,
                    context,
                    lpre,
                    solver@,
                    base,
                );
                assert forall|asg: Seq<int>| full_asg(asg) implies (holds_from(
                    context,
                    solver@,
                    base,
                    asg,
                ) <==> rows_distinct_upto(asg, row as int + 1)) by {
                    crate::sudoku::lemma_holds_extends(&cpre, context, lpre, base, asg);
                    crate::sudoku::lemma_holds_push(context, lpre, solver@.last(), base, asg);
                    assert(solver@ =~= lpre.push(solver@.last()));
                    if holds_from(context, solver@, base, asg) {
                        assert forall|r: int| 0 <= r < row as int + 1 implies pairwise_distinct(
                            cell_vals(asg, #[trigger] row_cells(r)),
                        ) by {
                            if r == row as int {
                                assert(context.bval(solver@.last(), asg));
                            }
                        }
                    }
                    if rows_distinct_upto(asg, row as int + 1) {
                        assert(rows_distinct_upto(asg, row as int));
                        assert(pairwise_distinct(cell_vals(asg, row_cells(row as int))));
                    }
                }
            }
            row += 1;
        }
        let mut col: usize = 0;
        while col < width
            invariant
                context.wf(),
                log_wf(context, solver@),
                context.extends(old(context)),
                width == 9,
                col <= 9,
                base == old(solver)@.len() as int,
                solver@.len() >= base,
                forall|k: int| 0 <= k < base ==> solver@[k] == old(solver)@[k],
                forall|asg: Seq<int>|
                    full_asg(asg) ==> (holds_from(context, solver@, base, asg)
                        <==> rows_distinct_upto(asg, 9) && cols_distinct_upto(asg, col as int)),
            decreases 9 - col,
        {
            let mut cc: Vec<Cell> = Vec::new();
            let mut r2: usize = 0;
            while r2 < 9
                invariant
                    col < 9,
                    r2 <= 9,
                    cc@ == col_cells(col as int).take(r2 as int),
                decreases 9 - r2,
            {
                cc.push(Cell::new(r2, col));
                proof {
                    assert(cc@ =~= col_cells(col as int).take(r2 as int + 1));
                }
                r2 += 1;
            }
            proof {
                assert(cc@ =~= col_cells(col as int));
            }
            let ghost cpre = *context;
            let ghost lpre = solver@;
            assert_cells_distinct(solver, context, &cc);
            proof {
                lemma_step(&cpre, context, lpre, solver@, base);
                assert forall|asg: Seq<int>| full_asg(asg) implies (holds_from(
                    context,
                    solver@,
                    base,
                    asg,
                ) <==> rows_distinct_upto(asg, 9) && cols_distinct_upto(asg, col as int + 1)) by {
                    crate::sudoku::lemma_holds_extends(&cpre, context, lpre, base, asg);
                    crate::sudoku::lemma_holds_push(context, lpre, solver@.last(), base, asg);
                    assert(solver@ =~= lpre.push(solver@.last()));
                    if holds_from(context, solver@, base, asg) {
                        assert forall|c: int| 0 <= c < col as int + 1 implies pairwise_distinct(
                            cell_vals(asg, #[trigger] col_cells(c)),
                        ) by {
                            if c == col as int {
                                assert(context.bval(solver@.last(), asg));
                            }
                        }
                    }
                    if cols_distinct_upto(asg, col as int + 1) {
                        assert(cols_distinct_upto(asg, col as int));
                        assert(pairwise_distinct(cell_vals(asg, col_cells(col as int))));
                    }
                }
            }
            col += 1;
        }
    }
}

/// Frame facts after one helper call inside a compilation loop.
proof fn lemma_step(
    cpre: &SudokuContext,
    cpost: &SudokuContext,
    lpre: Seq<crate::expr::BoolId>,
    lpost: Seq<crate::expr::BoolId>,
    base: int,
)
    requires
        cpost.extends(cpre),
        lpost.len() == lpre.len() + 1,
        forall|k: int| 0 <= k < lpre.len() ==> lpost[k] == lpre[k],
        0 <= base <= lpre.len(),
    ensures
        lpost =~= lpre.push(lpost.last()),
{
}

} // verus!
