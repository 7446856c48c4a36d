use vstd::prelude::*;

use crate::constraint::{assert_cells_neq, ConfigurableConstraint, Constraint, DynClone, Rule};
use crate::sudoku::{cell_val, full_asg, holds_from, log_wf, AssertionList, Cell, SudokuContext};

verus! {

/// The anti-knight rule: no two cells a knight's move apart hold the
/// same value.
pub struct AntiKnightConstraint;

/// The four knight offsets checked from each cell; together with the
/// cell roles swapped they cover every knight pair exactly once.
pub open spec fn knight_ok(asg: Seq<int>, r: int, c: int) -> bool {
    &&& ((r + 1 < 9 && c + 2 < 9) ==> cell_val(asg, Cell { row: r as usize, col: c as usize })
        != cell_val(asg, Cell { row: (r + 1) as usize, col: (c + 2) as usize }))
    &&& ((r + 2 < 9 && c + 1 < 9) ==> cell_val(asg, Cell { row: r as usize, col: c as usize })
        != cell_val(asg, Cell { row: (r + 2) as usize, col: (c + 1) as usize }))
    &&& ((r - 1 >= 0 && c + 2 < 9) ==> cell_val(asg, Cell { row: r as usize, col: c as usize })
        != cell_val(asg, Cell { row: (r - 1) as usize, col: (c + 2) as usize }))
    &&& ((r - 2 >= 0 && c + 1 < 9) ==> cell_val(asg, Cell { row: r as usize, col: c as usize })
        != cell_val(asg, Cell { row: (r - 2) as usize, col: (c + 1) as usize }))
}

/// The knight conditions anchored at the cell with flat index `t`.
pub open spec fn knight_at(asg: Seq<int>, t: int) -> bool {
    knight_ok(asg, t / 9, t % 9)
}

/// The knight conditions hold from each of the first `upto` cells.
pub open spec fn knight_upto(asg: Seq<int>, upto: int) -> bool {
    forall|t: int| 0 <= t < upto ==> #[trigger] knight_at(asg, t)
}

/// Compiles the knight conditions anchored at one cell.
fn apply_knight_cell(solver: &mut AssertionList, context: &mut SudokuContext, row: usize, col: usize)
    requires
        old(context).wf(),
        log_wf(old(context), old(solver)@),
        row < 9,
        col < 9,
    ensures
        final(context).wf(),
        final(context).extends(old(context)),
        log_wf(final(context), final(solver)@),
        final(solver)@.len() >= old(solver)@.len(),
        forall|k: int| 0 <= k < old(solver)@.len() ==> final(solver)@[k] == old(solver)@[k],
        forall|asg: Seq<int>|
            full_asg(asg) ==> (holds_from(
                final(context),
                final(solver)@,
                old(solver)@.len() as int,
                asg,
            ) <==> knight_ok(asg, row as int, col as int)),
{
    let ghost base = solver@.len() as int;
    let ghost x0 = *context;
    let ghost l0 = solver@;
    if row + 1 < 9 && col + 2 < 9 {
        assert_cells_neq(solver, context, Cell::new(row, col), Cell::new(row + 1, col + 2));
    }
    let ghost x1 = *context;
    let ghost l1 = solver@;
    proof {
        assert forall|asg: Seq<int>| full_asg(asg) implies (#[trigger] holds_from(&x1, l1, base, asg)
            <==> ((row + 1 < 9 && col + 2 < 9) ==> cell_val(
            asg,
            Cell { row, col },
        ) != cell_val(asg, Cell { row: (row + 1) as usize, col: (col + 2) as usize }))) by {
            if row + 1 < 9 && col + 2 < 9 {
                crate::sudoku::lemma_holds_push(&x1, l0, l1.last(), base, asg);
                assert(l1 =~= l0.push(l1.last()));
            }
        }
    }
    if row + 2 < 9 && col + 1 < 9 {
        assert_cells_neq(solver, context, Cell::new(row, col), Cell::new(row + 2, col + 1));
    }
    let ghost x2 = *context;
    let ghost l2 = solver@;
    proof {
        assert forall|asg: Seq<int>| full_asg(asg) implies (#[trigger] holds_from(&x2, l2, base, asg)
            <==> (holds_from(&x1, l1, base, asg) && ((row + 2 < 9 && col + 1 < 9) ==> cell_val(
            asg,
            Cell { row, col },
        ) != cell_val(asg, Cell { row: (row + 2) as usize, col: (col + 1) as usize })))) by {
            crate::sudoku::lemma_holds_extends(&x1, &x2, l1, base, asg);
            if row + 2 < 9 && col + 1 < 9 {
                crate::sudoku::lemma_holds_push(&x2, l1, l2.last(), base, asg);
                assert(l2 =~= l1.push(l2.last()));
            }
        }
    }
    if row >= 1 && col + 2 < 9 {
        assert_cells_neq(solver, context, Cell::new(row, col), Cell::new(row - 1, col + 2));
    }
    let ghost x3 = *context;
    let ghost l3 = solver@;
    proof {
        crate::sudoku::lemma_extends_trans(x1, x2, x3);
        assert forall|asg: Seq<int>| full_asg(asg) implies (#[trigger] holds_from(&x3, l3, base, asg)
            <==> (holds_from(&x2, l2, base, asg) && ((row as int - 1 >= 0 && col + 2 < 9)
            ==> cell_val(asg, Cell { row, col }) != cell_val(
            asg,
            Cell { row: (row - 1) as usize, col: (col + 2) as usize },
        )))) by {
            crate::sudoku::lemma_holds_extends(&x2, &x3, l2, base, asg);
            if row >= 1 && col + 2 < 9 {
                crate::sudoku::lemma_holds_push(&x3, l2, l3.last(), base, asg);
                assert(l3 =~= l2.push(l3.last()));
            }
        }
    }
    if row >= 2 && col + 1 < 9 {
        assert_cells_neq(solver, context, Cell::new(row, col), Cell::new(row - 2, col + 1));
    }
    proof {
        crate::sudoku::lemma_extends_trans(x2, x3, *context);
        crate::sudoku::lemma_extends_trans(x1, x2, *context);
        crate::sudoku::lemma_extends_trans(x0, x1, *context);
        assert forall|asg: Seq<int>| full_asg(asg) implies (holds_from(
            context,
            solver@,
            base,
            asg,
        ) <==> knight_ok(asg, row as int, col as int)) by {
            crate::sudoku::lemma_holds_extends(&x3, context, l3, base, asg);
            if row >= 2 && col + 1 < 9 {
                crate::sudoku::lemma_holds_push(context, l3, solver@.last(), base, asg);
                assert(solver@ =~= l3.push(solver@.last()));
            } else {
                assert(solver@ =~= l3);
            }
            crate::sudoku::lemma_holds_extends(&x2, &x3, l2, base, asg);
            crate::sudoku::lemma_holds_extends(&x1, &x2, l1, base, asg);
        }
    }
}

impl Constraint for AntiKnightConstraint {
    open spec fn rule_wf(&self) -> bool {
        true
    }

    open spec fn siblings_wf(&self, rules: Seq<Rule>) -> bool {
        true
    }

    open spec fn sem(&self, rules: Seq<Rule>, asg: Seq<int>) -> bool {
        knight_upto(asg, 81)
    }

    fn apply(&self, solver: &mut AssertionList, context: &mut SudokuContext) {
        let ghost base = solver@.len() as int;
        let mut t: usize = 0;
        while t < 81
            invariant
                context.wf(),
                log_wf(context, solver@),
                context.extends(old(context)),
                t <= 81,
                base == old(solver)@.len() as int,
                solver@.len() >= base,
                forall|k: int| 0 <= k < base ==> solver@[k] == old(solver)@[k],
                forall|asg: Seq<int>|
                    full_asg(asg) ==> (holds_from(context, solver@, base, asg) <==> knight_upto(
                        asg,
                        t as int,
                    )),
            decreases 81 - t,
        {
            let row = t / 9;
            let col = t % 9;
            let ghost cpre = *context;
            let ghost lpre = solver@;
            apply_knight_cell(solver, context, row, col);
            proof {
                crate::sudoku::lemma_extends_trans(*old(context), cpre, *context);
                assert forall|asg: Seq<int>| full_asg(asg) implies (holds_from(
                    context,
                    solver@,
                    base,
                    asg,
                ) <==> knight_upto(asg, t as int + 1)) by {
                    crate::sudoku::lemma_holds_extends(&cpre, context, lpre, base, asg);
                    lemma_holds_split(context, solver@, base, lpre.len() as int, asg);
                    assert(solver@.take(lpre.len() as int) =~= lpre);
                    if holds_from(context, solver@, base, asg) {
                        assert forall|j: int| 0 <= j < t as int + 1 implies #[trigger] knight_at(
                            asg,
                            j,
                        ) by {
                            if j == t as int {
                                assert(holds_from(context, solver@, lpre.len() as int, asg));
                                assert(knight_ok(asg, row as int, col as int));
                            }
                        }
                    }
                    if knight_upto(asg, t as int + 1) {
                        assert(knight_upto(asg, t as int));
                        assert(knight_at(asg, t as int));
                        assert(knight_ok(asg, row as int, col as int));
                        assert(holds_from(context, solver@, lpre.len() as int, asg));
                        assert(holds_from(context, lpre, base, asg));
                    }
                }
            }
            t += 1;
        }
    }
}

/// Assertions from `base` hold exactly when those up to `mid` and those
/// from `mid` both hold.
pub proof fn lemma_holds_split(
    s: &SudokuContext,
    log: Seq<crate::expr::BoolId>,
    base: int,
    mid: int,
    asg: Seq<int>,
)
    requires
        0 <= base <= mid <= log.len(),
    ensures
        holds_from(s, log, base, asg) == (holds_from(s, log.take(mid), base, asg) && holds_from(
            s,
            log,
            mid,
            asg,
        )),
{
    if holds_from(s, log, base, asg) {
        assert forall|k: int| base <= k < mid implies s.bval(#[trigger] log.take(mid)[k], asg) by {
            assert(log.take(mid)[k] == log[k]);
        }
    }
    if holds_from(s, log.take(mid), base, asg) && holds_from(s, log, mid, asg) {
        assert forall|k: int| base <= k < log.len() implies s.bval(#[trigger] log[k], asg) by {
            if k < mid {
                assert(log.take(mid)[k] == log[k]);
                assert(s.bval(log.take(mid)[k], asg));
            }
        }
    }
}

impl DynClone for AntiKnightConstraint {
    open spec fn cloned_from(&self, r: &Self) -> bool {
        true
    }

    fn dyn_clone(&self) -> (r: Self) {
        AntiKnightConstraint
    }
}

impl ConfigurableConstraint for AntiKnightConstraint {
    open spec fn spec_valid(&self) -> bool {
        true
    }

    open spec fn spec_cells(&self) -> Option<Seq<Cell>> {
        Option::None
    }

    open spec fn spec_max_cells(&self) -> usize {
        usize::MAX
    }

    fn is_valid(&self) -> (r: bool) {
        true
    }

    fn get_highlighted_cells(&self) -> (r: Option<&Vec<Cell>>) {
        None
    }

    fn push_highlighted_cell(&mut self, c: Cell) {
    }

    fn get_max_highlighted_cells(&self) -> (r: usize) {
        usize::MAX
    }

    open spec fn spec_name(&self) -> Seq<char> {
        "Anti-Knight"@
    }

    fn name(&self) -> (r: &'static str) {
        "Anti-Knight"
    }
}

} // verus!
