use vstd::prelude::*;

use crate::constraint::{
    assert_cells_bands_distinct, band_vals, cells_in_bounds, clone_cells, ConfigurableConstraint,
    Constraint, DynClone, Rule,
};
use crate::expr::pairwise_distinct;
use crate::sudoku::{full_asg, holds_from, log_wf, AssertionList, Cell, SudokuContext};

verus! {

/// An entropic line: every run of three consecutive cells along the
/// claimed path falls into three different thirds of the digit range.
pub struct EntropicLineConstraint {
    pub cells: Vec<Cell>,
}

/// The first `upto` windows of three cells each span three different
/// bands.
pub open spec fn entropic_upto(cs: Seq<Cell>, asg: Seq<int>, upto: int) -> bool {
    forall|i: int|
        0 <= i < upto ==> pairwise_distinct(band_vals(asg, #[trigger] cs.subrange(i, i + 3)))
}

impl Default for EntropicLineConstraint {
    /// A line with no cells claimed yet.
    fn default() -> (r: Self)
        ensures
            r.cells@.len() == 0,
    {
        EntropicLineConstraint { cells: Vec::new() }
    }
}

impl Constraint for EntropicLineConstraint {
    open spec fn rule_wf(&self) -> bool {
        cells_in_bounds(self.cells@)
    }

    open spec fn siblings_wf(&self, rules: Seq<Rule>) -> bool {
        true
    }

    open spec fn sem(&self, rules: Seq<Rule>, asg: Seq<int>) -> bool {
        entropic_upto(self.cells@, asg, self.cells@.len() - 2)
    }

    fn apply(&self, solver: &mut AssertionList, context: &mut SudokuContext) {
        let ghost base = solver@.len() as int;
        let (dmin, dmax) = context.digits_range();
        let divisor = ((dmax - dmin + 2) / 3) as i32;
        let offset = (dmin % 3) as i32;
        let n = self.cells.len();
        let mut i: usize = 0;
        while i + 2 < n
            invariant
                context.wf(),
                log_wf(context, solver@),
                context.extends(old(context)),
                n == self.cells@.len(),
                i == 0 || i + 2 <= n,
                divisor == 3,
                offset == 1,
                cells_in_bounds(self.cells@),
                base == old(solver)@.len() as int,
                solver@.len() >= base,
                forall|k: int| 0 <= k < base ==> solver@[k] == old(solver)@[k],
                forall|asg: Seq<int>|
                    full_asg(asg) ==> (holds_from(context, solver@, base, asg) <==> entropic_upto(
                        self.cells@,
                        asg,
                        i as int,
                    )),
            decreases n - i,
        {
            let mut wv: Vec<Cell> = Vec::new();
            wv.push(self.cells[i]);
            wv.push(self.cells[i + 1]);
            wv.push(self.cells[i + 2]);
            proof {
                assert(wv@ =~= self.cells@.subrange(i as int, i as int + 3));
            }
            let ghost cpre = *context;
            let ghost lpre = solver@;
            assert_cells_bands_distinct(solver, context, &wv, offset, divisor);
            proof {
                crate::sudoku::lemma_extends_trans(*old(context), cpre, *context);
                assert forall|asg: Seq<int>| full_asg(asg) implies (holds_from(
                    context,
                    solver@,
                    base,
                    asg,
                ) <==> entropic_upto(self.cells@, asg, i as int + 1)) by {
                    crate::sudoku::lemma_holds_extends(&cpre, context, lpre, base, asg);
                    crate::sudoku::lemma_holds_push(context, lpre, solver@.last(), base, asg);
                    assert(solver@ =~= lpre.push(solver@.last()));
                    if holds_from(context, solver@, base, asg) {
                        assert forall|j: int| 0 <= j < i as int + 1 implies pairwise_distinct(
                            band_vals(asg, #[trigger] self.cells@.subrange(j, j + 3)),
                        ) by {
                            if j == i as int {
                                assert(context.bval(solver@.last(), asg));
                            }
                        }
                    }
                    if entropic_upto(self.cells@, asg, i as int + 1) {
                        assert(entropic_upto(self.cells@, asg, i as int));
                        assert(pairwise_distinct(
                            band_vals(asg, self.cells@.subrange(i as int, i as int + 3)),
                        ));
                    }
                }
            }
            i += 1;
        }
        proof {
            assert forall|asg: Seq<int>| full_asg(asg) implies (holds_from(
                context,
                solver@,
                base,
                asg,
            ) <==> self.sem(old(context).rules(), asg)) by {
                if n < 3 {
                    assert(entropic_upto(self.cells@, asg, n as int - 2));
                    assert(entropic_upto(self.cells@, asg, i as int));
                } else {
                    assert(i as int == n as int - 2);
                }
            }
        }
    }
}

impl DynClone for EntropicLineConstraint {
    open spec fn cloned_from(&self, r: &Self) -> bool {
        r.cells@ == self.cells@
    }

    fn dyn_clone(&self) -> (r: Self) {
        EntropicLineConstraint { cells: clone_cells(&self.cells) }
    }
}

impl ConfigurableConstraint for EntropicLineConstraint {
    open spec fn spec_valid(&self) -> bool {
        self.cells@.len() >= 3
    }

    open spec fn spec_cells(&self) -> Option<Seq<Cell>> {
        Option::Some(self.cells@)
    }

    open spec fn spec_max_cells(&self) -> usize {
        usize::MAX
    }

    fn is_valid(&self) -> (r: bool) {
        self.cells.len() >= 3
    }

    fn get_highlighted_cells(&self) -> (r: Option<&Vec<Cell>>) {
        Some(&self.cells)
    }

    fn push_highlighted_cell(&mut self, c: Cell) {
        self.cells.push(c);
    }

    fn get_max_highlighted_cells(&self) -> (r: usize) {
        usize::MAX
    }

    open spec fn spec_name(&self) -> Seq<char> {
        "Entropic Line"@
    }

    fn name(&self) -> (r: &'static str) {
        "Entropic Line"
    }
}

} // verus!
