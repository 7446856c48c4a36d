use vstd::prelude::*;

use crate::constraint::{
    assert_cells_lt, cells_in_bounds, clone_cells, ConfigurableConstraint, Constraint, DynClone,
    Rule,
};
use crate::sudoku::{cell_val, full_asg, holds_from, log_wf, AssertionList, Cell, SudokuContext};

verus! {

/// A thermometer: values strictly increase along the claimed path,
/// starting from the bulb.
pub struct ThermoConstraint {
    pub cells: Vec<Cell>,
}

/// The first `upto` adjacent pairs along the path strictly increase.
pub open spec fn thermo_upto(cs: Seq<Cell>, asg: Seq<int>, upto: int) -> bool {
    forall|i: int| 0 <= i < upto ==> cell_val(asg, #[trigger] cs[i]) < cell_val(asg, cs[i + 1])
}

impl Default for ThermoConstraint {
    /// A thermometer with no cells claimed yet.
    fn default() -> (r: Self)
        ensures
            r.cells@.len() == 0,
    {
        ThermoConstraint { cells: Vec::new() }
    }
}

impl Constraint for ThermoConstraint {
    open spec fn rule_wf(&self) -> bool {
        cells_in_bounds(self.cells@)
    }

    open spec fn siblings_wf(&self, rules: Seq<Rule>) -> bool {
        true
    }

    open spec fn sem(&self, rules: Seq<Rule>, asg: Seq<int>) -> bool {
        thermo_upto(self.cells@, asg, self.cells@.len() - 1)
    }

    fn apply(&self, solver: &mut AssertionList, context: &mut SudokuContext) {
        let ghost base = solver@.len() as int;
        let n = self.cells.len();
        let mut i: usize = 0;
        while i + 1 < n
            invariant
                context.wf(),
                log_wf(context, solver@),
                context.extends(old(context)),
                n == self.cells@.len(),
                i == 0 || i + 1 <= n,
                cells_in_bounds(self.cells@),
                base == old(solver)@.len() as int,
                solver@.len() >= base,
                forall|k: int| 0 <= k < base ==> solver@[k] == old(solver)@[k],
                forall|asg: Seq<int>|
                    full_asg(asg) ==> (holds_from(context, solver@, base, asg) <==> thermo_upto(
                        self.cells@,
                        asg,
                        i as int,
                    )),
            decreases n - i,
        {
            let ghost cpre = *context;
            let ghost lpre = solver@;
            assert_cells_lt(solver, context, self.cells[i], self.cells[i + 1]);
            proof {
                crate::sudoku::lemma_extends_trans(*old(context), cpre, *context);
                assert forall|asg: Seq<int>| full_asg(asg) implies (holds_from(
                    context,
                    solver@,
                    base,
                    asg,
                ) <==> thermo_upto(self.cells@, asg, i as int + 1)) by {
                    crate::sudoku::lemma_holds_extends(&cpre, context, lpre, base, asg);
                    crate::sudoku::lemma_holds_push(context, lpre, solver@.last(), base, asg);
                    assert(solver@ =~= lpre.push(solver@.last()));
                    if holds_from(context, solver@, base, asg) {
                        assert forall|j: int| 0 <= j < i as int + 1 implies cell_val(
                            asg,
                            #[trigger] self.cells@[j],
                        ) < cell_val(asg, self.cells@[j + 1]) by {
                            if j == i as int {
                                assert(context.bval(solver@.last(), asg));
                            }
                        }
                    }
                    if thermo_upto(self.cells@, asg, i as int + 1) {
                        assert(thermo_upto(self.cells@, asg, i as int));
                        assert(cell_val(asg, self.cells@[i as int]) < cell_val(
                            asg,
                            self.cells@[i as int + 1],
                        ));
                    }
                }
            }
            i += 1;
        }
        proof {
            assert forall|asg: Seq<int>| full_asg(asg) implies (holds_from(
                context,
                solver@,
                base,
                asg,
            ) <==> self.sem(old(context).rules(), asg)) by {
                if n == 0 {
                    assert(thermo_upto(self.cells@, asg, n as int - 1));
                    assert(thermo_upto(self.cells@, asg, i as int));
                } else {
                    assert(i as int == n as int - 1);
                }
            }
        }
    }
}

impl DynClone for ThermoConstraint {
    open spec fn cloned_from(&self, r: &Self) -> bool {
        r.cells@ == self.cells@
    }

    fn dyn_clone(&self) -> (r: Self) {
        ThermoConstraint { cells: clone_cells(&self.cells) }
    }
}

impl ConfigurableConstraint for ThermoConstraint {
    open spec fn spec_valid(&self) -> bool {
        self.cells@.len() > 0
    }

    open spec fn spec_cells(&self) -> Option<Seq<Cell>> {
        Option::Some(self.cells@)
    }

    open spec fn spec_max_cells(&self) -> usize {
        usize::MAX
    }

    fn is_valid(&self) -> (r: bool) {
        self.cells.len() > 0
    }

    fn get_highlighted_cells(&self) -> (r: Option<&Vec<Cell>>) {
        Some(&self.cells)
    }

    fn push_highlighted_cell(&mut self, c: Cell) {
        self.cells.push(c);
    }

    fn get_max_highlighted_cells(&self) -> (r: usize) {
        usize::MAX
    }

    open spec fn spec_name(&self) -> Seq<char> {
        "Thermo"@
    }

    fn name(&self) -> (r: &'static str) {
        "Thermo"
    }
}

} // verus!
