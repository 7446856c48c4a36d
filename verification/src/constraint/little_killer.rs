use vstd::prelude::*;

use crate::constraint::{
    assert_cells_sum_eq_const, cells_in_bounds, clone_cells, ConfigurableConstraint, Constraint,
    DynClone, Rule,
};
use crate::expr::sum_of;
use crate::parse::{parse_i32, parsed_value, parses_as_i32};
use crate::sudoku::{cell_vals, full_asg, holds_from, AssertionList, Cell, SudokuContext};

verus! {

/// A little-killer clue: the claimed diagonal of cells sums to the target
/// entered as text (values may repeat).
pub struct LittleKillerConstraint {
    pub cells: Vec<Cell>,
    pub total: String,
}

impl Default for LittleKillerConstraint {
    /// An empty selection with target text "0".
    fn default() -> (r: Self)
        ensures
            r.cells@.len() == 0,
            r.total@ == "0"@,
    {
        LittleKillerConstraint { cells: Vec::new(), total: "0".to_owned() }
    }
}

impl Constraint for LittleKillerConstraint {
    open spec fn rule_wf(&self) -> bool {
        cells_in_bounds(self.cells@) && parses_as_i32(self.total@)
    }

    open spec fn siblings_wf(&self, rules: Seq<Rule>) -> bool {
        true
    }

    open spec fn sem(&self, rules: Seq<Rule>, asg: Seq<int>) -> bool {
        sum_of(cell_vals(asg, self.cells@)) == parsed_value(self.total@)
    }

    fn apply(&self, solver: &mut AssertionList, context: &mut SudokuContext) {
        let ghost base = solver@.len() as int;
        let total = parse_i32(self.total.as_str()).unwrap();
        let ghost lpre = solver@;
        assert_cells_sum_eq_const(solver, context, &self.cells, total);
        proof {
            assert forall|asg: Seq<int>| full_asg(asg) implies (holds_from(
                context,
                solver@,
                base,
                asg,
            ) <==> self.sem(old(context).rules(), asg)) by {
                crate::sudoku::lemma_holds_push(context, lpre, solver@.last(), base, asg);
                assert(solver@ =~= lpre.push(solver@.last()));
                assert(holds_from(context, lpre, base, asg));
            }
        }
    }
}

impl DynClone for LittleKillerConstraint {
    open spec fn cloned_from(&self, r: &Self) -> bool {
        r.cells@ == self.cells@ && r.total@ == self.total@
    }

    fn dyn_clone(&self) -> (r: Self) {
        LittleKillerConstraint { cells: clone_cells(&self.cells), total: self.total.clone() }
    }
}

impl ConfigurableConstraint for LittleKillerConstraint {
    open spec fn spec_valid(&self) -> bool {
        self.cells@.len() > 0 && parses_as_i32(self.total@)
    }

    open spec fn spec_cells(&self) -> Option<Seq<Cell>> {
        Option::Some(self.cells@)
    }

    open spec fn spec_max_cells(&self) -> usize {
        usize::MAX
    }

    fn is_valid(&self) -> (r: bool) {
        self.cells.len() > 0 && parse_i32(self.total.as_str()).is_some()
    }

    fn get_highlighted_cells(&self) -> (r: Option<&Vec<Cell>>) {
        Some(&self.cells)
    }

    fn push_highlighted_cell(&mut self, c: Cell) {
        self.cells.push(c);
    }

    fn get_max_highlighted_cells(&self) -> (r: usize) {
        usize::MAX
    }

    open spec fn spec_name(&self) -> Seq<char> {
        "Little Killer"@
    }

    fn name(&self) -> (r: &'static str) {
        "Little Killer"
    }
}

} // verus!
