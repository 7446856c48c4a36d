use vstd::prelude::*;

use crate::constraint::{
    assert_cells_distinct, assert_cells_sum_eq_const, cells_in_bounds, clone_cells,
    ConfigurableConstraint, Constraint, DynClone, Rule,
};
use crate::expr::{pairwise_distinct, sum_of};
use crate::parse::{parse_i32, parsed_value, parses_as_i32};
use crate::sudoku::{cell_vals, full_asg, holds_from, AssertionList, Cell, SudokuContext};

verus! {

/// A killer cage: the claimed cells take pairwise different values and
/// sum to the target entered as text.
pub struct KillerCageConstraint {
    pub cells: Vec<Cell>,
    pub total: String,
}

/// Meaning of a cage over the claimed cells and parsed target.
pub open spec fn cage_sem(cs: Seq<Cell>, total: int, asg: Seq<int>) -> bool {
    pairwise_distinct(cell_vals(asg, cs)) && sum_of(cell_vals(asg, cs)) == total
}

impl Default for KillerCageConstraint {
    /// An empty cage with target text "0".
    fn default() -> (r: Self)
        ensures
            r.cells@.len() == 0,
            r.total@ == "0"@,
    {
        KillerCageConstraint { cells: Vec::new(), total: "0".to_owned() }
    }
}

impl Constraint for KillerCageConstraint {
    open spec fn rule_wf(&self) -> bool {
        cells_in_bounds(self.cells@) && parses_as_i32(self.total@)
    }

    open spec fn siblings_wf(&self, rules: Seq<Rule>) -> bool {
        true
    }

    open spec fn sem(&self, rules: Seq<Rule>, asg: Seq<int>) -> bool {
        cage_sem(self.cells@, parsed_value(self.total@), asg)
    }

    fn apply(&self, solver: &mut AssertionList, context: &mut SudokuContext) {
        let ghost base = solver@.len() as int;
        let total = parse_i32(self.total.as_str()).unwrap();
        let ghost cpre = *context;
        let ghost lpre = solver@;
        assert_cells_distinct(solver, context, &self.cells);
        let ghost cmid = *context;
        let ghost lmid = solver@;
        assert_cells_sum_eq_const(solver, context, &self.cells, total);
        proof {
            crate::sudoku::lemma_extends_trans(cpre, cmid, *context);
            assert forall|asg: Seq<int>| full_asg(asg) implies (holds_from(
                context,
                solver@,
                base,
                asg,
            ) <==> self.sem(old(context).rules(), asg)) by {
                crate::sudoku::lemma_holds_extends(&cmid, context, lmid, base, asg);
                crate::sudoku::lemma_holds_push(context, lmid, solver@.last(), base, asg);
                assert(solver@ =~= lmid.push(solver@.last()));
                crate::sudoku::lemma_holds_extends(&cpre, context, lpre, base, asg);
                crate::sudoku::lemma_holds_push(context, lpre, lmid.last(), base, asg);
                assert(lmid =~= lpre.push(lmid.last()));
                assert(holds_from(context, lpre, base, asg));
                assert(context.bval(lmid.last(), asg) == cmid.bval(lmid.last(), asg));
                assert(cmid.bval(lmid.last(), asg) == pairwise_distinct(
                    cell_vals(asg, self.cells@),
                ));
            }
        }
    }
}

impl DynClone for KillerCageConstraint {
    open spec fn cloned_from(&self, r: &Self) -> bool {
        r.cells@ == self.cells@ && r.total@ == self.total@
    }

    fn dyn_clone(&self) -> (r: Self) {
        KillerCageConstraint { cells: clone_cells(&self.cells), total: self.total.clone() }
    }
}

impl ConfigurableConstraint for KillerCageConstraint {
    open spec fn spec_valid(&self) -> bool {
        self.cells@.len() > 0 && parses_as_i32(self.total@)
    }

    open spec fn spec_cells(&self) -> Option<Seq<Cell>> {
        Option::Some(self.cells@)
    }

    open spec fn spec_max_cells(&self) -> usize {
        usize::MAX
    }

    fn is_valid(&self) -> (r: bool) {
        self.cells.len() > 0 && parse_i32(self.total.as_str()).is_some()
    }

    fn get_highlighted_cells(&self) -> (r: Option<&Vec<Cell>>) {
        Some(&self.cells)
    }

    fn push_highlighted_cell(&mut self, c: Cell) {
        self.cells.push(c);
    }

    fn get_max_highlighted_cells(&self) -> (r: usize) {
        usize::MAX
    }

    open spec fn spec_name(&self) -> Seq<char> {
        "Killer Cage"@
    }

    fn name(&self) -> (r: &'static str) {
        "Killer Cage"
    }
}

} // verus!
