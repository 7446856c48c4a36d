use vstd::prelude::*;

use crate::constraint::{
    cells_in_bounds, clone_cells, ConfigurableConstraint, Constraint, DynClone, Rule,
};
use crate::sudoku::{cell_val, full_asg, holds_from, AssertionList, Cell, SudokuContext};

verus! {

/// Which parity the claimed cell must have.
#[derive(Clone, Copy, PartialEq, Eq, Structural)]
pub enum Parity {
    Odd,
    Even,
}

/// A parity rule: the single claimed cell is odd or even, compiled as a
/// remainder-by-two test.
pub struct ParityConstraint {
    pub parity: Parity,
    pub cells: Vec<Cell>,
}

impl Default for ParityConstraint {
    /// An odd-parity rule with no cell claimed yet.
    fn default() -> (r: Self)
        ensures
            r.parity == Parity::Odd,
            r.cells@.len() == 0,
    {
        ParityConstraint { parity: Parity::Odd, cells: Vec::new() }
    }
}

impl Constraint for ParityConstraint {
    open spec fn rule_wf(&self) -> bool {
        cells_in_bounds(self.cells@) && self.cells@.len() >= 1
    }

    open spec fn siblings_wf(&self, rules: Seq<Rule>) -> bool {
        true
    }

    open spec fn sem(&self, rules: Seq<Rule>, asg: Seq<int>) -> bool {
        if self.parity == Parity::Even {
            cell_val(asg, self.cells@[0]) % 2 == 0
        } else {
            !(cell_val(asg, self.cells@[0]) % 2 == 0)
        }
    }

    fn apply(&self, solver: &mut AssertionList, context: &mut SudokuContext) {
        let ghost base = solver@.len() as int;
        let c = self.cells[0];
        let cellid = context.get_cell(c.row, c.col);
        let ghost c0 = *context;
        let two = context.const_int(2);
        let ghost c1 = *context;
        let m = context.mk_mod(cellid, two);
        let ghost c2 = *context;
        let zero = context.const_int(0);
        let ghost c3 = *context;
        let e = context.mk_eq(m, zero);
        let ghost c4 = *context;
        let is_even = matches!(self.parity, Parity::Even);
        let b = if is_even {
            e
        } else {
            context.mk_not(e)
        };
        solver.assert_id(b);
        proof {
            lemma_chain(c0, c1, c2, c3, c4, *context);
            assert forall|asg: Seq<int>| full_asg(asg) implies (holds_from(
                context,
                solver@,
                base,
                asg,
            ) <==> self.sem(old(context).rules(), asg)) by {
                assert(solver@[base] == b);
                let v = cell_val(asg, self.cells@[0]);
                assert(c1.ival(two, asg) == 2);
                assert(c2.ival(m, asg) == (if c1.ival(two, asg) == 0 {
                    0int
                } else {
                    c1.ival(cellid, asg) % c1.ival(two, asg)
                }));
                assert(c1.ival(cellid, asg) == c0.ival(cellid, asg));
                assert(c3.ival(zero, asg) == 0);
                assert(c4.bval(e, asg) == (c3.ival(m, asg) == c3.ival(zero, asg)));
                assert(c3.ival(m, asg) == c2.ival(m, asg));
                assert(context.bval(e, asg) == c4.bval(e, asg));
                if !is_even {
                    assert(context.bval(b, asg) == !c4.bval(e, asg));
                }
                if holds_from(context, solver@, base, asg) {
                    assert(context.bval(solver@[base], asg));
                }
                if self.sem(old(context).rules(), asg) {
                    assert(context.bval(b, asg));
                    assert forall|k: int| base <= k < solver@.len() implies context.bval(
                        #[trigger] solver@[k],
                        asg,
                    ) by {
                        assert(solver@[k] == b);
                    }
                }
            }
        }
    }
}

/// Chains the session extensions of one straight-line compilation.
pub proof fn lemma_chain(
    c0: SudokuContext,
    c1: SudokuContext,
    c2: SudokuContext,
    c3: SudokuContext,
    c4: SudokuContext,
    c5: SudokuContext,
)
    requires
        c1.extends(&c0),
        c2.extends(&c1),
        c3.extends(&c2),
        c4.extends(&c3),
        c5.extends(&c4),
    ensures
        c5.extends(&c0),
        c5.extends(&c1),
        c5.extends(&c2),
        c5.extends(&c3),
        c4.extends(&c0),
        c4.extends(&c1),
        c4.extends(&c2),
        c3.extends(&c0),
        c3.extends(&c1),
        c2.extends(&c0),
{
    crate::sudoku::lemma_extends_trans(c2, c3, c4);
    crate::sudoku::lemma_extends_trans(c1, c2, c3);
    crate::sudoku::lemma_extends_trans(c0, c1, c2);
    crate::sudoku::lemma_extends_trans(c3, c4, c5);
    crate::sudoku::lemma_extends_trans(c2, c3, c5);
    crate::sudoku::lemma_extends_trans(c1, c2, c5);
    crate::sudoku::lemma_extends_trans(c0, c1, c5);
    crate::sudoku::lemma_extends_trans(c1, c2, c4);
    crate::sudoku::lemma_extends_trans(c0, c1, c4);
    crate::sudoku::lemma_extends_trans(c0, c1, c3);
}

impl DynClone for ParityConstraint {
    open spec fn cloned_from(&self, r: &Self) -> bool {
        r.parity == self.parity && r.cells@ == self.cells@
    }

    fn dyn_clone(&self) -> (r: Self) {
        ParityConstraint { parity: self.parity, cells: clone_cells(&self.cells) }
    }
}

impl ConfigurableConstraint for ParityConstraint {
    open spec fn spec_valid(&self) -> bool {
        self.cells@.len() == 1
    }

    open spec fn spec_cells(&self) -> Option<Seq<Cell>> {
        Option::Some(self.cells@)
    }

    open spec fn spec_max_cells(&self) -> usize {
        1
    }

    fn is_valid(&self) -> (r: bool) {
        self.cells.len() == 1
    }

    fn get_highlighted_cells(&self) -> (r: Option<&Vec<Cell>>) {
        Some(&self.cells)
    }

    fn push_highlighted_cell(&mut self, c: Cell) {
        self.cells.push(c);
    }

    fn get_max_highlighted_cells(&self) -> (r: usize) {
        1
    }

    open spec fn spec_name(&self) -> Seq<char> {
        "Parity"@
    }

    fn name(&self) -> (r: &'static str) {
        "Parity"
    }
}

} // verus!
