use vstd::prelude::*;

use crate::constraint::{
    assert_cells_distinct, assert_cells_no_gap, cells_in_bounds, clone_cells,
    ConfigurableConstraint, Constraint, DynClone, Rule,
};
use crate::expr::{exists_pair_gap, pairwise_distinct};
use crate::sudoku::{cell_vals, full_asg, holds_from, AssertionList, Cell, SudokuContext};

verus! {

/// A renban line: the claimed cells take a set of consecutive values, in
/// any order.
///
/// The compiled form splits this in two: the values are pairwise
/// different, and no two of them differ by the set's size or more.  Given
/// distinctness, the bounded span is exactly consecutiveness; the two
/// assertions only work together, so both are always emitted.
pub struct RenbanConstraint {
    pub cells: Vec<Cell>,
}

/// Meaning of a renban over its claimed cells: distinct values whose span
/// stays below the cell count.
pub open spec fn renban_sem(cs: Seq<Cell>, asg: Seq<int>) -> bool {
    pairwise_distinct(cell_vals(asg, cs)) && !exists_pair_gap(cell_vals(asg, cs), cs.len() as int)
}

/// The values are exactly an arithmetic run of step one: all lie in a
/// window as long as the list, and every value of the window is taken.
pub open spec fn is_consecutive_run(vals: Seq<int>) -> bool {
    exists|lo: int|
        #![trigger covers_window(vals, lo)]
        (forall|k: int| 0 <= k < vals.len() ==> lo <= #[trigger] vals[k] < lo + vals.len())
            && covers_window(vals, lo)
}

/// The value `d` appears among the listed values.
pub open spec fn appears(vals: Seq<int>, d: int) -> bool {
    exists|k: int| 0 <= k < vals.len() && #[trigger] vals[k] == d
}

/// Every value of the window starting at `lo` appears among the values.
pub open spec fn covers_window(vals: Seq<int>, lo: int) -> bool {
    forall|d: int| lo <= d < lo + vals.len() ==> #[trigger] appears(vals, d)
}

/// Pairwise different values confined to a window as long as their list
/// must take every value of the window.
pub proof fn lemma_distinct_bounded_covers(vals: Seq<int>, lo: int)
    requires
        pairwise_distinct(vals),
        forall|k: int| 0 <= k < vals.len() ==> lo <= #[trigger] vals[k] < lo + vals.len(),
    ensures
        covers_window(vals, lo),
{
    let n = vals.len() as int;
    assert(vals.no_duplicates()) by {
        assert forall|i: int, j: int|
            0 <= i < vals.len() && 0 <= j < vals.len() && i != j implies vals[i] != vals[j] by {
            if i < j {
                assert(vals[i] != vals[j]);
            } else {
                assert(vals[j] != vals[i]);
            }
        }
    }
    vals.unique_seq_to_set();
    let s = vals.to_set();
    let window = vstd::set_lib::set_int_range(lo, lo + n);
    vstd::set_lib::lemma_int_range(lo, lo + n);
    assert(s.subset_of(window));
    assert forall|d: int| lo <= d < lo + vals.len() implies #[trigger] appears(vals, d) by {
        if !s.contains(d) {
            assert(s.subset_of(window.remove(d)));
            assert(window.remove(d).len() == n - 1);
            vstd::set_lib::lemma_len_subset(s, window.remove(d));
            assert(false);
        }
        assert(vals.contains(d));
        let k = choose|k: int| 0 <= k < vals.len() && vals[k] == d;
        assert(vals[k] == d);
    }
}

/// Some position of a non-empty list holds its least value.
proof fn lemma_seq_has_min(vals: Seq<int>) -> (m: int)
    requires
        vals.len() >= 1,
    ensures
        0 <= m < vals.len(),
        forall|k: int| 0 <= k < vals.len() ==> vals[m] <= #[trigger] vals[k],
    decreases vals.len(),
{
    if vals.len() == 1 {
        0
    } else {
        let m0 = lemma_seq_has_min(vals.drop_last());
        assert forall|k: int| 0 <= k < vals.len() - 1 implies vals[m0] <= #[trigger] vals[k] by {
            assert(vals.drop_last()[k] == vals[k]);
            assert(vals.drop_last()[m0] == vals[m0]);
        }
        if vals.last() < vals[m0] {
            vals.len() - 1
        } else {
            m0
        }
    }
}

/// The defining invariant of the renban encoding: for pairwise different
/// values, the negated bounded-span condition holds exactly when the
/// values form an arithmetic run of step one, whatever order the cells
/// were claimed in.
pub proof fn lemma_renban_consecutive(cs: Seq<Cell>, asg: Seq<int>)
    requires
        cs.len() >= 1,
        pairwise_distinct(cell_vals(asg, cs)),
    ensures
        renban_sem(cs, asg) <==> is_consecutive_run(cell_vals(asg, cs)),
{
    let vals = cell_vals(asg, cs);
    let n = vals.len() as int;
    if renban_sem(cs, asg) {
        let m = lemma_seq_has_min(vals);
        let lo = vals[m];
        assert forall|k: int| 0 <= k < vals.len() implies lo <= #[trigger] vals[k] < lo + n by {
            if vals[k] >= lo + n {
                assert(vals[k] - vals[m] >= n);
                assert(exists_pair_gap(vals, n));
            }
        }
        lemma_distinct_bounded_covers(vals, lo);
        assert(covers_window(vals, lo));
    }
    if is_consecutive_run(vals) {
        let lo = choose|lo: int|
            #![trigger covers_window(vals, lo)]
            (forall|k: int| 0 <= k < vals.len() ==> lo <= #[trigger] vals[k] < lo + vals.len())
                && covers_window(vals, lo);
        assert(!exists_pair_gap(vals, n)) by {
            if exists_pair_gap(vals, n) {
                let (j, k) = choose|j: int, k: int|
                    0 <= j < vals.len() && 0 <= k < vals.len() && vals[k] - vals[j] >= n;
                assert(lo <= vals[j] && vals[k] < lo + n);
            }
        }
    }
}

impl Default for RenbanConstraint {
    /// A renban with no cells claimed yet.
    fn default() -> (r: Self)
        ensures
            r.cells@.len() == 0,
    {
        RenbanConstraint { cells: Vec::new() }
    }
}

impl Constraint for RenbanConstraint {
    open spec fn rule_wf(&self) -> bool {
        cells_in_bounds(self.cells@) && self.cells@.len() <= 0x7fff_ffff
    }

    open spec fn siblings_wf(&self, rules: Seq<Rule>) -> bool {
        true
    }

    open spec fn sem(&self, rules: Seq<Rule>, asg: Seq<int>) -> bool {
        renban_sem(self.cells@, asg)
    }

    fn apply(&self, solver: &mut AssertionList, context: &mut SudokuContext) {
        let ghost base = solver@.len() as int;
        let ghost cpre = *context;
        let ghost lpre = solver@;
        assert_cells_distinct(solver, context, &self.cells);
        let ghost cmid = *context;
        let ghost lmid = solver@;
        let gap = self.cells.len() as i64;
        assert_cells_no_gap(solver, context, &self.cells, gap);
        proof {
            crate::sudoku::lemma_extends_trans(cpre, cmid, *context);
            assert forall|asg: Seq<int>| full_asg(asg) implies (holds_from(
                context,
                solver@,
                base,
                asg,
            ) <==> self.sem(old(context).rules(), asg)) by {
                crate::sudoku::lemma_holds_extends(&cmid, context, lmid, base, asg);
                crate::sudoku::lemma_holds_push(context, lmid, solver@.last(), base, asg);
                assert(solver@ =~= lmid.push(solver@.last()));
                crate::sudoku::lemma_holds_extends(&cpre, context, lpre, base, asg);
                crate::sudoku::lemma_holds_push(context, lpre, lmid.last(), base, asg);
                assert(lmid =~= lpre.push(lmid.last()));
                assert(holds_from(context, lpre, base, asg));
                assert(context.bval(lmid.last(), asg) == cmid.bval(lmid.last(), asg));
                assert(cmid.bval(lmid.last(), asg) == pairwise_distinct(
                    cell_vals(asg, self.cells@),
                ));
            }
        }
    }
}

impl DynClone for RenbanConstraint {
    open spec fn cloned_from(&self, r: &Self) -> bool {
        r.cells@ == self.cells@
    }

    fn dyn_clone(&self) -> (r: Self) {
        RenbanConstraint { cells: clone_cells(&self.cells) }
    }
}

impl ConfigurableConstraint for RenbanConstraint {
    open spec fn spec_valid(&self) -> bool {
        self.cells@.len() >= 2
    }

    open spec fn spec_cells(&self) -> Option<Seq<Cell>> {
        Option::Some(self.cells@)
    }

    open spec fn spec_max_cells(&self) -> usize {
        usize::MAX
    }

    fn is_valid(&self) -> (r: bool) {
        self.cells.len() >= 2
    }

    fn get_highlighted_cells(&self) -> (r: Option<&Vec<Cell>>) {
        Some(&self.cells)
    }

    fn push_highlighted_cell(&mut self, c: Cell) {
        self.cells.push(c);
    }

    fn get_max_highlighted_cells(&self) -> (r: usize) {
        usize::MAX
    }

    open spec fn spec_name(&self) -> Seq<char> {
        "Renban"@
    }

    fn name(&self) -> (r: &'static str) {
        "Renban"
    }
}

} // verus!
