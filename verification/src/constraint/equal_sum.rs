use vstd::prelude::*;

use crate::constraint::{
    cells_in_bounds, clone_cells, ConfigurableConstraint, Constraint, DynClone, Rule,
};
use crate::expr::{sum_of, BoolId, IntId};
use crate::sudoku::{
    cell_in_bounds, cell_vals, full_asg, holds_from, log_wf, AssertionList, Cell, SudokuContext,
};

verus! {

/// An equal-sum line: the claimed cells are grouped into contiguous runs
/// that share a 3-by-3 box, and all group sums must be equal; a selection
/// spanning fewer than two boxes asserts nothing.
pub struct EqualSumConstraint {
    pub cells: Vec<Cell>,
}

/// Two cells lie in the same 3-by-3 box.
pub open spec fn same_box(a: Cell, b: Cell) -> bool {
    a.row / 3 == b.row / 3 && a.col / 3 == b.col / 3
}

/// The contiguous runs of the claimed cells that share a box: a new run
/// starts whenever a cell's box differs from its predecessor's.
pub open spec fn eq_groups(cs: Seq<Cell>) -> Seq<Seq<Cell>>
    decreases cs.len(),
{
    if cs.len() == 0 {
        Seq::empty()
    } else {
        let rest = eq_groups(cs.drop_last());
        let c = cs.last();
        if rest.len() > 0 && rest.last().len() > 0 && same_box(rest.last().last(), c) {
            rest.update(rest.len() - 1, rest.last().push(c))
        } else {
            rest.push(seq![c])
        }
    }
}

/// Consecutive group sums agree (vacuous below two groups).
pub open spec fn group_sums_equal(gs: Seq<Seq<Cell>>, asg: Seq<int>) -> bool {
    forall|g: int|
        0 <= g < gs.len() - 1 ==> sum_of(cell_vals(asg, #[trigger] gs[g])) == sum_of(
            cell_vals(asg, gs[g + 1]),
        )
}

impl Default for EqualSumConstraint {
    /// A line with no cells claimed yet.
    fn default() -> (r: Self)
        ensures
            r.cells@.len() == 0,
    {
        EqualSumConstraint { cells: Vec::new() }
    }
}

impl Constraint for EqualSumConstraint {
    open spec fn rule_wf(&self) -> bool {
        cells_in_bounds(self.cells@)
    }

    open spec fn siblings_wf(&self, rules: Seq<Rule>) -> bool {
        true
    }

    open spec fn sem(&self, rules: Seq<Rule>, asg: Seq<int>) -> bool {
        group_sums_equal(eq_groups(self.cells@), asg)
    }

    fn apply(&self, solver: &mut AssertionList, context: &mut SudokuContext) {
        let ghost base = solver@.len() as int;
        let mut groups: Vec<Vec<Cell>> = Vec::new();
        let n = self.cells.len();
        let mut i: usize = 0;
        while i < n
            invariant
                n == self.cells@.len(),
                i <= n,
                cells_in_bounds(self.cells@),
                groups@.len() == eq_groups(self.cells@.take(i as int)).len(),
                forall|g: int|
                    0 <= g < groups@.len() ==> (#[trigger] groups@[g])@ == eq_groups(
                        self.cells@.take(i as int),
                    )[g],
                forall|g: int| 0 <= g < groups@.len() ==> (#[trigger] groups@[g])@.len() > 0,
                forall|g: int, j: int|
                    0 <= g < groups@.len() && 0 <= j < groups@[g]@.len() ==> cell_in_bounds(
                        #[trigger] groups@[g]@[j],
                    ),
            decreases n - i,
        {
            let c = self.cells[i];
            let ghost pre = self.cells@.take(i as int);
            let ghost cur = self.cells@.take(i as int + 1);
            proof {
                assert(cur.drop_last() =~= pre);
                assert(cur.last() == self.cells@[i as int]);
            }
            let glen = groups.len();
            let mut newgroup = true;
            if glen > 0 {
                let llen = groups[glen - 1].len();
                if llen > 0 {
                    let p = groups[glen - 1][llen - 1];
                    if p.row / 3 == c.row / 3 && p.col / 3 == c.col / 3 {
                        newgroup = false;
                    }
                }
            }
            proof {
                let rest = eq_groups(pre);
                assert(newgroup == !(rest.len() > 0 && rest.last().len() > 0 && same_box(
                    rest.last().last(),
                    c,
                )));
            }
            if newgroup {
                let mut fresh: Vec<Cell> = Vec::new();
                fresh.push(c);
                groups.push(fresh);
                proof {
                    assert(groups@.last()@ =~= seq![c]);
                    assert forall|g: int| 0 <= g < groups@.len() implies (#[trigger] groups@[g])@
                        == eq_groups(cur)[g] by {
                        if g < groups@.len() - 1 {
                            assert(groups@[g]@ == eq_groups(pre)[g]);
                        }
                    }
                }
            } else {
                let mut last = groups.pop().unwrap();
                last.push(c);
                groups.push(last);
                proof {
                    let rest = eq_groups(pre);
                    assert(eq_groups(cur) == rest.update(rest.len() - 1, rest.last().push(c)));
                    assert forall|g: int| 0 <= g < groups@.len() implies (#[trigger] groups@[g])@
                        == eq_groups(cur)[g] by {
                        if g < groups@.len() - 1 {
                            assert(groups@[g]@ == eq_groups(pre)[g]);
                        } else {
                            assert(groups@[g]@ == eq_groups(pre)[g].push(c));
                        }
                    }
                }
            }
            i += 1;
        }
        proof {
            assert(self.cells@.take(n as int) =~= self.cells@);
            assert(groups@.len() == eq_groups(self.cells@).len());
            assert(forall|g: int|
                0 <= g < groups@.len() ==> (#[trigger] groups@[g])@ == eq_groups(self.cells@)[g]);
        }
        let ghost gseq = groups@;
        if groups.len() < 2 {
            proof {
                assert forall|asg: Seq<int>| full_asg(asg) implies (holds_from(
                    context,
                    solver@,
                    base,
                    asg,
                ) <==> self.sem(old(context).rules(), asg)) by {
                    assert(eq_groups(self.cells@).len() < 2);
                }
            }
            return ;
        }
        let ghost c0 = *context;
        let mut sums: Vec<IntId> = Vec::new();
        let ng = groups.len();
        let mut g: usize = 0;
        while g < ng
            invariant
                context.wf(),
                context.extends(&c0),
                c0.wf(),
                log_wf(context, solver@),
                ng == groups@.len(),
                groups@ == gseq,
                g <= ng,
                sums@.len() == g as int,
                forall|gg: int, j: int|
                    0 <= gg < groups@.len() && 0 <= j < groups@[gg]@.len() ==> cell_in_bounds(
                        #[trigger] groups@[gg]@[j],
                    ),
                forall|j: int| 0 <= j < g as int ==> ((#[trigger] sums@[j]) as int)
                    < context.ipool().len(),
                forall|j: int, asg: Seq<int>|
                    0 <= j < g as int && full_asg(asg) ==> #[trigger] context.ival(sums@[j], asg)
                        == sum_of(cell_vals(asg, groups@[j]@)),
            decreases ng - g,
        {
            let ids = context.ids_of_cells(&groups[g]);
            let ghost p0 = *context;
            let s = context.mk_add(ids);
            sums.push(s);
            proof {
                crate::sudoku::lemma_extends_trans(c0, p0, *context);
                assert forall|j: int, asg: Seq<int>|
                    0 <= j < g as int + 1 && full_asg(asg) implies #[trigger] context.ival(
                    sums@[j],
                    asg,
                ) == sum_of(cell_vals(asg, groups@[j]@)) by {
                    if j < g as int {
                        assert(context.ival(sums@[j], asg) == p0.ival(sums@[j], asg));
                    } else {
                        assert(sums@[j] == s);
                    }
                }
            }
            g += 1;
        }
        let ghost c1 = *context;
        let ghost sumsq = sums@;
        let mut eqids: Vec<BoolId> = Vec::new();
        let mut g2: usize = 0;
        while g2 + 1 < ng
            invariant
                context.wf(),
                context.extends(&c1),
                c1.wf(),
                log_wf(context, solver@),
                ng == groups@.len(),
                groups@ == gseq,
                ng >= 2,
                g2 + 1 <= ng,
                sums@ == sumsq,
                sums@.len() == ng as int,
                eqids@.len() == g2 as int,
                forall|j: int| 0 <= j < sums@.len() ==> ((#[trigger] sums@[j]) as int)
                    < c1.ipool().len(),
                forall|j: int, asg: Seq<int>|
                    0 <= j < sums@.len() && full_asg(asg) ==> #[trigger] c1.ival(sums@[j], asg)
                        == sum_of(cell_vals(asg, groups@[j]@)),
                forall|j: int| 0 <= j < g2 as int ==> ((#[trigger] eqids@[j]) as int)
                    < context.bpool().len(),
                forall|j: int, asg: Seq<int>|
                    0 <= j < g2 as int && full_asg(asg) ==> (#[trigger] context.bval(
                        eqids@[j],
                        asg,
                    ) <==> sum_of(cell_vals(asg, groups@[j]@)) == sum_of(
                        cell_vals(asg, groups@[j + 1]@),
                    )),
            decreases ng - g2,
        {
            let ghost p0 = *context;
            let e = context.mk_eq(sums[g2], sums[g2 + 1]);
            eqids.push(e);
            proof {
                crate::sudoku::lemma_extends_trans(c1, p0, *context);
                assert forall|j: int, asg: Seq<int>|
                    0 <= j < g2 as int + 1 && full_asg(asg) implies (#[trigger] context.bval(
                    eqids@[j],
                    asg,
                ) <==> sum_of(cell_vals(asg, groups@[j]@)) == sum_of(
                    cell_vals(asg, groups@[j + 1]@),
                )) by {
                    if j < g2 as int {
                        assert(context.bval(eqids@[j], asg) == p0.bval(eqids@[j], asg));
                    } else {
                        assert(eqids@[j] == e);
                        assert(p0.ival(sums@[j], asg) == c1.ival(sums@[j], asg));
                        assert(p0.ival(sums@[j + 1], asg) == c1.ival(sums@[j + 1], asg));
                    }
                }
            }
            g2 += 1;
        }
        let ghost c2 = *context;
        let ghost eqidsq = eqids@;
        let andb = context.mk_and(eqids);
        solver.assert_id(andb);
        proof {
            crate::sudoku::lemma_extends_trans(c0, c1, c2);
            crate::sudoku::lemma_extends_trans(c0, c2, *context);
            assert forall|asg: Seq<int>| full_asg(asg) implies (holds_from(
                context,
                solver@,
                base,
                asg,
            ) <==> self.sem(old(context).rules(), asg)) by {
                assert(solver@[base] == andb);
                assert(context.bval(andb, asg) == (forall|k: int|
                    0 <= k < eqidsq.len() ==> c2.bval(#[trigger] eqidsq[k], asg)));
                if holds_from(context, solver@, base, asg) {
                    assert(context.bval(solver@[base], asg));
                    assert forall|gg: int| 0 <= gg < eq_groups(self.cells@).len() - 1 implies
                        sum_of(cell_vals(asg, #[trigger] eq_groups(self.cells@)[gg])) == sum_of(
                        cell_vals(asg, eq_groups(self.cells@)[gg + 1]),
                    ) by {
                        assert(c2.bval(eqidsq[gg], asg));
                        assert(eq_groups(self.cells@)[gg] == groups@[gg]@);
                        assert(eq_groups(self.cells@)[gg + 1] == groups@[gg + 1]@);
                    }
                }
                if self.sem(old(context).rules(), asg) {
                    assert forall|k: int| 0 <= k < eqidsq.len() implies c2.bval(
                        #[trigger] eqidsq[k],
                        asg,
                    ) by {
                        assert(eq_groups(self.cells@)[k] == groups@[k]@);
                        assert(eq_groups(self.cells@)[k + 1] == groups@[k + 1]@);
                        assert(sum_of(cell_vals(asg, eq_groups(self.cells@)[k])) == sum_of(
                            cell_vals(asg, eq_groups(self.cells@)[k + 1]),
                        ));
                    }
                    assert forall|k: int| base <= k < solver@.len() implies context.bval(
                        #[trigger] solver@[k],
                        asg,
                    ) by {
                        assert(solver@[k] == andb);
                    }
                }
            }
        }
    }
}

impl DynClone for EqualSumConstraint {
    open spec fn cloned_from(&self, r: &Self) -> bool {
        r.cells@ == self.cells@
    }

    fn dyn_clone(&self) -> (r: Self) {
        EqualSumConstraint { cells: clone_cells(&self.cells) }
    }
}

impl ConfigurableConstraint for EqualSumConstraint {
    open spec fn spec_valid(&self) -> bool {
        self.cells@.len() > 0
    }

    open spec fn spec_cells(&self) -> Option<Seq<Cell>> {
        Option::Some(self.cells@)
    }

    open spec fn spec_max_cells(&self) -> usize {
        usize::MAX
    }

    fn is_valid(&self) -> (r: bool) {
        self.cells.len() > 0
    }

    fn get_highlighted_cells(&self) -> (r: Option<&Vec<Cell>>) {
        Some(&self.cells)
    }

    fn push_highlighted_cell(&mut self, c: Cell) {
        self.cells.push(c);
    }

    fn get_max_highlighted_cells(&self) -> (r: usize) {
        usize::MAX
    }

    open spec fn spec_name(&self) -> Seq<char> {
        "Equal Sum"@
    }

    fn name(&self) -> (r: &'static str) {
        "Equal Sum"
    }
}

} // verus!
