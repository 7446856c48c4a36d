use vstd::prelude::*;

use crate::constraint::{cells_in_bounds, clone_cells, ConfigurableConstraint, Constraint, DynClone, Rule};
use crate::expr::{sum_of, IntId};
use crate::parse::{parse_i32, parsed_value, parses_as_i32};
use crate::sudoku::{
    cell_in_bounds, cell_val, full_asg, holds_from, log_wf, AssertionList, Cell, SudokuContext,
};

verus! {

/// The axis an X-sum clue reads along.
#[derive(Clone, Copy, PartialEq, Eq, Structural)]
pub enum Direction {
    Horizontal,
    Vertical,
}

/// An X-sum clue: anchored at a grid edge, the value of the anchor cell
/// says how many of the first cells along the line count, and those cells
/// must sum to the target entered as text.
pub struct XSumConstraint {
    pub total: String,
    pub direction: Direction,
    pub cells: Vec<Cell>,
}

/// Per-step displacement of the line walked from `start`, or nothing if
/// the anchor does not sit on a matching grid edge.
pub open spec fn line_delta(start: Cell, dir: Direction) -> Option<(int, int)> {
    if dir == Direction::Horizontal && start.col == 0 {
        Option::Some((0int, 1int))
    } else if dir == Direction::Vertical && start.row == 0 {
        Option::Some((1int, 0int))
    } else if dir == Direction::Horizontal && start.col == 8 {
        Option::Some((0int, -1int))
    } else if dir == Direction::Vertical && start.row == 8 {
        Option::Some((-1int, 0int))
    } else {
        Option::None
    }
}

/// The nine cells of the line walked from `start` with displacement
/// (`dr`, `dc`).
pub open spec fn line_cells(start: Cell, dr: int, dc: int) -> Seq<Cell> {
    Seq::new(
        9,
        |i: int| Cell { row: (start.row + dr * i) as usize, col: (start.col + dc * i) as usize },
    )
}

/// The conditional terms of the running sum: the i-th cell counts only
/// when the anchor's value exceeds i.
pub open spec fn xsum_terms(asg: Seq<int>, line: Seq<Cell>) -> Seq<int> {
    Seq::new(
        line.len(),
        |i: int| if cell_val(asg, line[0]) > i {
            cell_val(asg, line[i])
        } else {
            0
        },
    )
}

/// Walks the full line of cells away from an edge anchor in the given
/// direction, or nothing when the anchor does not sit on the matching
/// grid edge.
pub fn iter_cells_in_dir(start_pos: Cell, direction: Direction) -> (r: Option<Vec<Cell>>)
    requires
        cell_in_bounds(start_pos),
    ensures
        (r is Some) == (line_delta(start_pos, direction) is Some),
        r matches Some(v) ==> v@ == line_cells(
            start_pos,
            line_delta(start_pos, direction).unwrap().0,
            line_delta(start_pos, direction).unwrap().1,
        ),
{
    let is_h = matches!(direction, Direction::Horizontal);
    let dr: i64;
    let dc: i64;
    if is_h && start_pos.col == 0 {
        dr = 0;
        dc = 1;
    } else if !is_h && start_pos.row == 0 {
        dr = 1;
        dc = 0;
    } else if is_h && start_pos.col == 8 {
        dr = 0;
        dc = -1;
    } else if !is_h && start_pos.row == 8 {
        dr = -1;
        dc = 0;
    } else {
        return None;
    }
    let mut out: Vec<Cell> = Vec::new();
    let mut i: usize = 0;
    while i < 9
        invariant
            cell_in_bounds(start_pos),
            (dr == 0 && dc == 1 && start_pos.col == 0) || (dr == 1 && dc == 0 && start_pos.row
                == 0) || (dr == 0 && dc == -1 && start_pos.col == 8) || (dr == -1 && dc == 0
                && start_pos.row == 8),
            i <= 9,
            out@ == line_cells(start_pos, dr as int, dc as int).take(i as int),
        decreases 9 - i,
    {
        let r2 = if dr == 1 {
            start_pos.row + i
        } else if dr == -1 {
            start_pos.row - i
        } else {
            start_pos.row
        };
        let cc2 = if dc == 1 {
            start_pos.col + i
        } else if dc == -1 {
            start_pos.col - i
        } else {
            start_pos.col
        };
        out.push(Cell::new(r2, cc2));
        proof {
            assert(line_cells(start_pos, dr as int, dc as int)[i as int] == (Cell {
                row: r2,
                col: cc2,
            }));
            assert(out@ =~= line_cells(start_pos, dr as int, dc as int).take(i as int + 1));
        }
        i += 1;
    }
    proof {
        assert(out@ =~= line_cells(start_pos, dr as int, dc as int));
    }
    Some(out)
}

impl Default for XSumConstraint {
    /// A horizontal clue with no anchor claimed yet and target text "0".
    fn default() -> (r: Self)
        ensures
            r.cells@.len() == 0,
            r.total@ == "0"@,
            r.direction == Direction::Horizontal,
    {
        XSumConstraint {
            total: "0".to_owned(),
            direction: Direction::Horizontal,
            cells: Vec::new(),
        }
    }
}

impl Constraint for XSumConstraint {
    open spec fn rule_wf(&self) -> bool {
        cells_in_bounds(self.cells@) && self.cells@.len() >= 1 && parses_as_i32(self.total@)
    }

    open spec fn siblings_wf(&self, rules: Seq<Rule>) -> bool {
        true
    }

    open spec fn sem(&self, rules: Seq<Rule>, asg: Seq<int>) -> bool {
        match line_delta(self.cells@[0], self.direction) {
            Option::Some(d) => sum_of(xsum_terms(asg, line_cells(self.cells@[0], d.0, d.1)))
                == parsed_value(self.total@),
            Option::None => true,
        }
    }

    fn apply(&self, solver: &mut AssertionList, context: &mut SudokuContext) {
        let ghost base = solver@.len() as int;
        let start = self.cells[0];
        let is_h = matches!(self.direction, Direction::Horizontal);
        if is_h && start.col == 0 {
            assert_xsum_line(solver, context, start, 0, 1, self.total.as_str());
        } else if !is_h && start.row == 0 {
            assert_xsum_line(solver, context, start, 1, 0, self.total.as_str());
        } else if is_h && start.col == 8 {
            assert_xsum_line(solver, context, start, 0, -1, self.total.as_str());
        } else if !is_h && start.row == 8 {
            assert_xsum_line(solver, context, start, -1, 0, self.total.as_str());
        }
        proof {
            assert forall|asg: Seq<int>| full_asg(asg) implies (holds_from(
                context,
                solver@,
                base,
                asg,
            ) <==> self.sem(old(context).rules(), asg)) by {
                if line_delta(self.cells@[0], self.direction) is Some {
                    crate::sudoku::lemma_holds_push(
                        context,
                        old(solver)@,
                        solver@.last(),
                        base,
                        asg,
                    );
                    assert(solver@ =~= old(solver)@.push(solver@.last()));
                    assert(holds_from(context, old(solver)@, base, asg));
                } else {
                    assert(solver@ =~= old(solver)@);
                }
            }
        }
    }
}

/// Compiles one X-sum clue along a concrete line: a running sum of
/// conditionally included cells equals the parsed target.
fn assert_xsum_line(
    solver: &mut AssertionList,
    context: &mut SudokuContext,
    start: Cell,
    dr: i64,
    dc: i64,
    total: &str,
)
    requires
        old(context).wf(),
        log_wf(old(context), old(solver)@),
        cell_in_bounds(start),
        crate::parse::parses_as_i32(total@),
        (dr == 0 && dc == 1 && start.col == 0) || (dr == 1 && dc == 0 && start.row == 0) || (dr
            == 0 && dc == -1 && start.col == 8) || (dr == -1 && dc == 0 && start.row == 8),
    ensures
        final(context).wf(),
        final(context).extends(old(context)),
        log_wf(final(context), final(solver)@),
        final(solver)@.len() == old(solver)@.len() + 1,
        forall|k: int| 0 <= k < old(solver)@.len() ==> final(solver)@[k] == old(solver)@[k],
        forall|asg: Seq<int>|
            full_asg(asg) ==> (final(context).bval(final(solver)@.last(), asg) <==> sum_of(
                xsum_terms(asg, line_cells(start, dr as int, dc as int)),
            ) == parsed_value(total@)),
{
    let ghost line = line_cells(start, dr as int, dc as int);
    let t = parse_i32(total).unwrap();
    let startid = context.get_cell(start.row, start.col);
    let ghost c0 = *context;
    let zeroid = context.const_int(0);
    let ghost c1 = *context;
    proof {
        assert(line[0] == start);
        assert forall|j: int| 0 <= j < 9 implies cell_in_bounds(#[trigger] line[j]) by {
            let rr = start.row + (dr as int) * j;
            let cc = start.col + (dc as int) * j;
            assert(line[j] == (Cell { row: rr as usize, col: cc as usize }));
            if dr == 0 && dc == 1 {
                assert((dc as int) * j == j && (dr as int) * j == 0);
            } else if dr == 1 && dc == 0 {
                assert((dr as int) * j == j && (dc as int) * j == 0);
            } else if dr == 0 && dc == -1 {
                assert((dc as int) * j == -j && (dr as int) * j == 0);
            } else {
                assert((dr as int) * j == -j && (dc as int) * j == 0);
            }
            assert(0 <= rr < 9 && 0 <= cc < 9);
        }
    }
    let mut ids: Vec<IntId> = Vec::new();
    let mut i: usize = 0;
    while i < 9
        invariant
            context.wf(),
            context.extends(&c1),
            c1.wf(),
            c0.wf(),
            cell_in_bounds(start),
            (dr == 0 && dc == 1 && start.col == 0) || (dr == 1 && dc == 0 && start.row == 0) || (
            dr == 0 && dc == -1 && start.col == 8) || (dr == -1 && dc == 0 && start.row == 8),
            i <= 9,
            line == line_cells(start, dr as int, dc as int),
            line[0] == start,
            forall|j: int| 0 <= j < 9 ==> cell_in_bounds(#[trigger] line[j]),
            ids@.len() == i as int,
            (startid as int) < c1.ipool().len(),
            (zeroid as int) < c1.ipool().len(),
            forall|asg: Seq<int>|
                full_asg(asg) ==> #[trigger] c1.ival(startid, asg) == cell_val(asg, start),
            forall|asg: Seq<int>| #[trigger] c1.ival(zeroid, asg) == 0,
            forall|j: int| 0 <= j < i as int ==> ((#[trigger] ids@[j]) as int)
                < context.ipool().len(),
            forall|j: int, asg: Seq<int>|
                0 <= j < i as int && full_asg(asg) ==> #[trigger] context.ival(ids@[j], asg)
                    == (if cell_val(asg, start) > j {
                    cell_val(asg, line[j])
                } else {
                    0int
                }),
        decreases 9 - i,
    {
        let r2 = if dr == 1 {
            start.row + i
        } else if dr == -1 {
            start.row - i
        } else {
            start.row
        };
        let cc2 = if dc == 1 {
            start.col + i
        } else if dc == -1 {
            start.col - i
        } else {
            start.col
        };
        proof {
            assert(cell_in_bounds(line[i as int]));
            assert(Cell { row: r2, col: cc2 } == line[i as int]);
        }
        let cellid = context.get_cell(r2, cc2);
        let ghost p0 = *context;
        let iconst = context.const_int(i as i32);
        let ghost p1 = *context;
        let term = context.mk_ite_gt(startid, iconst, cellid, zeroid);
        ids.push(term);
        proof {
            crate::sudoku::lemma_extends_trans(p0, p1, *context);
            crate::sudoku::lemma_extends_trans(c1, p0, *context);
            assert forall|j: int, asg: Seq<int>|
                0 <= j < i as int + 1 && full_asg(asg) implies #[trigger] context.ival(
                ids@[j],
                asg,
            ) == (if cell_val(asg, start) > j {
                cell_val(asg, line[j])
            } else {
                0int
            }) by {
                if j < i as int {
                    assert(context.ival(ids@[j], asg) == p0.ival(ids@[j], asg));
                } else {
                    assert(ids@[j] == term);
                    assert(p1.ival(startid, asg) == c1.ival(startid, asg));
                    assert(p1.ival(iconst, asg) == i as int);
                    assert(p1.ival(cellid, asg) == p0.ival(cellid, asg));
                    assert(p0.ival(cellid, asg) == cell_val(asg, line[j]));
                    assert(p1.ival(zeroid, asg) == c1.ival(zeroid, asg));
                }
            }
        }
        i += 1;
    }
    let ghost c2 = *context;
    let ghost idsq = ids@;
    let sumid = context.mk_add(ids);
    let ghost c3 = *context;
    let totid = context.const_int(t);
    let ghost c4 = *context;
    let b = context.mk_eq(sumid, totid);
    solver.assert_id(b);
    proof {
        crate::sudoku::lemma_extends_trans(c2, c3, c4);
        crate::sudoku::lemma_extends_trans(c2, c4, *context);
        crate::sudoku::lemma_extends_trans(c1, c2, *context);
        crate::sudoku::lemma_extends_trans(c0, c1, *context);
        assert forall|asg: Seq<int>| full_asg(asg) implies (context.bval(solver@.last(), asg)
            <==> sum_of(xsum_terms(asg, line)) == parsed_value(total@)) by {
            assert(solver@.last() == b);
            assert(context.bval(b, asg) == (c4.ival(sumid, asg) == c4.ival(totid, asg)));
            assert(c4.ival(totid, asg) == t as int);
            assert(c4.ival(sumid, asg) == c3.ival(sumid, asg));
            assert(c3.ival(sumid, asg) == sum_of(c2.ivals(idsq, asg)));
            assert forall|j: int| 0 <= j < idsq.len() implies c2.ivals(idsq, asg)[j]
                == xsum_terms(asg, line)[j] by {
                assert(c2.ival(idsq[j], asg) == (if cell_val(asg, start) > j {
                    cell_val(asg, line[j])
                } else {
                    0int
                }));
            }
            assert(c2.ivals(idsq, asg) =~= xsum_terms(asg, line));
        }
    }
}

impl DynClone for XSumConstraint {
    open spec fn cloned_from(&self, r: &Self) -> bool {
        r.total@ == self.total@ && r.direction == self.direction && r.cells@ == self.cells@
    }

    fn dyn_clone(&self) -> (r: Self) {
        XSumConstraint {
            total: self.total.clone(),
            direction: self.direction,
            cells: clone_cells(&self.cells),
        }
    }
}

impl ConfigurableConstraint for XSumConstraint {
    open spec fn spec_valid(&self) -> bool {
        self.cells@.len() > 0 && parses_as_i32(self.total@)
    }

    open spec fn spec_cells(&self) -> Option<Seq<Cell>> {
        Option::Some(self.cells@)
    }

    open spec fn spec_max_cells(&self) -> usize {
        1
    }

    fn is_valid(&self) -> (r: bool) {
        self.cells.len() > 0 && parse_i32(self.total.as_str()).is_some()
    }

    fn get_highlighted_cells(&self) -> (r: Option<&Vec<Cell>>) {
        Some(&self.cells)
    }

    fn push_highlighted_cell(&mut self, c: Cell) {
        self.cells.push(c);
    }

    fn get_max_highlighted_cells(&self) -> (r: usize) {
        1
    }

    open spec fn spec_name(&self) -> Seq<char> {
        "X-Sum"@
    }

    fn name(&self) -> (r: &'static str) {
        "X-Sum"
    }
}

} // verus!
