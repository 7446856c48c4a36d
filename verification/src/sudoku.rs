use vstd::prelude::*;

use crate::arena::Z3Allocator;
use crate::constraint::Rule;
use crate::expr::{
    bool_node_wf, bool_val, bools_wf, exists_pair_gap, int_node_wf, int_val, int_vals, ints_wf,
    lemma_bool_val_prefix, lemma_int_val_prefix, lemma_push_bool_val, lemma_push_int_val,
    pairwise_distinct, sum_of, BoolExpr, BoolId, IntExpr, IntId,
};

verus! {

/// Width and height of the grid, and also the largest legal digit.
pub const SUDOKU_SIZE: usize = 9;

/// A zero-based (row, column) grid coordinate.
#[derive(Debug, Default, PartialEq, Eq, Copy, Clone, Hash, Structural)]
pub struct Cell {
    pub row: usize,
    pub col: usize,
}

impl Cell {
    /// Builds the coordinate (`row`, `col`).
    pub fn new(row: usize, col: usize) -> (r: Cell)
        ensures
            r == (Cell { row, col }),
    {
        Cell { row, col }
    }

    /// The cell directly above; only meaningful when not in the top row.
    pub fn up(&self) -> (r: Cell)
        requires
            self.row >= 1,
        ensures
            r == (Cell { row: (self.row - 1) as usize, col: self.col }),
    {
        Cell { row: self.row - 1, col: self.col }
    }

    /// The cell directly below; only meaningful inside the grid.
    pub fn down(&self) -> (r: Cell)
        requires
            self.row < usize::MAX,
        ensures
            r == (Cell { row: (self.row + 1) as usize, col: self.col }),
    {
        Cell { row: self.row + 1, col: self.col }
    }

    /// The cell directly to the left; only meaningful when not in the first
    /// column.
    pub fn left(&self) -> (r: Cell)
        requires
            self.col >= 1,
        ensures
            r == (Cell { row: self.row, col: (self.col - 1) as usize }),
    {
        Cell { row: self.row, col: self.col - 1 }
    }

    /// The cell directly to the right; only meaningful inside the grid.
    pub fn right(&self) -> (r: Cell)
        requires
            self.col < usize::MAX,
        ensures
            r == (Cell { row: self.row, col: (self.col + 1) as usize }),
    {
        Cell { row: self.row, col: self.col + 1 }
    }
}

/// Flat index of a cell in row-major order.
pub open spec fn cell_index(c: Cell) -> int {
    c.col + (SUDOKU_SIZE as int) * c.row
}

/// The coordinate lies inside the grid.
pub open spec fn cell_in_bounds(c: Cell) -> bool {
    c.row < SUDOKU_SIZE && c.col < SUDOKU_SIZE
}

/// Value a cell assignment gives to a cell.
pub open spec fn cell_val(asg: Seq<int>, c: Cell) -> int {
    asg[cell_index(c)]
}

/// Values a cell assignment gives to a list of cells, in order.
pub open spec fn cell_vals(asg: Seq<int>, cs: Seq<Cell>) -> Seq<int> {
    Seq::new(cs.len(), |k: int| cell_val(asg, cs[k]))
}

/// A full assignment: one value per cell of the grid.
pub open spec fn full_asg(asg: Seq<int>) -> bool {
    asg.len() == (SUDOKU_SIZE * SUDOKU_SIZE) as int
}

/// The handle under which a constant was cached, if it was built before.
pub open spec fn cache_find(c: Seq<(i32, IntId)>, n: i32) -> Option<IntId>
    decreases c.len(),
{
    if c.len() == 0 {
        Option::None
    } else if c[0].0 == n {
        Option::Some(c[0].1)
    } else {
        cache_find(c.skip(1), n)
    }
}

/// The per-solve session: owns the expression pools, the table of small
/// interned constants and the flat array of per-cell variables, and exposes
/// the grid geometry.
pub struct SudokuContext {
    bools: Z3Allocator<BoolExpr>,
    ints: Z3Allocator<IntExpr>,
    digits: Vec<IntId>,
    width: usize,
    height: usize,
    dmin: usize,
    dmax: usize,
    cells: Vec<IntId>,
    constraints: Vec<Rule>,
    extra_consts: Vec<(i32, IntId)>,
}

impl SudokuContext {
    /// The integer expression pool.
    pub closed spec fn ipool(&self) -> Seq<IntExpr> {
        self.ints@
    }

    /// The boolean expression pool.
    pub closed spec fn bpool(&self) -> Seq<BoolExpr> {
        self.bools@
    }

    /// Handles of the per-cell variables, in row-major order.
    pub closed spec fn cell_ids(&self) -> Seq<IntId> {
        self.cells@
    }

    /// Handles of the interned constants 0 through 9.
    pub closed spec fn digit_ids(&self) -> Seq<IntId> {
        self.digits@
    }

    /// Grid width as a mathematical integer.
    pub closed spec fn spec_width(&self) -> int {
        self.width as int
    }

    /// Grid height as a mathematical integer.
    pub closed spec fn spec_height(&self) -> int {
        self.height as int
    }

    /// Smallest legal digit as a mathematical integer.
    pub closed spec fn spec_dmin(&self) -> int {
        self.dmin as int
    }

    /// Largest legal digit as a mathematical integer.
    pub closed spec fn spec_dmax(&self) -> int {
        self.dmax as int
    }

    /// The ordered list of rule instances in play for this session.
    pub closed spec fn rules(&self) -> Seq<Rule> {
        self.constraints@
    }

    /// The constants outside the interned 0..=9 table built so far, with
    /// their handles, in the order they were first asked for.
    pub closed spec fn const_cache(&self) -> Seq<(i32, IntId)> {
        self.extra_consts@
    }

    /// Value of the integer node `a` under `asg`.
    pub open spec fn ival(&self, a: IntId, asg: Seq<int>) -> int {
        int_val(self.ipool(), a, asg)
    }

    /// Values of the integer nodes `ids` under `asg`, in order.
    pub open spec fn ivals(&self, ids: Seq<IntId>, asg: Seq<int>) -> Seq<int> {
        int_vals(self.ipool(), ids, asg)
    }

    /// Truth of the boolean node `b` under `asg`.
    pub open spec fn bval(&self, b: BoolId, asg: Seq<int>) -> bool {
        bool_val(self.bpool(), self.ipool(), b, asg)
    }

    /// The session invariant: pools are well formed, geometry is the fixed
    /// 9-by-9 grid with digits 1 through 9, the constant table interns 0
    /// through 9 and there is exactly one variable node per cell.
    pub open spec fn wf(&self) -> bool {
        &&& ints_wf(self.ipool())
        &&& bools_wf(self.bpool(), self.ipool().len() as int)
        &&& self.spec_width() == SUDOKU_SIZE as int
        &&& self.spec_height() == SUDOKU_SIZE as int
        &&& self.spec_dmin() == 1
        &&& self.spec_dmax() == SUDOKU_SIZE as int
        &&& self.cell_ids().len() == (SUDOKU_SIZE * SUDOKU_SIZE) as int
        &&& forall|k: int|
            0 <= k < self.cell_ids().len() ==> ((#[trigger] self.cell_ids()[k]) as int)
                < self.ipool().len() && self.ipool()[self.cell_ids()[k] as int] == IntExpr::Var(
                k as usize,
            )
        &&& self.digit_ids().len() == 10
        &&& forall|d: int|
            0 <= d < 10 ==> ((#[trigger] self.digit_ids()[d]) as int) < self.ipool().len()
                && self.ipool()[self.digit_ids()[d] as int] == IntExpr::Const(d as i64)
        &&& forall|j: int|
            0 <= j < self.const_cache().len() ==> ((#[trigger] self.const_cache()[j]).1 as int)
                < self.ipool().len() && self.ipool()[self.const_cache()[j].1 as int]
                == IntExpr::Const(self.const_cache()[j].0 as i64)
    }

    /// The session has only grown: every node of the old session is still
    /// there, with the same handle and the same value, and the geometry,
    /// constant table and cell variables are untouched.
    pub open spec fn extends(&self, o: &Self) -> bool {
        &&& o.ipool().len() <= self.ipool().len()
        &&& forall|j: int| 0 <= j < o.ipool().len() ==> self.ipool()[j] == o.ipool()[j]
        &&& o.bpool().len() <= self.bpool().len()
        &&& forall|j: int| 0 <= j < o.bpool().len() ==> self.bpool()[j] == o.bpool()[j]
        &&& self.cell_ids() == o.cell_ids()
        &&& self.digit_ids() == o.digit_ids()
        &&& self.spec_width() == o.spec_width()
        &&& self.spec_height() == o.spec_height()
        &&& self.spec_dmin() == o.spec_dmin()
        &&& self.spec_dmax() == o.spec_dmax()
        &&& self.rules() == o.rules()
        &&& forall|a: IntId, asg: Seq<int>|
            (a as int) < o.ipool().len() ==> #[trigger] self.ival(a, asg) == o.ival(a, asg)
        &&& forall|b: BoolId, asg: Seq<int>|
            (b as int) < o.bpool().len() ==> #[trigger] self.bval(b, asg) == o.bval(b, asg)
    }

    /// Grid width.
    pub fn width(&self) -> (r: usize)
        ensures
            r as int == self.spec_width(),
    {
        self.width
    }

    /// Grid height.
    pub fn height(&self) -> (r: usize)
        ensures
            r as int == self.spec_height(),
    {
        self.height
    }

    /// The inclusive range of legal digits, as its two endpoints.
    pub fn digits_range(&self) -> (r: (usize, usize))
        ensures
            r.0 as int == self.spec_dmin(),
            r.1 as int == self.spec_dmax(),
    {
        (self.dmin, self.dmax)
    }

    /// The ordered rule instances this session was created with, for
    /// cross-rule introspection.
    pub fn constraints(&self) -> (r: &Vec<Rule>)
        ensures
            r@ == self.rules(),
    {
        &self.constraints
    }

    /// Read access to the integer pool.
    pub fn ints(&self) -> (r: &Z3Allocator<IntExpr>)
        ensures
            r@ == self.ipool(),
    {
        &self.ints
    }

    /// Read access to the boolean pool.
    pub fn bools(&self) -> (r: &Z3Allocator<BoolExpr>)
        ensures
            r@ == self.bpool(),
    {
        &self.bools
    }

    /// Handles of all cell variables in row-major order.
    pub fn all_cells(&self) -> (r: &Vec<IntId>)
        ensures
            r@ == self.cell_ids(),
    {
        &self.cells
    }

    /// Handle of the variable for the cell at (`row`, `col`).
    ///
    /// Out-of-bounds coordinates are a programming error, ruled out here
    /// rather than checked at run time.
    pub fn get_cell(&self, row: usize, col: usize) -> (r: IntId)
        requires
            self.wf(),
            row < self.spec_height(),
            col < self.spec_width(),
        ensures
            r == self.cell_ids()[cell_index(Cell { row, col })],
            (r as int) < self.ipool().len(),
            forall|asg: Seq<int>|
                full_asg(asg) ==> #[trigger] self.ival(r, asg) == cell_val(
                    asg,
                    Cell { row, col },
                ),
    {
        let r = self.cells[col + self.width * row];
        proof {
            let c = Cell { row, col };
            assert forall|asg: Seq<int>| full_asg(asg) implies #[trigger] self.ival(r, asg)
                == cell_val(asg, c) by {
                assert(self.ipool()[r as int] == IntExpr::Var((col + 9 * row) as usize));
            }
        }
        r
    }

    /// Handle of a constant node for `n`, served from the table of interned
    /// constants when `n` is a digit and freshly allocated otherwise.
    pub fn const_int(&mut self, n: i32) -> (r: IntId)
        requires
            old(self).wf(),
        ensures
            final(self).wf(),
            final(self).extends(old(self)),
            (r as int) < final(self).ipool().len(),
            forall|asg: Seq<int>| #[trigger] final(self).ival(r, asg) == n as int,
            0 <= n < 10 ==> r == old(self).digit_ids()[n as int] && *final(self) == *old(self),
            !(0 <= n < 10) ==> match cache_find(old(self).const_cache(), n) {
                Option::Some(id) => r == id && *final(self) == *old(self),
                Option::None => final(self).ipool() == old(self).ipool().push(
                    IntExpr::Const(n as i64),
                ) && final(self).bpool() == old(self).bpool() && final(self).const_cache()
                    == old(self).const_cache().push((n, r)),
            },
    {
        if 0 <= n && n < 10 {
            let r = self.digits[n as usize];
            proof {
                lemma_extends_refl(self);
                assert forall|asg: Seq<int>| #[trigger] self.ival(r, asg) == n as int by {
                    assert(self.ipool()[r as int] == IntExpr::Const(n as i64));
                }
            }
            return r;
        }
        let m = self.extra_consts.len();
        proof {
            assert(self.const_cache().skip(0) =~= self.const_cache());
        }
        let mut j: usize = 0;
        while j < m
            invariant
                self.wf(),
                *self == *old(self),
                !(0 <= n < 10),
                m == self.const_cache().len(),
                j <= m,
                cache_find(self.const_cache(), n) == cache_find(
                    self.const_cache().skip(j as int),
                    n,
                ),
            decreases m - j,
        {
            let (cn, cid) = self.extra_consts[j];
            if cn == n {
                proof {
                    lemma_extends_refl(self);
                    assert(self.const_cache().skip(j as int)[0] == self.const_cache()[j as int]);
                    assert(self.const_cache()[j as int] == (cn, cid));
                    assert(cache_find(self.const_cache(), n) == Option::Some(cid));
                    assert forall|asg: Seq<int>| #[trigger] self.ival(cid, asg) == n as int by {
                        assert(self.ipool()[cid as int] == IntExpr::Const(n as i64));
                    }
                }
                return cid;
            }
            proof {
                assert(self.const_cache().skip(j as int)[0] == self.const_cache()[j as int]);
                assert(self.const_cache().skip(j as int).skip(1) =~= self.const_cache().skip(
                    j as int + 1,
                ));
            }
            j += 1;
        }
        proof {
            assert(self.const_cache().skip(m as int) =~= Seq::<(i32, IntId)>::empty());
            assert(cache_find(self.const_cache(), n) is None);
        }
        let ghost o = *self;
        let r = self.alloc_int(IntExpr::Const(n as i64));
        self.extra_consts.push((n, r));
        proof {
            assert(self.ipool() == o.ipool().push(IntExpr::Const(n as i64)));
            assert(self.bpool() == o.bpool());
            assert forall|a: IntId, asg: Seq<int>| (a as int) < o.ipool().len() implies
                #[trigger] self.ival(a, asg) == o.ival(a, asg) by {
                lemma_int_val_prefix(o.ipool(), self.ipool(), a, asg);
            }
            assert forall|b: BoolId, asg: Seq<int>| (b as int) < o.bpool().len() implies
                #[trigger] self.bval(b, asg) == o.bval(b, asg) by {
                lemma_bool_val_prefix(o.bpool(), self.bpool(), o.ipool(), self.ipool(), b, asg);
            }
            assert(self.extends(&o));
            assert(ints_wf(self.ipool()));
            assert(bools_wf(self.bpool(), self.ipool().len() as int));
            assert(self.wf()) by {
                assert forall|jj: int| 0 <= jj < self.const_cache().len() implies ((
                #[trigger] self.const_cache()[jj]).1 as int) < self.ipool().len()
                    && self.ipool()[self.const_cache()[jj].1 as int] == IntExpr::Const(
                    self.const_cache()[jj].0 as i64,
                ) by {
                    if jj < self.const_cache().len() - 1 {
                        assert(self.const_cache()[jj] == o.const_cache()[jj]);
                    }
                }
            }
            assert forall|asg: Seq<int>| #[trigger] self.ival(r, asg) == n as int by {
                lemma_push_int_val(o.ipool(), IntExpr::Const(n as i64), r, asg);
            }
        }
        r
    }

    /// Builds a fresh session for one solve attempt: empty pools, the
    /// constants 0 through 9 interned, and one fresh variable per cell.
    pub fn create(constraints: Vec<Rule>) -> (r: SudokuContext)
        ensures
            r.wf(),
            r.bpool().len() == 0,
            r.rules() == constraints@,
            r.const_cache().len() == 0,
    {
        let mut ints: Z3Allocator<IntExpr> = Z3Allocator::new();
        let mut digits: Vec<IntId> = Vec::new();
        let mut d: usize = 0;
        while d < 10
            invariant
                d <= 10,
                digits@.len() == d as int,
                ints@.len() == d as int,
                ints_wf(ints@),
                forall|j: int|
                    0 <= j < d as int ==> ((#[trigger] digits@[j]) as int) < ints@.len()
                        && ints@[digits@[j] as int] == IntExpr::Const(j as i64),
            decreases 10 - d,
        {
            let id = ints.allocate(IntExpr::Const(d as i64));
            digits.push(id);
            d += 1;
        }
        let mut cells: Vec<IntId> = Vec::new();
        let mut k: usize = 0;
        while k < SUDOKU_SIZE * SUDOKU_SIZE
            invariant
                k <= 81,
                cells@.len() == k as int,
                ints@.len() == 10 + k as int,
                ints_wf(ints@),
                forall|j: int|
                    0 <= j < 10 ==> ((#[trigger] digits@[j]) as int) < ints@.len()
                        && ints@[digits@[j] as int] == IntExpr::Const(j as i64),
                digits@.len() == 10,
                forall|j: int|
                    0 <= j < k as int ==> ((#[trigger] cells@[j]) as int) < ints@.len()
                        && ints@[cells@[j] as int] == IntExpr::Var(j as usize),
            decreases 81 - k,
        {
            let id = ints.allocate(IntExpr::Var(k));
            cells.push(id);
            k += 1;
        }
        SudokuContext {
            bools: Z3Allocator::new(),
            ints,
            digits,
            width: SUDOKU_SIZE,
            height: SUDOKU_SIZE,
            dmin: 1,
            dmax: SUDOKU_SIZE,
            cells,
            constraints,
            extra_consts: Vec::new(),
        }
    }

    /// Handles of the variables for a list of in-bounds cells, in order.
    pub fn ids_of_cells(&self, cs: &Vec<Cell>) -> (r: Vec<IntId>)
        requires
            self.wf(),
            forall|k: int| 0 <= k < cs@.len() ==> cell_in_bounds(#[trigger] cs@[k]),
        ensures
            r@.len() == cs@.len(),
            forall|k: int| 0 <= k < r@.len() ==> ((#[trigger] r@[k]) as int) < self.ipool().len(),
            forall|asg: Seq<int>|
                full_asg(asg) ==> #[trigger] self.ivals(r@, asg) == cell_vals(asg, cs@),
    {
        let mut r: Vec<IntId> = Vec::new();
        let n = cs.len();
        let mut k: usize = 0;
        while k < n
            invariant
                self.wf(),
                forall|j: int| 0 <= j < cs@.len() ==> cell_in_bounds(#[trigger] cs@[j]),
                n == cs@.len(),
                k <= n,
                r@.len() == k as int,
                forall|j: int|
                    0 <= j < k as int ==> ((#[trigger] r@[j]) as int) < self.ipool().len(),
                forall|j: int, asg: Seq<int>|
                    0 <= j < k as int && full_asg(asg) ==> #[trigger] self.ival(r@[j], asg)
                        == cell_val(asg, cs@[j]),
            decreases n - k,
        {
            let c = cs[k];
            let id = self.get_cell(c.row, c.col);
            r.push(id);
            k += 1;
        }
        proof {
            assert forall|asg: Seq<int>| full_asg(asg) implies #[trigger] self.ivals(r@, asg)
                == cell_vals(asg, cs@) by {
                assert forall|j: int| 0 <= j < cs@.len() implies self.ivals(r@, asg)[j]
                    == cell_vals(asg, cs@)[j] by {
                    assert(self.ival(r@[j], asg) == cell_val(asg, cs@[j]));
                }
                assert(self.ivals(r@, asg) =~= cell_vals(asg, cs@));
            }
        }
        r
    }

    /// New node: sum of the listed operands.
    pub fn mk_add(&mut self, ids: Vec<IntId>) -> (r: IntId)
        requires
            old(self).wf(),
            forall|k: int|
                0 <= k < ids@.len() ==> ((#[trigger] ids@[k]) as int) < old(self).ipool().len(),
        ensures
            final(self).wf(),
            final(self).extends(old(self)),
            (r as int) < final(self).ipool().len(),
            forall|asg: Seq<int>| #[trigger]
                final(self).ival(r, asg) == sum_of(old(self).ivals(ids@, asg)),
    {
        let ghost o = *self;
        let ghost nodeg = IntExpr::Add(ids);
        let r = self.alloc_int(IntExpr::Add(ids));
        proof {
            assert forall|asg: Seq<int>| #[trigger] self.ival(r, asg) == sum_of(
                o.ivals(ids@, asg),
            ) by {
                lemma_push_int_val(o.ipool(), nodeg, r, asg);
            }
        }
        r
    }

    /// New node: first operand minus second.
    pub fn mk_sub(&mut self, a: IntId, b: IntId) -> (r: IntId)
        requires
            old(self).wf(),
            (a as int) < old(self).ipool().len(),
            (b as int) < old(self).ipool().len(),
        ensures
            final(self).wf(),
            final(self).extends(old(self)),
            (r as int) < final(self).ipool().len(),
            forall|asg: Seq<int>| #[trigger]
                final(self).ival(r, asg) == old(self).ival(a, asg) - old(self).ival(b, asg),
    {
        let ghost o = *self;
        let r = self.alloc_int(IntExpr::Sub(a, b));
        proof {
            assert forall|asg: Seq<int>| #[trigger] self.ival(r, asg) == o.ival(a, asg) - o.ival(
                b,
                asg,
            ) by {
                lemma_push_int_val(o.ipool(), IntExpr::Sub(a, b), r, asg);
            }
        }
        r
    }

    /// New node: product of the two operands.
    pub fn mk_mul(&mut self, a: IntId, b: IntId) -> (r: IntId)
        requires
            old(self).wf(),
            (a as int) < old(self).ipool().len(),
            (b as int) < old(self).ipool().len(),
        ensures
            final(self).wf(),
            final(self).extends(old(self)),
            (r as int) < final(self).ipool().len(),
            forall|asg: Seq<int>| #[trigger]
                final(self).ival(r, asg) == old(self).ival(a, asg) * old(self).ival(b, asg),
    {
        let ghost o = *self;
        let r = self.alloc_int(IntExpr::Mul(a, b));
        proof {
            assert forall|asg: Seq<int>| #[trigger] self.ival(r, asg) == o.ival(a, asg) * o.ival(
                b,
                asg,
            ) by {
                lemma_push_int_val(o.ipool(), IntExpr::Mul(a, b), r, asg);
            }
        }
        r
    }

    /// New node: arithmetic negation.
    pub fn mk_neg(&mut self, a: IntId) -> (r: IntId)
        requires
            old(self).wf(),
            (a as int) < old(self).ipool().len(),
        ensures
            final(self).wf(),
            final(self).extends(old(self)),
            (r as int) < final(self).ipool().len(),
            forall|asg: Seq<int>| #[trigger] final(self).ival(r, asg) == -old(self).ival(a, asg),
    {
        let ghost o = *self;
        let r = self.alloc_int(IntExpr::Neg(a));
        proof {
            assert forall|asg: Seq<int>| #[trigger] self.ival(r, asg) == -o.ival(a, asg) by {
                lemma_push_int_val(o.ipool(), IntExpr::Neg(a), r, asg);
            }
        }
        r
    }

    /// New node: Euclidean quotient (0 when the divisor evaluates to 0).
    pub fn mk_div(&mut self, a: IntId, b: IntId) -> (r: IntId)
        requires
            old(self).wf(),
            (a as int) < old(self).ipool().len(),
            (b as int) < old(self).ipool().len(),
        ensures
            final(self).wf(),
            final(self).extends(old(self)),
            (r as int) < final(self).ipool().len(),
            forall|asg: Seq<int>| #[trigger]
                final(self).ival(r, asg) == if old(self).ival(b, asg) == 0 {
                    0int
                } else {
                    old(self).ival(a, asg) / old(self).ival(b, asg)
                },
    {
        let ghost o = *self;
        let r = self.alloc_int(IntExpr::Div(a, b));
        proof {
            assert forall|asg: Seq<int>| #[trigger] self.ival(r, asg) == (if o.ival(b, asg) == 0 {
                0int
            } else {
                o.ival(a, asg) / o.ival(b, asg)
            }) by {
                lemma_push_int_val(o.ipool(), IntExpr::Div(a, b), r, asg);
            }
        }
        r
    }

    /// New node: Euclidean remainder (0 when the divisor evaluates to 0).
    pub fn mk_mod(&mut self, a: IntId, b: IntId) -> (r: IntId)
        requires
            old(self).wf(),
            (a as int) < old(self).ipool().len(),
            (b as int) < old(self).ipool().len(),
        ensures
            final(self).wf(),
            final(self).extends(old(self)),
            (r as int) < final(self).ipool().len(),
            forall|asg: Seq<int>| #[trigger]
                final(self).ival(r, asg) == if old(self).ival(b, asg) == 0 {
                    0int
                } else {
                    old(self).ival(a, asg) % old(self).ival(b, asg)
                },
    {
        let ghost o = *self;
        let r = self.alloc_int(IntExpr::Mod(a, b));
        proof {
            assert forall|asg: Seq<int>| #[trigger] self.ival(r, asg) == (if o.ival(b, asg) == 0 {
                0int
            } else {
                o.ival(a, asg) % o.ival(b, asg)
            }) by {
                lemma_push_int_val(o.ipool(), IntExpr::Mod(a, b), r, asg);
            }
        }
        r
    }

    /// New node: selects `t` when `a > b`, else `e`.
    pub fn mk_ite_gt(&mut self, a: IntId, b: IntId, t: IntId, e: IntId) -> (r: IntId)
        requires
            old(self).wf(),
            (a as int) < old(self).ipool().len(),
            (b as int) < old(self).ipool().len(),
            (t as int) < old(self).ipool().len(),
            (e as int) < old(self).ipool().len(),
        ensures
            final(self).wf(),
            final(self).extends(old(self)),
            (r as int) < final(self).ipool().len(),
            forall|asg: Seq<int>| #[trigger]
                final(self).ival(r, asg) == if old(self).ival(a, asg) > old(self).ival(b, asg) {
                    old(self).ival(t, asg)
                } else {
                    old(self).ival(e, asg)
                },
    {
        let ghost o = *self;
        let r = self.alloc_int(IntExpr::IteGt(a, b, t, e));
        proof {
            assert forall|asg: Seq<int>| #[trigger] self.ival(r, asg) == (if o.ival(a, asg)
                > o.ival(b, asg) {
                o.ival(t, asg)
            } else {
                o.ival(e, asg)
            }) by {
                lemma_push_int_val(o.ipool(), IntExpr::IteGt(a, b, t, e), r, asg);
            }
        }
        r
    }

    /// New assertion node: equality of two integer expressions.
    pub fn mk_eq(&mut self, a: IntId, b: IntId) -> (r: BoolId)
        requires
            old(self).wf(),
            (a as int) < old(self).ipool().len(),
            (b as int) < old(self).ipool().len(),
        ensures
            final(self).wf(),
            final(self).extends(old(self)),
            (r as int) < final(self).bpool().len(),
            forall|asg: Seq<int>| #[trigger]
                final(self).bval(r, asg) == (old(self).ival(a, asg) == old(self).ival(b, asg)),
    {
        let ghost o = *self;
        let r = self.alloc_bool(BoolExpr::Eq(a, b));
        proof {
            assert forall|asg: Seq<int>| #[trigger] self.bval(r, asg) == (o.ival(a, asg) == o.ival(
                b,
                asg,
            )) by {
                lemma_push_bool_val(o.bpool(), o.ipool(), BoolExpr::Eq(a, b), r, asg);
            }
        }
        r
    }

    /// New assertion node: first operand at least the second.
    pub fn mk_ge(&mut self, a: IntId, b: IntId) -> (r: BoolId)
        requires
            old(self).wf(),
            (a as int) < old(self).ipool().len(),
            (b as int) < old(self).ipool().len(),
        ensures
            final(self).wf(),
            final(self).extends(old(self)),
            (r as int) < final(self).bpool().len(),
            forall|asg: Seq<int>| #[trigger]
                final(self).bval(r, asg) == (old(self).ival(a, asg) >= old(self).ival(b, asg)),
    {
        let ghost o = *self;
        let r = self.alloc_bool(BoolExpr::Ge(a, b));
        proof {
            assert forall|asg: Seq<int>| #[trigger] self.bval(r, asg) == (o.ival(a, asg) >= o.ival(
                b,
                asg,
            )) by {
                lemma_push_bool_val(o.bpool(), o.ipool(), BoolExpr::Ge(a, b), r, asg);
            }
        }
        r
    }

    /// New assertion node: first operand strictly greater than the second.
    pub fn mk_gt(&mut self, a: IntId, b: IntId) -> (r: BoolId)
        requires
            old(self).wf(),
            (a as int) < old(self).ipool().len(),
            (b as int) < old(self).ipool().len(),
        ensures
            final(self).wf(),
            final(self).extends(old(self)),
            (r as int) < final(self).bpool().len(),
            forall|asg: Seq<int>| #[trigger]
                final(self).bval(r, asg) == (old(self).ival(a, asg) > old(self).ival(b, asg)),
    {
        let ghost o = *self;
        let r = self.alloc_bool(BoolExpr::Gt(a, b));
        proof {
            assert forall|asg: Seq<int>| #[trigger] self.bval(r, asg) == (o.ival(a, asg) > o.ival(
                b,
                asg,
            )) by {
                lemma_push_bool_val(o.bpool(), o.ipool(), BoolExpr::Gt(a, b), r, asg);
            }
        }
        r
    }

    /// New assertion node: first operand strictly less than the second.
    pub fn mk_lt(&mut self, a: IntId, b: IntId) -> (r: BoolId)
        requires
            old(self).wf(),
            (a as int) < old(self).ipool().len(),
            (b as int) < old(self).ipool().len(),
        ensures
            final(self).wf(),
            final(self).extends(old(self)),
            (r as int) < final(self).bpool().len(),
            forall|asg: Seq<int>| #[trigger]
                final(self).bval(r, asg) == (old(self).ival(a, asg) < old(self).ival(b, asg)),
    {
        let ghost o = *self;
        let r = self.alloc_bool(BoolExpr::Lt(a, b));
        proof {
            assert forall|asg: Seq<int>| #[trigger] self.bval(r, asg) == (o.ival(a, asg) < o.ival(
                b,
                asg,
            )) by {
                lemma_push_bool_val(o.bpool(), o.ipool(), BoolExpr::Lt(a, b), r, asg);
            }
        }
        r
    }

    /// New assertion node: the listed expressions are pairwise different.
    pub fn mk_distinct(&mut self, ids: Vec<IntId>) -> (r: BoolId)
        requires
            old(self).wf(),
            forall|k: int|
                0 <= k < ids@.len() ==> ((#[trigger] ids@[k]) as int) < old(self).ipool().len(),
        ensures
            final(self).wf(),
            final(self).extends(old(self)),
            (r as int) < final(self).bpool().len(),
            forall|asg: Seq<int>| #[trigger]
                final(self).bval(r, asg) == pairwise_distinct(old(self).ivals(ids@, asg)),
    {
        let ghost o = *self;
        let ghost nodeg = BoolExpr::Distinct(ids);
        let r = self.alloc_bool(BoolExpr::Distinct(ids));
        proof {
            assert forall|asg: Seq<int>| #[trigger] self.bval(r, asg) == pairwise_distinct(
                o.ivals(ids@, asg),
            ) by {
                lemma_push_bool_val(o.bpool(), o.ipool(), nodeg, r, asg);
            }
        }
        r
    }

    /// New assertion node: two members of the listed expressions differ by
    /// at least `gap`.
    pub fn mk_pair_gap(&mut self, ids: Vec<IntId>, gap: i64) -> (r: BoolId)
        requires
            old(self).wf(),
            forall|k: int|
                0 <= k < ids@.len() ==> ((#[trigger] ids@[k]) as int) < old(self).ipool().len(),
        ensures
            final(self).wf(),
            final(self).extends(old(self)),
            (r as int) < final(self).bpool().len(),
            forall|asg: Seq<int>| #[trigger]
                final(self).bval(r, asg) == exists_pair_gap(
                    old(self).ivals(ids@, asg),
                    gap as int,
                ),
    {
        let ghost o = *self;
        let ghost nodeg = BoolExpr::ExistsPairGap(ids, gap);
        let r = self.alloc_bool(BoolExpr::ExistsPairGap(ids, gap));
        proof {
            assert forall|asg: Seq<int>| #[trigger] self.bval(r, asg) == exists_pair_gap(
                o.ivals(ids@, asg),
                gap as int,
            ) by {
                lemma_push_bool_val(o.bpool(), o.ipool(), nodeg, r, asg);
            }
        }
        r
    }

    /// New assertion node: negation.
    pub fn mk_not(&mut self, b: BoolId) -> (r: BoolId)
        requires
            old(self).wf(),
            (b as int) < old(self).bpool().len(),
        ensures
            final(self).wf(),
            final(self).extends(old(self)),
            (r as int) < final(self).bpool().len(),
            forall|asg: Seq<int>| #[trigger]
                final(self).bval(r, asg) == !old(self).bval(b, asg),
    {
        let ghost o = *self;
        let r = self.alloc_bool(BoolExpr::Not(b));
        proof {
            assert forall|asg: Seq<int>| #[trigger] self.bval(r, asg) == !o.bval(b, asg) by {
                lemma_push_bool_val(o.bpool(), o.ipool(), BoolExpr::Not(b), r, asg);
            }
        }
        r
    }

    /// New assertion node: disjunction of the listed assertions.
    pub fn mk_or(&mut self, ids: Vec<BoolId>) -> (r: BoolId)
        requires
            old(self).wf(),
            forall|k: int|
                0 <= k < ids@.len() ==> ((#[trigger] ids@[k]) as int) < old(self).bpool().len(),
        ensures
            final(self).wf(),
            final(self).extends(old(self)),
            (r as int) < final(self).bpool().len(),
            forall|asg: Seq<int>| #[trigger]
                final(self).bval(r, asg) == exists|k: int|
                    0 <= k < ids@.len() && old(self).bval(#[trigger] ids@[k], asg),
    {
        let ghost o = *self;
        let ghost nodeg = BoolExpr::Or(ids);
        let r = self.alloc_bool(BoolExpr::Or(ids));
        proof {
            assert forall|asg: Seq<int>| #[trigger] self.bval(r, asg) == (exists|k: int|
                0 <= k < ids@.len() && o.bval(#[trigger] ids@[k], asg)) by {
                lemma_push_bool_val(o.bpool(), o.ipool(), nodeg, r, asg);
            }
        }
        r
    }

    /// New assertion node: conjunction of the listed assertions.
    pub fn mk_and(&mut self, ids: Vec<BoolId>) -> (r: BoolId)
        requires
            old(self).wf(),
            forall|k: int|
                0 <= k < ids@.len() ==> ((#[trigger] ids@[k]) as int) < old(self).bpool().len(),
        ensures
            final(self).wf(),
            final(self).extends(old(self)),
            (r as int) < final(self).bpool().len(),
            forall|asg: Seq<int>| #[trigger]
                final(self).bval(r, asg) == forall|k: int|
                    0 <= k < ids@.len() ==> old(self).bval(#[trigger] ids@[k], asg),
    {
        let ghost o = *self;
        let ghost nodeg = BoolExpr::And(ids);
        let r = self.alloc_bool(BoolExpr::And(ids));
        proof {
            assert forall|asg: Seq<int>| #[trigger] self.bval(r, asg) == (forall|k: int|
                0 <= k < ids@.len() ==> o.bval(#[trigger] ids@[k], asg)) by {
                lemma_push_bool_val(o.bpool(), o.ipool(), nodeg, r, asg);
            }
        }
        r
    }

    /// Allocates one new leaf or inner integer node whose operands already
    /// live in the pool, and proves the session only grew.
    fn alloc_int(&mut self, node: IntExpr) -> (r: IntId)
        requires
            old(self).wf(),
            int_node_wf(node, old(self).ipool().len() as int),
        ensures
            final(self).wf(),
            final(self).extends(old(self)),
            r == old(self).ipool().len(),
            final(self).ipool() == old(self).ipool().push(node),
            final(self).bpool() == old(self).bpool(),
            final(self).const_cache() == old(self).const_cache(),
    {
        let ghost o = *self;
        let r = self.ints.allocate(node);
        proof {
            lemma_grow_ints(o, *self);
        }
        r
    }

    /// Allocates one new boolean node whose operands already live in the
    /// pools, and proves the session only grew.
    fn alloc_bool(&mut self, node: BoolExpr) -> (r: BoolId)
        requires
            old(self).wf(),
            bool_node_wf(node, old(self).bpool().len() as int, old(self).ipool().len() as int),
        ensures
            final(self).wf(),
            final(self).extends(old(self)),
            r == old(self).bpool().len(),
            final(self).bpool() == old(self).bpool().push(node),
            final(self).ipool() == old(self).ipool(),
            final(self).const_cache() == old(self).const_cache(),
    {
        let ghost o = *self;
        let r = self.bools.allocate(node);
        proof {
            lemma_grow_bools(o, *self);
        }
        r
    }
}

/// Growing the integer pool by one well-formed node preserves the session
/// invariant and yields an extension.
proof fn lemma_grow_ints(o: SudokuContext, n: SudokuContext)
    requires
        o.wf(),
        n.ipool().len() == o.ipool().len() + 1,
        forall|j: int| 0 <= j < o.ipool().len() ==> n.ipool()[j] == o.ipool()[j],
        int_node_wf(n.ipool()[o.ipool().len() as int], o.ipool().len() as int),
        n.bpool() == o.bpool(),
        n.cell_ids() == o.cell_ids(),
        n.digit_ids() == o.digit_ids(),
        n.spec_width() == o.spec_width(),
        n.spec_height() == o.spec_height(),
        n.spec_dmin() == o.spec_dmin(),
        n.spec_dmax() == o.spec_dmax(),
        n.rules() == o.rules(),
        n.const_cache() == o.const_cache(),
    ensures
        n.wf(),
        n.extends(&o),
{
    assert(ints_wf(n.ipool()));
    assert(bools_wf(n.bpool(), n.ipool().len() as int));
    assert forall|a: IntId, asg: Seq<int>| (a as int) < o.ipool().len() implies #[trigger] n.ival(
        a,
        asg,
    ) == o.ival(a, asg) by {
        lemma_int_val_prefix(o.ipool(), n.ipool(), a, asg);
    }
    assert forall|b: BoolId, asg: Seq<int>| (b as int) < o.bpool().len() implies #[trigger] n.bval(
        b,
        asg,
    ) == o.bval(b, asg) by {
        lemma_bool_val_prefix(o.bpool(), n.bpool(), o.ipool(), n.ipool(), b, asg);
    }
}

/// Growing the boolean pool by one well-formed node preserves the session
/// invariant and yields an extension.
proof fn lemma_grow_bools(o: SudokuContext, n: SudokuContext)
    requires
        o.wf(),
        n.bpool().len() == o.bpool().len() + 1,
        forall|j: int| 0 <= j < o.bpool().len() ==> n.bpool()[j] == o.bpool()[j],
        bool_node_wf(
            n.bpool()[o.bpool().len() as int],
            o.bpool().len() as int,
            o.ipool().len() as int,
        ),
        n.ipool() == o.ipool(),
        n.cell_ids() == o.cell_ids(),
        n.digit_ids() == o.digit_ids(),
        n.spec_width() == o.spec_width(),
        n.spec_height() == o.spec_height(),
        n.spec_dmin() == o.spec_dmin(),
        n.spec_dmax() == o.spec_dmax(),
        n.rules() == o.rules(),
        n.const_cache() == o.const_cache(),
    ensures
        n.wf(),
        n.extends(&o),
{
    assert(bools_wf(n.bpool(), n.ipool().len() as int));
    assert forall|b: BoolId, asg: Seq<int>| (b as int) < o.bpool().len() implies #[trigger] n.bval(
        b,
        asg,
    ) == o.bval(b, asg) by {
        lemma_bool_val_prefix(o.bpool(), n.bpool(), o.ipool(), n.ipool(), b, asg);
    }
}

/// A session extends itself.
pub proof fn lemma_extends_refl(s: &SudokuContext)
    ensures
        s.extends(s),
{
}

/// Extension of sessions is transitive.
pub proof fn lemma_extends_trans(a: SudokuContext, b: SudokuContext, c: SudokuContext)
    requires
        c.extends(&b),
        b.extends(&a),
    ensures
        c.extends(&a),
{
}

/// The ordered list of assertions a solve attempt has registered so far;
/// it stands in for the external engine's solver while rules compile.
pub struct AssertionList {
    ids: Vec<BoolId>,
}

impl View for AssertionList {
    type V = Seq<BoolId>;

    closed spec fn view(&self) -> Seq<BoolId> {
        self.ids@
    }
}

impl AssertionList {
    /// An empty assertion list.
    pub fn new() -> (r: Self)
        ensures
            r@ == Seq::<BoolId>::empty(),
    {
        AssertionList { ids: Vec::new() }
    }

    /// Registers one boolean node as asserted.
    pub fn assert_id(&mut self, b: BoolId)
        ensures
            final(self)@ == old(self)@.push(b),
    {
        self.ids.push(b);
    }

    /// The number of registered assertions.
    pub fn len(&self) -> (r: usize)
        ensures
            r == self@.len(),
    {
        self.ids.len()
    }

    /// Reads one registered assertion.
    pub fn get(&self, k: usize) -> (r: BoolId)
        requires
            k < self@.len(),
        ensures
            r == self@[k as int],
    {
        self.ids[k]
    }
}

/// All assertions from position `from` on hold under `asg`.
pub open spec fn holds_from(s: &SudokuContext, log: Seq<BoolId>, from: int, asg: Seq<int>)
    -> bool {
    forall|k: int| from <= k < log.len() ==> s.bval(#[trigger] log[k], asg)
}

/// Every assertion of the list is a valid handle of the session.
pub open spec fn log_wf(s: &SudokuContext, log: Seq<BoolId>) -> bool {
    forall|k: int| 0 <= k < log.len() ==> ((#[trigger] log[k]) as int) < s.bpool().len()
}

/// Registering one more assertion conjoins its truth to the rest.
pub proof fn lemma_holds_push(
    s: &SudokuContext,
    log: Seq<BoolId>,
    b: BoolId,
    from: int,
    asg: Seq<int>,
)
    requires
        0 <= from <= log.len(),
    ensures
        holds_from(s, log.push(b), from, asg) == (holds_from(s, log, from, asg) && s.bval(
            b,
            asg,
        )),
{
    let log2 = log.push(b);
    assert(log2[log.len() as int] == b);
    if holds_from(s, log2, from, asg) {
        assert forall|k: int| from <= k < log.len() implies s.bval(#[trigger] log[k], asg) by {
            assert(log2[k] == log[k]);
            assert(s.bval(log2[k], asg));
        }
    }
    if holds_from(s, log, from, asg) && s.bval(b, asg) {
        assert forall|k: int| from <= k < log2.len() implies s.bval(#[trigger] log2[k], asg) by {
            if k < log.len() {
                assert(log2[k] == log[k]);
            }
        }
    }
}

/// Already-registered assertions keep their truth when the session grows.
pub proof fn lemma_holds_extends(
    o: &SudokuContext,
    n: &SudokuContext,
    log: Seq<BoolId>,
    from: int,
    asg: Seq<int>,
)
    requires
        n.extends(o),
        log_wf(o, log),
        0 <= from,
    ensures
        holds_from(n, log, from, asg) == holds_from(o, log, from, asg),
{
    assert forall|k: int| from <= k < log.len() implies n.bval(#[trigger] log[k], asg) == o.bval(
        log[k],
        asg,
    ) by {
        assert((log[k] as int) < o.bpool().len());
    }
}

} // verus!
