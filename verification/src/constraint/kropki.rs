use vstd::prelude::*;

use crate::constraint::{
    cells_in_bounds, clone_cells, ConfigurableConstraint, Constraint, DynClone, Rule,
};
use crate::expr::{lemma_sum_pair, BoolId, IntId};
use crate::sudoku::{
    cell_in_bounds, cell_index, cell_val, full_asg, holds_from, log_wf, AssertionList, Cell,
    SudokuContext,
};

verus! {

#[verifier::external_type_specification]
#[verifier::external_body]
pub struct ExRandomState(ahash::RandomState);

#[verifier::external_type_specification]
#[verifier::external_body]
#[verifier::reject_recursive_types(T)]
#[verifier::reject_recursive_types(S)]
pub struct ExAHashSet<T, S>(ahash::AHashSet<T, S>);

/// The set of claimed-pair keys a dot set holds.
pub uninterp spec fn dot_set_view(s: ahash::AHashSet<u64, ahash::RandomState>) -> Set<u64>;

/// Relies on ahash::AHashSet::new: a freshly created set holds nothing.
#[verifier::external_body]
fn dot_set_new() -> (r: ahash::AHashSet<u64, ahash::RandomState>)
    ensures
        dot_set_view(r) == Set::<u64>::empty(),
{
    ahash::AHashSet::new()
}

/// Relies on std's HashSet::insert (reached through AHashSet): afterwards
/// the set holds the given value on top of what it held.
#[verifier::external_body]
fn dot_set_insert(s: &mut ahash::AHashSet<u64, ahash::RandomState>, v: u64)
    ensures
        dot_set_view(*final(s)) == dot_set_view(*old(s)).insert(v),
{
    s.insert(v);
}

/// Relies on std's HashSet::contains (reached through AHashSet):
/// membership of the given value.
#[verifier::external_body]
fn dot_set_contains(s: &ahash::AHashSet<u64, ahash::RandomState>, v: u64) -> (r: bool)
    ensures
        r == dot_set_view(*s).contains(v),
{
    s.contains(&v)
}

/// The white-dot relation: the two values differ by exactly one.
pub open spec fn white_sem(va: int, vb: int) -> bool {
    va == vb + 1 || vb == va + 1
}

/// The black-dot relation: one value is double the other.
pub open spec fn black_sem(va: int, vb: int) -> bool {
    va == 2 * vb || vb == 2 * va
}

/// Key of an ordered pair of in-bounds cells.
pub open spec fn pair_key(a: Cell, b: Cell) -> u64 {
    (cell_index(a) * 81 + cell_index(b)) as u64
}

/// Key claimed by a dot's two cells, normalised so the earlier cell comes
/// first; diagonal selections claim nothing.
pub open spec fn dot_key_of_cells(cs: Seq<Cell>) -> Option<u64> {
    if cs.len() < 2 {
        Option::None
    } else {
        let a = cs[0];
        let b = cs[1];
        if a.row == b.row && a.col != b.col {
            if a.col < b.col {
                Option::Some(pair_key(a, b))
            } else {
                Option::Some(pair_key(b, a))
            }
        } else if a.col == b.col && a.row != b.row {
            if a.row < b.row {
                Option::Some(pair_key(a, b))
            } else {
                Option::Some(pair_key(b, a))
            }
        } else {
            Option::None
        }
    }
}

/// Key claimed by one sibling rule, if it is a positive dot of the
/// asked colour.
pub open spec fn rule_dot_key(r: Rule, white: bool) -> Option<u64> {
    match r {
        Rule::WhiteKropki(c) => if white {
            dot_key_of_cells(c.cells@)
        } else {
            Option::None
        },
        Rule::BlackKropki(c) => if !white {
            dot_key_of_cells(c.cells@)
        } else {
            Option::None
        },
        _ => Option::None,
    }
}

/// All pair keys claimed by positive dots of one colour among the
/// sibling rules.
pub open spec fn dot_keys(rules: Seq<Rule>, white: bool) -> Set<u64>
    decreases rules.len(),
{
    if rules.len() == 0 {
        Set::empty()
    } else {
        match rule_dot_key(rules.last(), white) {
            Option::Some(k) => dot_keys(rules.drop_last(), white).insert(k),
            Option::None => dot_keys(rules.drop_last(), white),
        }
    }
}

/// A rule list in which nothing claims a dot pair of the asked colour
/// claims no keys of it.
pub proof fn lemma_dot_keys_none(rules: Seq<Rule>, white: bool)
    requires
        forall|i: int| 0 <= i < rules.len() ==> rule_dot_key(#[trigger] rules[i], white) is None,
    ensures
        dot_keys(rules, white) == Set::<u64>::empty(),
    decreases rules.len(),
{
    if rules.len() > 0 {
        lemma_dot_keys_none(rules.drop_last(), white);
        assert(rule_dot_key(rules.last(), white) is None);
    }
}

/// Every positive dot among the siblings claims exactly two in-bounds
/// cells, as the validation pass guarantees before compilation starts.
pub open spec fn dot_siblings_wf(rules: Seq<Rule>) -> bool {
    forall|i: int|
        0 <= i < rules.len() ==> match #[trigger] rules[i] {
            Rule::WhiteKropki(c) => c.cells@.len() == 2 && cell_in_bounds(c.cells@[0])
                && cell_in_bounds(c.cells@[1]),
            Rule::BlackKropki(c) => c.cells@.len() == 2 && cell_in_bounds(c.cells@[0])
                && cell_in_bounds(c.cells@[1]),
            _ => true,
        }
}

/// The negative condition for the horizontal adjacent pair number `t`.
pub open spec fn neg_h_at(rules: Seq<Rule>, asg: Seq<int>, white: bool, t: int) -> bool {
    let a = Cell { row: (t / 8) as usize, col: (t % 8) as usize };
    let b = Cell { row: (t / 8) as usize, col: (t % 8 + 1) as usize };
    !dot_keys(rules, white).contains(pair_key(a, b)) ==> !(if white {
        white_sem(cell_val(asg, a), cell_val(asg, b))
    } else {
        black_sem(cell_val(asg, a), cell_val(asg, b))
    })
}

/// The negative condition for the vertical adjacent pair number `t`.
pub open spec fn neg_v_at(rules: Seq<Rule>, asg: Seq<int>, white: bool, t: int) -> bool {
    let a = Cell { row: (t / 9) as usize, col: (t % 9) as usize };
    let b = Cell { row: (t / 9 + 1) as usize, col: (t % 9) as usize };
    !dot_keys(rules, white).contains(pair_key(a, b)) ==> !(if white {
        white_sem(cell_val(asg, a), cell_val(asg, b))
    } else {
        black_sem(cell_val(asg, a), cell_val(asg, b))
    })
}

/// Meaning of a negative dot rule: the relation fails on every
/// grid-adjacent pair not claimed by a positive dot of the same colour.
pub open spec fn neg_sem(rules: Seq<Rule>, asg: Seq<int>, white: bool) -> bool {
    (forall|t: int| 0 <= t < 72 ==> #[trigger] neg_h_at(rules, asg, white, t)) && (forall|t: int|
        0 <= t < 72 ==> #[trigger] neg_v_at(rules, asg, white, t))
}

/// With a single positive white dot claiming the adjacent pair in the
/// top-left corner, the negative white rule negates the relation on
/// every other grid-adjacent pair and places no condition at all on the
/// claimed pair.
pub proof fn lemma_negative_spares_claimed_pair(rules: Seq<Rule>, asg: Seq<int>)
    requires
        rules.len() == 1,
        rules[0] is WhiteKropki,
        rules[0]->WhiteKropki_0.cells@ == seq![
            Cell { row: 0, col: 0 },
            Cell { row: 0, col: 1 },
        ],
    ensures
        dot_keys(rules, true) == Set::<u64>::empty().insert(
            pair_key(Cell { row: 0, col: 0 }, Cell { row: 0, col: 1 }),
        ),
        neg_h_at(rules, asg, true, 0),
        forall|t: int|
            1 <= t < 72 ==> (#[trigger] neg_h_at(rules, asg, true, t) == !white_sem(
                cell_val(asg, Cell { row: (t / 8) as usize, col: (t % 8) as usize }),
                cell_val(asg, Cell { row: (t / 8) as usize, col: (t % 8 + 1) as usize }),
            )),
        forall|t: int|
            0 <= t < 72 ==> (#[trigger] neg_v_at(rules, asg, true, t) == !white_sem(
                cell_val(asg, Cell { row: (t / 9) as usize, col: (t % 9) as usize }),
                cell_val(asg, Cell { row: (t / 9 + 1) as usize, col: (t % 9) as usize }),
            )),
{
    let a0 = Cell { row: 0, col: 0 };
    let b0 = Cell { row: 0, col: 1 };
    let key0 = pair_key(a0, b0);
    assert(rules.drop_last() =~= Seq::<Rule>::empty());
    assert(rule_dot_key(rules[0], true) == Option::Some(key0));
    lemma_dot_keys_none(rules.drop_last(), true);
    assert(dot_keys(rules, true) =~= Set::<u64>::empty().insert(key0));
    assert(key0 == 1);
    assert(dot_keys(rules, true).contains(pair_key(a0, b0)));
    assert forall|t: int| 1 <= t < 72 implies (#[trigger] neg_h_at(rules, asg, true, t)
        == !white_sem(
        cell_val(asg, Cell { row: (t / 8) as usize, col: (t % 8) as usize }),
        cell_val(asg, Cell { row: (t / 8) as usize, col: (t % 8 + 1) as usize }),
    )) by {
        let a = Cell { row: (t / 8) as usize, col: (t % 8) as usize };
        let b = Cell { row: (t / 8) as usize, col: (t % 8 + 1) as usize };
        assert(cell_index(a) == t % 8 + 9 * (t / 8));
        if cell_index(a) == 0 {
            assert(t % 8 == 0 && t / 8 == 0);
            assert(t == 8 * (t / 8) + t % 8);
        }
        assert(pair_key(a, b) != key0);
        assert(!dot_keys(rules, true).contains(pair_key(a, b)));
    }
    assert forall|t: int| 0 <= t < 72 implies (#[trigger] neg_v_at(rules, asg, true, t)
        == !white_sem(
        cell_val(asg, Cell { row: (t / 9) as usize, col: (t % 9) as usize }),
        cell_val(asg, Cell { row: (t / 9 + 1) as usize, col: (t % 9) as usize }),
    )) by {
        let a = Cell { row: (t / 9) as usize, col: (t % 9) as usize };
        let b = Cell { row: (t / 9 + 1) as usize, col: (t % 9) as usize };
        assert(cell_index(b) == cell_index(a) + 9);
        assert(pair_key(a, b) != key0);
        assert(!dot_keys(rules, true).contains(pair_key(a, b)));
    }
}

/// A white dot claims nothing for the negative rule of the other
/// colour: with a single positive white dot among the siblings, the
/// negative black rule negates the black relation on every grid-adjacent
/// pair, the white dot's own pair included.
pub proof fn lemma_negative_other_colour_blind(rules: Seq<Rule>, asg: Seq<int>)
    requires
        rules.len() == 1,
        rules[0] is WhiteKropki,
    ensures
        dot_keys(rules, false) == Set::<u64>::empty(),
        forall|t: int|
            0 <= t < 72 ==> (#[trigger] neg_h_at(rules, asg, false, t) == !black_sem(
                cell_val(asg, Cell { row: (t / 8) as usize, col: (t % 8) as usize }),
                cell_val(asg, Cell { row: (t / 8) as usize, col: (t % 8 + 1) as usize }),
            )),
        forall|t: int|
            0 <= t < 72 ==> (#[trigger] neg_v_at(rules, asg, false, t) == !black_sem(
                cell_val(asg, Cell { row: (t / 9) as usize, col: (t % 9) as usize }),
                cell_val(asg, Cell { row: (t / 9 + 1) as usize, col: (t % 9) as usize }),
            )),
{
    assert forall|i: int| 0 <= i < rules.len() implies rule_dot_key(
        #[trigger] rules[i],
        false,
    ) is None by {
        assert(rules[i] == rules[0]);
    }
    lemma_dot_keys_none(rules, false);
}

/// Builds (without asserting) the white-dot relation between two cells,
/// as a disjunction of the two off-by-one equalities.
fn white_rel(context: &mut SudokuContext, a: Cell, b: Cell) -> (r: BoolId)
    requires
        old(context).wf(),
        cell_in_bounds(a),
        cell_in_bounds(b),
    ensures
        final(context).wf(),
        final(context).extends(old(context)),
        (r as int) < final(context).bpool().len(),
        forall|asg: Seq<int>|
            full_asg(asg) ==> (#[trigger] final(context).bval(r, asg) <==> white_sem(
                cell_val(asg, a),
                cell_val(asg, b),
            )),
{
    let ida = context.get_cell(a.row, a.col);
    let idb = context.get_cell(b.row, b.col);
    let ghost c0 = *context;
    let one = context.const_int(1);
    let ghost c1 = *context;
    let mut args1: Vec<IntId> = Vec::new();
    args1.push(idb);
    args1.push(one);
    let ghost args1q = args1@;
    let s1 = context.mk_add(args1);
    let ghost c2 = *context;
    let e1 = context.mk_eq(ida, s1);
    let ghost c3 = *context;
    let mut args2: Vec<IntId> = Vec::new();
    args2.push(ida);
    args2.push(one);
    let ghost args2q = args2@;
    let s2 = context.mk_add(args2);
    let ghost c4 = *context;
    let e2 = context.mk_eq(idb, s2);
    let ghost c5 = *context;
    let mut orargs: Vec<BoolId> = Vec::new();
    orargs.push(e1);
    orargs.push(e2);
    let ghost orq = orargs@;
    let r = context.mk_or(orargs);
    proof {
        crate::constraint::parity::lemma_chain(c0, c1, c2, c3, c4, c5);
        crate::sudoku::lemma_extends_trans(c4, c5, *context);
        crate::sudoku::lemma_extends_trans(c3, c4, *context);
        crate::sudoku::lemma_extends_trans(c2, c3, *context);
        crate::sudoku::lemma_extends_trans(c1, c2, *context);
        crate::sudoku::lemma_extends_trans(c0, c1, *context);
        assert forall|asg: Seq<int>| full_asg(asg) implies (#[trigger] context.bval(r, asg)
            <==> white_sem(cell_val(asg, a), cell_val(asg, b))) by {
            let va = cell_val(asg, a);
            let vb = cell_val(asg, b);
            assert(c1.ival(one, asg) == 1);
            assert(c2.ival(s1, asg) == crate::expr::sum_of(c1.ivals(args1q, asg)));
            lemma_sum_pair(c1.ivals(args1q, asg));
            assert(c1.ivals(args1q, asg)[0] == c1.ival(idb, asg));
            assert(c1.ivals(args1q, asg)[1] == c1.ival(one, asg));
            assert(c2.ival(s1, asg) == vb + 1);
            assert(c3.bval(e1, asg) == (c2.ival(ida, asg) == c2.ival(s1, asg)));
            assert(c4.ival(s2, asg) == crate::expr::sum_of(c3.ivals(args2q, asg)));
            lemma_sum_pair(c3.ivals(args2q, asg));
            assert(c3.ivals(args2q, asg)[0] == c3.ival(ida, asg));
            assert(c3.ivals(args2q, asg)[1] == c3.ival(one, asg));
            assert(c3.ival(one, asg) == c1.ival(one, asg));
            assert(c4.ival(s2, asg) == va + 1);
            assert(c5.bval(e2, asg) == (c4.ival(idb, asg) == c4.ival(s2, asg)));
            assert(context.bval(r, asg) == (exists|k: int|
                0 <= k < orq.len() && c5.bval(#[trigger] orq[k], asg)));
            assert(c5.bval(e1, asg) == c3.bval(e1, asg));
            if context.bval(r, asg) {
                let k = choose|k: int| 0 <= k < orq.len() && c5.bval(#[trigger] orq[k], asg);
                assert(k == 0 || k == 1);
            }
            if va == vb + 1 {
                assert(c5.bval(orq[0], asg));
            } else if vb == va + 1 {
                assert(c5.bval(orq[1], asg));
            }
        }
    }
    r
}

/// Builds (without asserting) the black-dot relation between two cells,
/// as a disjunction of the two doubling equalities.
fn black_rel(context: &mut SudokuContext, a: Cell, b: Cell) -> (r: BoolId)
    requires
        old(context).wf(),
        cell_in_bounds(a),
        cell_in_bounds(b),
    ensures
        final(context).wf(),
        final(context).extends(old(context)),
        (r as int) < final(context).bpool().len(),
        forall|asg: Seq<int>|
            full_asg(asg) ==> (#[trigger] final(context).bval(r, asg) <==> black_sem(
                cell_val(asg, a),
                cell_val(asg, b),
            )),
{
    let ida = context.get_cell(a.row, a.col);
    let idb = context.get_cell(b.row, b.col);
    let ghost c0 = *context;
    let two = context.const_int(2);
    let ghost c1 = *context;
    let m1 = context.mk_mul(idb, two);
    let ghost c2 = *context;
    let e1 = context.mk_eq(ida, m1);
    let ghost c3 = *context;
    let m2 = context.mk_mul(ida, two);
    let ghost c4 = *context;
    let e2 = context.mk_eq(idb, m2);
    let ghost c5 = *context;
    let mut orargs: Vec<BoolId> = Vec::new();
    orargs.push(e1);
    orargs.push(e2);
    let ghost orq = orargs@;
    let r = context.mk_or(orargs);
    proof {
        crate::constraint::parity::lemma_chain(c0, c1, c2, c3, c4, c5);
        crate::sudoku::lemma_extends_trans(c4, c5, *context);
        crate::sudoku::lemma_extends_trans(c3, c4, *context);
        crate::sudoku::lemma_extends_trans(c2, c3, *context);
        crate::sudoku::lemma_extends_trans(c1, c2, *context);
        crate::sudoku::lemma_extends_trans(c0, c1, *context);
        assert forall|asg: Seq<int>| full_asg(asg) implies (#[trigger] context.bval(r, asg)
            <==> black_sem(cell_val(asg, a), cell_val(asg, b))) by {
            let va = cell_val(asg, a);
            let vb = cell_val(asg, b);
            assert(c1.ival(two, asg) == 2);
            assert(c2.ival(m1, asg) == c1.ival(idb, asg) * c1.ival(two, asg));
            assert(c3.bval(e1, asg) == (c2.ival(ida, asg) == c2.ival(m1, asg)));
            assert(c4.ival(m2, asg) == c3.ival(ida, asg) * c3.ival(two, asg));
            assert(c3.ival(two, asg) == c1.ival(two, asg));
            assert(c5.bval(e2, asg) == (c4.ival(idb, asg) == c4.ival(m2, asg)));
            assert(context.bval(r, asg) == (exists|k: int|
                0 <= k < orq.len() && c5.bval(#[trigger] orq[k], asg)));
            assert(c5.bval(e1, asg) == c3.bval(e1, asg));
            if context.bval(r, asg) {
                let k = choose|k: int| 0 <= k < orq.len() && c5.bval(#[trigger] orq[k], asg);
                assert(k == 0 || k == 1);
            }
            if va == 2 * vb {
                assert(c5.bval(orq[0], asg));
            } else if vb == 2 * va {
                assert(c5.bval(orq[1], asg));
            }
        }
    }
    r
}

/// Scans the sibling rules and collects the pair key of every positive
/// dot of the asked colour, over the set of grid-adjacent claimed pairs.
fn find_kropki_dots(context: &SudokuContext, white: bool) -> (s: ahash::AHashSet<
    u64,
    ahash::RandomState,
>)
    requires
        context.wf(),
        dot_siblings_wf(context.rules()),
    ensures
        dot_set_view(s) == dot_keys(context.rules(), white),
{
    let mut s = dot_set_new();
    let rules = context.constraints();
    let n = rules.len();
    let mut i: usize = 0;
    while i < n
        invariant
            n == rules@.len(),
            rules@ == context.rules(),
            dot_siblings_wf(context.rules()),
            i <= n,
            dot_set_view(s) == dot_keys(rules@.take(i as int), white),
        decreases n - i,
    {
        let ghost pre = rules@.take(i as int);
        let ghost cur = rules@.take(i as int + 1);
        proof {
            assert(cur.drop_last() =~= pre);
            assert(cur.last() == rules@[i as int]);
        }
        match &rules[i] {
            Rule::WhiteKropki(c) => {
                if white {
                    insert_dot_key(&mut s, &c.cells);
                }
                proof {
                    if white {
                        assert(rule_dot_key(rules@[i as int], white) == dot_key_of_cells(
                            c.cells@,
                        ));
                    } else {
                        assert(rule_dot_key(rules@[i as int], white) is None);
                    }
                }
            },
            Rule::BlackKropki(c) => {
                if !white {
                    insert_dot_key(&mut s, &c.cells);
                }
                proof {
                    if !white {
                        assert(rule_dot_key(rules@[i as int], white) == dot_key_of_cells(
                            c.cells@,
                        ));
                    } else {
                        assert(rule_dot_key(rules@[i as int], white) is None);
                    }
                }
            },
            _ => {
                proof {
                    assert(rule_dot_key(rules@[i as int], white) is None);
                }
            },
        }
        i += 1;
    }
    proof {
        assert(rules@.take(n as int) =~= rules@);
    }
    s
}

/// Inserts the key of one positive dot's claimed pair, if it claims a
/// grid-adjacent pair.
fn insert_dot_key(s: &mut ahash::AHashSet<u64, ahash::RandomState>, cs: &Vec<Cell>)
    requires
        cs@.len() == 2,
        cell_in_bounds(cs@[0]),
        cell_in_bounds(cs@[1]),
    ensures
        dot_set_view(*final(s)) == match dot_key_of_cells(cs@) {
            Option::Some(k) => dot_set_view(*old(s)).insert(k),
            Option::None => dot_set_view(*old(s)),
        },
{
    let a = cs[0];
    let b = cs[1];
    if a.row == b.row && a.col != b.col {
        if a.col < b.col {
            dot_set_insert(s, ((a.col + 9 * a.row) * 81 + (b.col + 9 * b.row)) as u64);
        } else {
            dot_set_insert(s, ((b.col + 9 * b.row) * 81 + (a.col + 9 * a.row)) as u64);
        }
    } else if a.col == b.col && a.row != b.row {
        if a.row < b.row {
            dot_set_insert(s, ((a.col + 9 * a.row) * 81 + (b.col + 9 * b.row)) as u64);
        } else {
            dot_set_insert(s, ((b.col + 9 * b.row) * 81 + (a.col + 9 * a.row)) as u64);
        }
    }
}

/// Compiles a negative dot rule: for every grid-adjacent pair not claimed
/// by a positive dot of the same colour, assert the relation's negation.
fn negative_constraint(
    solver: &mut AssertionList,
    context: &mut SudokuContext,
    white: bool,
)
    requires
        old(context).wf(),
        log_wf(old(context), old(solver)@),
        dot_siblings_wf(old(context).rules()),
    ensures
        final(context).wf(),
        final(context).extends(old(context)),
        log_wf(final(context), final(solver)@),
        final(solver)@.len() >= old(solver)@.len(),
        forall|k: int| 0 <= k < old(solver)@.len() ==> final(solver)@[k] == old(solver)@[k],
        forall|asg: Seq<int>|
            full_asg(asg) ==> (holds_from(
                final(context),
                final(solver)@,
                old(solver)@.len() as int,
                asg,
            ) <==> neg_sem(old(context).rules(), asg, white)),
{
    let ghost base = solver@.len() as int;
    let ghost rules = old(context).rules();
    let dots = find_kropki_dots(context, white);
    let mut t: usize = 0;
    while t < 72
        invariant
            context.wf(),
            log_wf(context, solver@),
            context.extends(old(context)),
            context.rules() == rules,
            dot_set_view(dots) == dot_keys(rules, white),
            t <= 72,
            base == old(solver)@.len() as int,
            solver@.len() >= base,
            forall|k: int| 0 <= k < base ==> solver@[k] == old(solver)@[k],
            forall|asg: Seq<int>|
                full_asg(asg) ==> (holds_from(context, solver@, base, asg) <==> (forall|tt: int|
                    0 <= tt < t as int ==> #[trigger] neg_h_at(rules, asg, white, tt))),
        decreases 72 - t,
    {
        let r = t / 8;
        let c = t % 8;
        let a = Cell::new(r, c);
        let b = Cell::new(r, c + 1);
        let key = ((a.col + 9 * a.row) * 81 + (b.col + 9 * b.row)) as u64;
        proof {
            assert(key == pair_key(a, b));
        }
        let claimed = dot_set_contains(&dots, key);
        let ghost cpre = *context;
        let ghost lpre = solver@;
        if !claimed {
            let rel = if white {
                white_rel(context, a, b)
            } else {
                black_rel(context, a, b)
            };
            let ghost cm = *context;
            let nb = context.mk_not(rel);
            solver.assert_id(nb);
            proof {
                crate::sudoku::lemma_extends_trans(cpre, cm, *context);
            }
        }
        proof {
            crate::sudoku::lemma_extends_trans(*old(context), cpre, *context);
            assert forall|asg: Seq<int>| full_asg(asg) implies (holds_from(
                context,
                solver@,
                base,
                asg,
            ) <==> (forall|tt: int|
                0 <= tt < t as int + 1 ==> #[trigger] neg_h_at(rules, asg, white, tt))) by {
                crate::sudoku::lemma_holds_extends(&cpre, context, lpre, base, asg);
                if !claimed {
                    crate::sudoku::lemma_holds_push(context, lpre, solver@.last(), base, asg);
                    assert(solver@ =~= lpre.push(solver@.last()));
                } else {
                    assert(solver@ =~= lpre);
                }
                if holds_from(context, solver@, base, asg) {
                    assert forall|tt: int| 0 <= tt < t as int + 1 implies #[trigger] neg_h_at(
                        rules,
                        asg,
                        white,
                        tt,
                    ) by {
                        if tt == t as int {
                            if !claimed {
                                assert(context.bval(solver@.last(), asg));
                            }
                        }
                    }
                }
                if (forall|tt: int|
                    0 <= tt < t as int + 1 ==> #[trigger] neg_h_at(rules, asg, white, tt)) {
                    assert(neg_h_at(rules, asg, white, t as int));
                }
            }
        }
        t += 1;
    }
    let ghost lh = solver@;
    let mut t2: usize = 0;
    while t2 < 72
        invariant
            context.wf(),
            log_wf(context, solver@),
            context.extends(old(context)),
            context.rules() == rules,
            dot_set_view(dots) == dot_keys(rules, white),
            t2 <= 72,
            base == old(solver)@.len() as int,
            lh.len() >= base,
            solver@.len() >= lh.len(),
            forall|k: int| 0 <= k < base ==> solver@[k] == old(solver)@[k],
            forall|k: int| 0 <= k < lh.len() ==> solver@[k] == lh[k],
            forall|asg: Seq<int>|
                full_asg(asg) ==> (holds_from(context, solver@, lh.len() as int, asg) <==> (
                forall|tt: int| 0 <= tt < t2 as int ==> #[trigger] neg_v_at(
                    rules,
                    asg,
                    white,
                    tt,
                ))),
            forall|asg: Seq<int>|
                full_asg(asg) ==> (holds_from(context, lh, base, asg) <==> (forall|tt: int|
                    0 <= tt < 72 ==> #[trigger] neg_h_at(rules, asg, white, tt))),
        decreases 72 - t2,
    {
        let r = t2 / 9;
        let c = t2 % 9;
        let a = Cell::new(r, c);
        let b = Cell::new(r + 1, c);
        let key = ((a.col + 9 * a.row) * 81 + (b.col + 9 * b.row)) as u64;
        proof {
            assert(key == pair_key(a, b));
        }
        let claimed = dot_set_contains(&dots, key);
        let ghost cpre = *context;
        let ghost lpre = solver@;
        if !claimed {
            let rel = if white {
                white_rel(context, a, b)
            } else {
                black_rel(context, a, b)
            };
            let ghost cm = *context;
            let nb = context.mk_not(rel);
            solver.assert_id(nb);
            proof {
                crate::sudoku::lemma_extends_trans(cpre, cm, *context);
            }
        }
        proof {
            crate::sudoku::lemma_extends_trans(*old(context), cpre, *context);
            assert forall|asg: Seq<int>| full_asg(asg) implies (holds_from(
                context,
                solver@,
                lh.len() as int,
                asg,
            ) <==> (forall|tt: int|
                0 <= tt < t2 as int + 1 ==> #[trigger] neg_v_at(rules, asg, white, tt))) by {
                crate::sudoku::lemma_holds_extends(&cpre, context, lpre, lh.len() as int, asg);
                if !claimed {
                    crate::sudoku::lemma_holds_push(
                        context,
                        lpre,
                        solver@.last(),
                        lh.len() as int,
                        asg,
                    );
                    assert(solver@ =~= lpre.push(solver@.last()));
                } else {
                    assert(solver@ =~= lpre);
                }
                if holds_from(context, solver@, lh.len() as int, asg) {
                    assert forall|tt: int| 0 <= tt < t2 as int + 1 implies #[trigger] neg_v_at(
                        rules,
                        asg,
                        white,
                        tt,
                    ) by {
                        if tt == t2 as int {
                            if !claimed {
                                assert(context.bval(solver@.last(), asg));
                            }
                        }
                    }
                }
                if (forall|tt: int|
                    0 <= tt < t2 as int + 1 ==> #[trigger] neg_v_at(rules, asg, white, tt)) {
                    assert(neg_v_at(rules, asg, white, t2 as int));
                }
            }
            assert forall|asg: Seq<int>| full_asg(asg) implies (holds_from(
                context,
                lh,
                base,
                asg,
            ) <==> (forall|tt: int|
                0 <= tt < 72 ==> #[trigger] neg_h_at(rules, asg, white, tt))) by {
                crate::sudoku::lemma_holds_extends(&cpre, context, lh, base, asg);
            }
        }
        t2 += 1;
    }
    proof {
        assert forall|asg: Seq<int>| full_asg(asg) implies (holds_from(
            context,
            solver@,
            base,
            asg,
        ) <==> neg_sem(rules, asg, white)) by {
            crate::constraint::anti_knight::lemma_holds_split(
                context,
                solver@,
                base,
                lh.len() as int,
                asg,
            );
            assert(solver@.take(lh.len() as int) =~= lh);
        }
    }
}

/// A white Kropki dot: the two claimed cells' values differ by one.
pub struct WhiteKropkiConstraint {
    pub cells: Vec<Cell>,
}

impl Default for WhiteKropkiConstraint {
    /// A dot with no cells claimed yet.
    fn default() -> (r: Self)
        ensures
            r.cells@.len() == 0,
    {
        WhiteKropkiConstraint { cells: Vec::new() }
    }
}

impl Constraint for WhiteKropkiConstraint {
    open spec fn rule_wf(&self) -> bool {
        cells_in_bounds(self.cells@) && self.cells@.len() == 2
    }

    open spec fn siblings_wf(&self, rules: Seq<Rule>) -> bool {
        true
    }

    open spec fn sem(&self, rules: Seq<Rule>, asg: Seq<int>) -> bool {
        white_sem(cell_val(asg, self.cells@[0]), cell_val(asg, self.cells@[1]))
    }

    fn apply(&self, solver: &mut AssertionList, context: &mut SudokuContext) {
        let ghost base = solver@.len() as int;
        let b = white_rel(context, self.cells[0], self.cells[1]);
        solver.assert_id(b);
        proof {
            assert forall|asg: Seq<int>| full_asg(asg) implies (holds_from(
                context,
                solver@,
                base,
                asg,
            ) <==> self.sem(old(context).rules(), asg)) by {
                crate::sudoku::lemma_holds_push(context, old(solver)@, b, base, asg);
                assert(solver@ =~= old(solver)@.push(b));
                assert(holds_from(context, old(solver)@, base, asg));
            }
        }
    }
}

impl DynClone for WhiteKropkiConstraint {
    open spec fn cloned_from(&self, r: &Self) -> bool {
        r.cells@ == self.cells@
    }

    fn dyn_clone(&self) -> (r: Self) {
        WhiteKropkiConstraint { cells: clone_cells(&self.cells) }
    }
}

impl ConfigurableConstraint for WhiteKropkiConstraint {
    open spec fn spec_valid(&self) -> bool {
        self.cells@.len() == 2
    }

    open spec fn spec_cells(&self) -> Option<Seq<Cell>> {
        Option::Some(self.cells@)
    }

    open spec fn spec_max_cells(&self) -> usize {
        2
    }

    fn is_valid(&self) -> (r: bool) {
        self.cells.len() == 2
    }

    fn get_highlighted_cells(&self) -> (r: Option<&Vec<Cell>>) {
        Some(&self.cells)
    }

    fn push_highlighted_cell(&mut self, c: Cell) {
        self.cells.push(c);
    }

    fn get_max_highlighted_cells(&self) -> (r: usize) {
        2
    }

    open spec fn spec_name(&self) -> Seq<char> {
        "White Kropki Dot"@
    }

    fn name(&self) -> (r: &'static str) {
        "White Kropki Dot"
    }
}

/// A black Kropki dot: one claimed cell's value is double the other's.
pub struct BlackKropkiConstraint {
    pub cells: Vec<Cell>,
}

impl Default for BlackKropkiConstraint {
    /// A dot with no cells claimed yet.
    fn default() -> (r: Self)
        ensures
            r.cells@.len() == 0,
    {
        BlackKropkiConstraint { cells: Vec::new() }
    }
}

impl Constraint for BlackKropkiConstraint {
    open spec fn rule_wf(&self) -> bool {
        cells_in_bounds(self.cells@) && self.cells@.len() == 2
    }

    open spec fn siblings_wf(&self, rules: Seq<Rule>) -> bool {
        true
    }

    open spec fn sem(&self, rules: Seq<Rule>, asg: Seq<int>) -> bool {
        black_sem(cell_val(asg, self.cells@[0]), cell_val(asg, self.cells@[1]))
    }

    fn apply(&self, solver: &mut AssertionList, context: &mut SudokuContext) {
        let ghost base = solver@.len() as int;
        let b = black_rel(context, self.cells[0], self.cells[1]);
        solver.assert_id(b);
        proof {
            assert forall|asg: Seq<int>| full_asg(asg) implies (holds_from(
                context,
                solver@,
                base,
                asg,
            ) <==> self.sem(old(context).rules(), asg)) by {
                crate::sudoku::lemma_holds_push(context, old(solver)@, b, base, asg);
                assert(solver@ =~= old(solver)@.push(b));
                assert(holds_from(context, old(solver)@, base, asg));
            }
        }
    }
}

impl DynClone for BlackKropkiConstraint {
    open spec fn cloned_from(&self, r: &Self) -> bool {
        r.cells@ == self.cells@
    }

    fn dyn_clone(&self) -> (r: Self) {
        BlackKropkiConstraint { cells: clone_cells(&self.cells) }
    }
}

impl ConfigurableConstraint for BlackKropkiConstraint {
    open spec fn spec_valid(&self) -> bool {
        self.cells@.len() == 2
    }

    open spec fn spec_cells(&self) -> Option<Seq<Cell>> {
        Option::Some(self.cells@)
    }

    open spec fn spec_max_cells(&self) -> usize {
        2
    }

    fn is_valid(&self) -> (r: bool) {
        self.cells.len() == 2
    }

    fn get_highlighted_cells(&self) -> (r: Option<&Vec<Cell>>) {
        Some(&self.cells)
    }

    fn push_highlighted_cell(&mut self, c: Cell) {
        self.cells.push(c);
    }

    fn get_max_highlighted_cells(&self) -> (r: usize) {
        2
    }

    open spec fn spec_name(&self) -> Seq<char> {
        "Black Kropki Dot"@
    }

    fn name(&self) -> (r: &'static str) {
        "Black Kropki Dot"
    }
}

/// The negative white-dot rule: every grid-adjacent pair not claimed by
/// a positive white dot must not satisfy the white relation.
pub struct NegativeWhiteKropkiConstraint;

impl Constraint for NegativeWhiteKropkiConstraint {
    open spec fn rule_wf(&self) -> bool {
        true
    }

    open spec fn siblings_wf(&self, rules: Seq<Rule>) -> bool {
        dot_siblings_wf(rules)
    }

    open spec fn sem(&self, rules: Seq<Rule>, asg: Seq<int>) -> bool {
        neg_sem(rules, asg, true)
    }

    fn apply(&self, solver: &mut AssertionList, context: &mut SudokuContext) {
        negative_constraint(solver, context, true);
    }
}

impl DynClone for NegativeWhiteKropkiConstraint {
    open spec fn cloned_from(&self, r: &Self) -> bool {
        true
    }

    fn dyn_clone(&self) -> (r: Self) {
        NegativeWhiteKropkiConstraint
    }
}

impl ConfigurableConstraint for NegativeWhiteKropkiConstraint {
    open spec fn spec_valid(&self) -> bool {
        true
    }

    open spec fn spec_cells(&self) -> Option<Seq<Cell>> {
        Option::None
    }

    open spec fn spec_max_cells(&self) -> usize {
        usize::MAX
    }

    fn is_valid(&self) -> (r: bool) {
        true
    }

    fn get_highlighted_cells(&self) -> (r: Option<&Vec<Cell>>) {
        None
    }

    fn push_highlighted_cell(&mut self, c: Cell) {
    }

    fn get_max_highlighted_cells(&self) -> (r: usize) {
        usize::MAX
    }

    open spec fn spec_name(&self) -> Seq<char> {
        "White Kropki Dots (Negative Constraint)"@
    }

    fn name(&self) -> (r: &'static str) {
        "White Kropki Dots (Negative Constraint)"
    }
}

/// The negative black-dot rule: every grid-adjacent pair not claimed by
/// a positive black dot must not satisfy the black relation.
pub struct NegativeBlackKropkiConstraint;

impl Constraint for NegativeBlackKropkiConstraint {
    open spec fn rule_wf(&self) -> bool {
        true
    }

    open spec fn siblings_wf(&self, rules: Seq<Rule>) -> bool {
        dot_siblings_wf(rules)
    }

    open spec fn sem(&self, rules: Seq<Rule>, asg: Seq<int>) -> bool {
        neg_sem(rules, asg, false)
    }

    fn apply(&self, solver: &mut AssertionList, context: &mut SudokuContext) {
        negative_constraint(solver, context, false);
    }
}

impl DynClone for NegativeBlackKropkiConstraint {
    open spec fn cloned_from(&self, r: &Self) -> bool {
        true
    }

    fn dyn_clone(&self) -> (r: Self) {
        NegativeBlackKropkiConstraint
    }
}

impl ConfigurableConstraint for NegativeBlackKropkiConstraint {
    open spec fn spec_valid(&self) -> bool {
        true
    }

    open spec fn spec_cells(&self) -> Option<Seq<Cell>> {
        Option::None
    }

    open spec fn spec_max_cells(&self) -> usize {
        usize::MAX
    }

    fn is_valid(&self) -> (r: bool) {
        true
    }

    fn get_highlighted_cells(&self) -> (r: Option<&Vec<Cell>>) {
        None
    }

    fn push_highlighted_cell(&mut self, c: Cell) {
    }

    fn get_max_highlighted_cells(&self) -> (r: usize) {
        usize::MAX
    }

    open spec fn spec_name(&self) -> Seq<char> {
        "Black Kropki Dots (Negative Constraint)"@
    }

    fn name(&self) -> (r: &'static str) {
        "Black Kropki Dots (Negative Constraint)"
    }
}

} // verus!
