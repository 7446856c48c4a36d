use vstd::prelude::*;

use crate::constraint::{ConfigurableConstraint, Constraint, DynClone, Rule};
use crate::expr::{
    lemma_bool_val_unfold, lemma_int_val_unfold, BoolExpr, BoolId, IntExpr, IntId,
};
use crate::sudoku::{holds_from, log_wf, AssertionList, SudokuContext};

verus! {

/// Verdict of one solve attempt.
pub enum SolveResult {
    Solved,
    Unsolvable,
    TimedOut,
    InvalidInput,
}

impl SolveResult {
    /// The message shown for the verdict.
    pub fn message(&self) -> (r: &'static str)
        ensures
            match self {
                SolveResult::Solved => r@ == ""@,
                SolveResult::Unsolvable => r@ == "Unsolvable"@,
                SolveResult::TimedOut => r@ == "Solver timed out"@,
                SolveResult::InvalidInput => r@ == "Invalid input"@,
            },
    {
        match self {
            SolveResult::Solved => "",
            SolveResult::Unsolvable => "Unsolvable",
            SolveResult::TimedOut => "Solver timed out",
            SolveResult::InvalidInput => "Invalid input",
        }
    }
}

/// What the external engine reported for one check: a model's cell
/// values, a definitive no, or no answer within the budget.
pub enum EngineVerdict {
    Sat(Vec<i64>),
    Unsat,
    Unknown,
}

/// A sequence of engine values as mathematical integers.
pub open spec fn vals_int(values: Seq<i64>) -> Seq<int> {
    Seq::new(values.len(), |k: int| values[k] as int)
}

/// A decoded digit grid as mathematical integers.
pub open spec fn asg_of(sol: Seq<i32>) -> Seq<int> {
    Seq::new(sol.len(), |k: int| sol[k] as int)
}

/// Spec mirror of the model evaluation of one integer node: exactly the
/// value the deterministic evaluator computes, or nothing where it gives
/// up (a machine-range overflow, or a division outside the nonnegative
/// ranges it accepts).
pub open spec fn spec_eval_int(ints: Seq<IntExpr>, a: IntId, values: Seq<i64>) -> Option<i64>
    decreases a, 1int, 0int,
{
    if (a as int) < ints.len() {
        match ints[a as int] {
            IntExpr::Const(c) => Option::Some(c),
            IntExpr::Var(v) => if v < 81 && (v as int) < values.len() {
                Option::Some(values[v as int])
            } else {
                Option::Some(0i64)
            },
            IntExpr::Add(args) => spec_eval_add(ints, args@, values, a as int),
            IntExpr::Sub(x, y) => opt_i64_sub(
                spec_eval_at(ints, x, values, a as int),
                spec_eval_at(ints, y, values, a as int),
            ),
            IntExpr::Mul(x, y) => opt_i64_mul(
                spec_eval_at(ints, x, values, a as int),
                spec_eval_at(ints, y, values, a as int),
            ),
            IntExpr::Neg(x) => opt_i64_sub(
                Option::Some(0i64),
                spec_eval_at(ints, x, values, a as int),
            ),
            IntExpr::Div(x, y) => opt_eu_div(
                spec_eval_at(ints, x, values, a as int),
                spec_eval_at(ints, y, values, a as int),
            ),
            IntExpr::Mod(x, y) => opt_eu_mod(
                spec_eval_at(ints, x, values, a as int),
                spec_eval_at(ints, y, values, a as int),
            ),
            IntExpr::IteGt(x, y, t, e) => {
                let vx = spec_eval_at(ints, x, values, a as int);
                let vy = spec_eval_at(ints, y, values, a as int);
                let vt = spec_eval_at(ints, t, values, a as int);
                let ve = spec_eval_at(ints, e, values, a as int);
                if vx is None || vy is None || vt is None || ve is None {
                    Option::None
                } else if vx.unwrap() > vy.unwrap() {
                    vt
                } else {
                    ve
                }
            },
        }
    } else {
        Option::None
    }
}

/// Mirror evaluation of an integer node known to lie below `bound`.
pub open spec fn spec_eval_at(ints: Seq<IntExpr>, a: IntId, values: Seq<i64>, bound: int)
    -> Option<i64>
    decreases bound, 0int, 0int,
{
    if (a as int) < bound {
        spec_eval_int(ints, a, values)
    } else {
        Option::None
    }
}

/// Mirror of the running machine sum over a list of operands, in the
/// order the evaluator takes them.
pub open spec fn spec_eval_add(ints: Seq<IntExpr>, args: Seq<IntId>, values: Seq<i64>, bound: int)
    -> Option<i64>
    decreases bound, 0int, args.len(),
{
    if args.len() == 0 {
        Option::Some(0i64)
    } else {
        opt_i64_add(
            spec_eval_add(ints, args.drop_last(), values, bound),
            spec_eval_at(ints, args.last(), values, bound),
        )
    }
}

/// Machine addition of two optional values: the exact sum when it fits
/// in the machine range, nothing otherwise.
pub open spec fn opt_i64_add(a: Option<i64>, b: Option<i64>) -> Option<i64> {
    if a is None || b is None {
        Option::None
    } else if i64::MIN <= a.unwrap() + b.unwrap() <= i64::MAX {
        Option::Some((a.unwrap() + b.unwrap()) as i64)
    } else {
        Option::None
    }
}

/// Machine subtraction of two optional values, under the same policy.
pub open spec fn opt_i64_sub(a: Option<i64>, b: Option<i64>) -> Option<i64> {
    if a is None || b is None {
        Option::None
    } else if i64::MIN <= a.unwrap() - b.unwrap() <= i64::MAX {
        Option::Some((a.unwrap() - b.unwrap()) as i64)
    } else {
        Option::None
    }
}

/// Machine multiplication of two optional values, under the same policy.
pub open spec fn opt_i64_mul(a: Option<i64>, b: Option<i64>) -> Option<i64> {
    if a is None || b is None {
        Option::None
    } else if i64::MIN <= a.unwrap() * b.unwrap() <= i64::MAX {
        Option::Some((a.unwrap() * b.unwrap()) as i64)
    } else {
        Option::None
    }
}

/// The Euclidean quotient the evaluator accepts: only a nonnegative
/// dividend and a positive divisor.
pub open spec fn opt_eu_div(a: Option<i64>, b: Option<i64>) -> Option<i64> {
    if a is None || b is None || a.unwrap() < 0 || b.unwrap() <= 0 {
        Option::None
    } else {
        Option::Some((a.unwrap() as int / b.unwrap() as int) as i64)
    }
}

/// The Euclidean remainder the evaluator accepts, under the same policy.
pub open spec fn opt_eu_mod(a: Option<i64>, b: Option<i64>) -> Option<i64> {
    if a is None || b is None || a.unwrap() < 0 || b.unwrap() <= 0 {
        Option::None
    } else {
        Option::Some((a.unwrap() as int % b.unwrap() as int) as i64)
    }
}

/// Mirror evaluation of a list of integer nodes: their exact values, or
/// nothing as soon as one of them gives up.
pub open spec fn spec_eval_args(ints: Seq<IntExpr>, args: Seq<IntId>, values: Seq<i64>)
    -> Option<Seq<i64>>
    decreases args.len(),
{
    if args.len() == 0 {
        Option::Some(Seq::empty())
    } else {
        let rest = spec_eval_args(ints, args.drop_last(), values);
        let lastv = spec_ival_opt(ints, args.last(), values);
        if rest is None || lastv is None {
            Option::None
        } else {
            Option::Some(rest.unwrap().push(lastv.unwrap()))
        }
    }
}

/// Mirror evaluation of any valid integer node handle.
pub open spec fn spec_ival_opt(ints: Seq<IntExpr>, a: IntId, values: Seq<i64>) -> Option<i64> {
    spec_eval_at(ints, a, values, ints.len() as int)
}

/// The listed machine values, as mathematical integers.
pub open spec fn ints_of(vs: Seq<i64>) -> Seq<int> {
    Seq::new(vs.len(), |k: int| vs[k] as int)
}

/// Spec mirror of the model evaluation of one boolean node.
pub open spec fn spec_eval_bool(
    bools: Seq<BoolExpr>,
    ints: Seq<IntExpr>,
    b: BoolId,
    values: Seq<i64>,
) -> Option<bool>
    decreases b, 1int, 0int,
{
    if (b as int) < bools.len() {
        match bools[b as int] {
            BoolExpr::Eq(x, y) => opt_cmp_eq(
                spec_ival_opt(ints, x, values),
                spec_ival_opt(ints, y, values),
            ),
            BoolExpr::Ge(x, y) => opt_cmp_ge(
                spec_ival_opt(ints, x, values),
                spec_ival_opt(ints, y, values),
            ),
            BoolExpr::Gt(x, y) => opt_cmp_gt(
                spec_ival_opt(ints, x, values),
                spec_ival_opt(ints, y, values),
            ),
            BoolExpr::Lt(x, y) => opt_cmp_lt(
                spec_ival_opt(ints, x, values),
                spec_ival_opt(ints, y, values),
            ),
            BoolExpr::Distinct(args) => match spec_eval_args(ints, args@, values) {
                Option::Some(vs) => Option::Some(crate::expr::pairwise_distinct(ints_of(vs))),
                Option::None => Option::None,
            },
            BoolExpr::Or(args) => spec_eval_or(bools, ints, args@, values, b as int),
            BoolExpr::And(args) => spec_eval_and(bools, ints, args@, values, b as int),
            BoolExpr::Not(x) => match spec_eval_bool_at(bools, ints, x, values, b as int) {
                Option::Some(v) => Option::Some(!v),
                Option::None => Option::None,
            },
            BoolExpr::ExistsPairGap(args, gap) => match spec_eval_args(ints, args@, values) {
                Option::Some(vs) => Option::Some(
                    crate::expr::exists_pair_gap(ints_of(vs), gap as int),
                ),
                Option::None => Option::None,
            },
        }
    } else {
        Option::None
    }
}

/// Mirror evaluation of a boolean node known to lie below `bound`.
pub open spec fn spec_eval_bool_at(
    bools: Seq<BoolExpr>,
    ints: Seq<IntExpr>,
    b: BoolId,
    values: Seq<i64>,
    bound: int,
) -> Option<bool>
    decreases bound, 0int, 0int,
{
    if (b as int) < bound {
        spec_eval_bool(bools, ints, b, values)
    } else {
        Option::None
    }
}

/// Mirror of the running disjunction over a list of operands.
pub open spec fn spec_eval_or(
    bools: Seq<BoolExpr>,
    ints: Seq<IntExpr>,
    args: Seq<BoolId>,
    values: Seq<i64>,
    bound: int,
) -> Option<bool>
    decreases bound, 0int, args.len(),
{
    if args.len() == 0 {
        Option::Some(false)
    } else {
        let rest = spec_eval_or(bools, ints, args.drop_last(), values, bound);
        let lastv = spec_eval_bool_at(bools, ints, args.last(), values, bound);
        if rest is None || lastv is None {
            Option::None
        } else {
            Option::Some(rest.unwrap() || lastv.unwrap())
        }
    }
}

/// Mirror of the running conjunction over a list of operands.
pub open spec fn spec_eval_and(
    bools: Seq<BoolExpr>,
    ints: Seq<IntExpr>,
    args: Seq<BoolId>,
    values: Seq<i64>,
    bound: int,
) -> Option<bool>
    decreases bound, 0int, args.len(),
{
    if args.len() == 0 {
        Option::Some(true)
    } else {
        let rest = spec_eval_and(bools, ints, args.drop_last(), values, bound);
        let lastv = spec_eval_bool_at(bools, ints, args.last(), values, bound);
        if rest is None || lastv is None {
            Option::None
        } else {
            Option::Some(rest.unwrap() && lastv.unwrap())
        }
    }
}

/// Optional equality of two optional values.
pub open spec fn opt_cmp_eq(a: Option<i64>, b: Option<i64>) -> Option<bool> {
    if a is None || b is None {
        Option::None
    } else {
        Option::Some(a.unwrap() == b.unwrap())
    }
}

/// Optional at-least comparison of two optional values.
pub open spec fn opt_cmp_ge(a: Option<i64>, b: Option<i64>) -> Option<bool> {
    if a is None || b is None {
        Option::None
    } else {
        Option::Some(a.unwrap() >= b.unwrap())
    }
}

/// Optional strictly-greater comparison of two optional values.
pub open spec fn opt_cmp_gt(a: Option<i64>, b: Option<i64>) -> Option<bool> {
    if a is None || b is None {
        Option::None
    } else {
        Option::Some(a.unwrap() > b.unwrap())
    }
}

/// Optional strictly-less comparison of two optional values.
pub open spec fn opt_cmp_lt(a: Option<i64>, b: Option<i64>) -> Option<bool> {
    if a is None || b is None {
        Option::None
    } else {
        Option::Some(a.unwrap() < b.unwrap())
    }
}

/// A fold that has already given up stays given up when the list grows.
proof fn lemma_add_none_sticks(
    ints: Seq<IntExpr>,
    args: Seq<IntId>,
    values: Seq<i64>,
    bound: int,
    m: int,
)
    requires
        0 <= m <= args.len(),
        spec_eval_add(ints, args.take(m), values, bound) is None,
    ensures
        spec_eval_add(ints, args, values, bound) is None,
    decreases args.len() - m,
{
    if m == args.len() {
        assert(args.take(m) =~= args);
    } else {
        assert(args.take(m + 1).drop_last() =~= args.take(m));
        lemma_add_none_sticks(ints, args, values, bound, m + 1);
    }
}

/// The same, for the evaluation of a list of integer nodes.
proof fn lemma_args_none_sticks(ints: Seq<IntExpr>, args: Seq<IntId>, values: Seq<i64>, m: int)
    requires
        0 <= m <= args.len(),
        spec_eval_args(ints, args.take(m), values) is None,
    ensures
        spec_eval_args(ints, args, values) is None,
    decreases args.len() - m,
{
    if m == args.len() {
        assert(args.take(m) =~= args);
    } else {
        assert(args.take(m + 1).drop_last() =~= args.take(m));
        lemma_args_none_sticks(ints, args, values, m + 1);
    }
}

/// The same, for the running disjunction.
proof fn lemma_or_none_sticks(
    bools: Seq<BoolExpr>,
    ints: Seq<IntExpr>,
    args: Seq<BoolId>,
    values: Seq<i64>,
    bound: int,
    m: int,
)
    requires
        0 <= m <= args.len(),
        spec_eval_or(bools, ints, args.take(m), values, bound) is None,
    ensures
        spec_eval_or(bools, ints, args, values, bound) is None,
    decreases args.len() - m,
{
    if m == args.len() {
        assert(args.take(m) =~= args);
    } else {
        assert(args.take(m + 1).drop_last() =~= args.take(m));
        lemma_or_none_sticks(bools, ints, args, values, bound, m + 1);
    }
}

/// The same, for the running conjunction.
proof fn lemma_and_none_sticks(
    bools: Seq<BoolExpr>,
    ints: Seq<IntExpr>,
    args: Seq<BoolId>,
    values: Seq<i64>,
    bound: int,
    m: int,
)
    requires
        0 <= m <= args.len(),
        spec_eval_and(bools, ints, args.take(m), values, bound) is None,
    ensures
        spec_eval_and(bools, ints, args, values, bound) is None,
    decreases args.len() - m,
{
    if m == args.len() {
        assert(args.take(m) =~= args);
    } else {
        assert(args.take(m + 1).drop_last() =~= args.take(m));
        lemma_and_none_sticks(bools, ints, args, values, bound, m + 1);
    }
}

/// A guarded mirror evaluation below its bound is the plain one.
proof fn lemma_at_unfold(ints: Seq<IntExpr>, x: IntId, values: Seq<i64>, bound: int)
    requires
        (x as int) < bound,
    ensures
        spec_eval_at(ints, x, values, bound) == spec_eval_int(ints, x, values),
{
}

/// A guarded boolean mirror evaluation below its bound is the plain one.
proof fn lemma_bool_at_unfold(
    bools: Seq<BoolExpr>,
    ints: Seq<IntExpr>,
    x: BoolId,
    values: Seq<i64>,
    bound: int,
)
    requires
        (x as int) < bound,
    ensures
        spec_eval_bool_at(bools, ints, x, values, bound) == spec_eval_bool(bools, ints, x, values),
{
}

/// Euclidean quotient for the value ranges the evaluator meets; gives up
/// (conservatively) outside them.
fn eu_div(a: i64, b: i64) -> (r: Option<i64>)
    ensures
        r == opt_eu_div(Option::Some(a), Option::Some(b)),
        r is Some ==> b != 0 && r.unwrap() as int == a as int / b as int,
{
    if a < 0 || b <= 0 {
        None
    } else {
        let q = ((a as u64) / (b as u64)) as i64;
        proof {
            assert((a as u64) / (b as u64) <= (a as u64)) by (nonlinear_arith)
                requires
                    (b as u64) >= 1,
            ;
        }
        Some(q)
    }
}

/// Euclidean remainder under the same policy as `eu_div`.
fn eu_mod(a: i64, b: i64) -> (r: Option<i64>)
    ensures
        r == opt_eu_mod(Option::Some(a), Option::Some(b)),
        r is Some ==> b != 0 && r.unwrap() as int == a as int % b as int,
{
    if a < 0 || b <= 0 {
        None
    } else {
        let q = ((a as u64) % (b as u64)) as i64;
        Some(q)
    }
}

/// Evaluates one integer node under concrete cell values; a result is
/// exact, and evaluation gives up rather than overflow.
fn eval_int_node(context: &SudokuContext, a: IntId, values: &Vec<i64>) -> (r: Option<i64>)
    requires
        context.wf(),
        (a as int) < context.ipool().len(),
        values@.len() == 81,
    ensures
        r == spec_eval_int(context.ipool(), a, values@),
        r is Some ==> r.unwrap() as int == context.ival(a, vals_int(values@)),
    decreases a,
{
    let ghost asg = vals_int(values@);
    proof {
        lemma_int_val_unfold(context.ipool(), a, asg);
        assert(crate::expr::int_node_wf(context.ipool()[a as int], a as int));
    }
    let node = context.ints().get(a);
    match node {
        IntExpr::Const(c) => Some(*c),
        IntExpr::Var(v) => {
            if *v < 81 {
                Some(values[*v])
            } else {
                Some(0)
            }
        },
        IntExpr::Add(args) => {
            let mut acc: i64 = 0;
            let n = args.len();
            let mut k: usize = 0;
            proof {
                assert(args@.take(0) =~= Seq::<IntId>::empty());
            }
            while k < n
                invariant
                    context.wf(),
                    (a as int) < context.ipool().len(),
                    values@.len() == 81,
                    asg == vals_int(values@),
                    context.ipool()[a as int] == IntExpr::Add(*args),
                    n == args@.len(),
                    k <= n,
                    forall|j: int|
                        0 <= j < args@.len() ==> ((#[trigger] args@[j]) as int) < a as int,
                    acc as int == crate::expr::sum_of(
                        crate::expr::int_vals(context.ipool(), args@, asg).take(k as int),
                    ),
                    spec_eval_add(context.ipool(), args@.take(k as int), values@, a as int)
                        == Option::Some(acc),
                decreases n - k,
            {
                proof {
                    lemma_at_unfold(context.ipool(), args@[k as int], values@, a as int);
                    assert(args@.take(k as int + 1).drop_last() =~= args@.take(k as int));
                    assert(args@.take(k as int + 1).last() == args@[k as int]);
                }
                let sub = match eval_int_node(context, args[k], values) {
                    Some(v) => v,
                    None => {
                        proof {
                            lemma_add_none_sticks(
                                context.ipool(),
                                args@,
                                values@,
                                a as int,
                                k as int + 1,
                            );
                        }
                        return None;
                    },
                };
                let next = match acc.checked_add(sub) {
                    Some(v) => v,
                    None => {
                        proof {
                            lemma_add_none_sticks(
                                context.ipool(),
                                args@,
                                values@,
                                a as int,
                                k as int + 1,
                            );
                        }
                        return None;
                    },
                };
                proof {
                    let vs = crate::expr::int_vals(context.ipool(), args@, asg);
                    assert(vs.take(k as int + 1).drop_last() =~= vs.take(k as int));
                    assert(vs.take(k as int + 1).last() == vs[k as int]);
                    assert(vs[k as int] == context.ival(args@[k as int], asg));
                }
                acc = next;
                k += 1;
            }
            proof {
                let vs = crate::expr::int_vals(context.ipool(), args@, asg);
                assert(vs.take(n as int) =~= vs);
                assert(args@.take(n as int) =~= args@);
            }
            Some(acc)
        },
        IntExpr::Sub(x, y) => {
            proof {
                lemma_at_unfold(context.ipool(), *x, values@, a as int);
                lemma_at_unfold(context.ipool(), *y, values@, a as int);
            }
            let vx = match eval_int_node(context, *x, values) {
                Some(v) => v,
                None => {
                    return None;
                },
            };
            let vy = match eval_int_node(context, *y, values) {
                Some(v) => v,
                None => {
                    return None;
                },
            };
            vx.checked_sub(vy)
        },
        IntExpr::Mul(x, y) => {
            proof {
                lemma_at_unfold(context.ipool(), *x, values@, a as int);
                lemma_at_unfold(context.ipool(), *y, values@, a as int);
            }
            let vx = match eval_int_node(context, *x, values) {
                Some(v) => v,
                None => {
                    return None;
                },
            };
            let vy = match eval_int_node(context, *y, values) {
                Some(v) => v,
                None => {
                    return None;
                },
            };
            vx.checked_mul(vy)
        },
        IntExpr::Neg(x) => {
            proof {
                lemma_at_unfold(context.ipool(), *x, values@, a as int);
            }
            let vx = match eval_int_node(context, *x, values) {
                Some(v) => v,
                None => {
                    return None;
                },
            };
            0i64.checked_sub(vx)
        },
        IntExpr::Div(x, y) => {
            proof {
                lemma_at_unfold(context.ipool(), *x, values@, a as int);
                lemma_at_unfold(context.ipool(), *y, values@, a as int);
            }
            let vx = match eval_int_node(context, *x, values) {
                Some(v) => v,
                None => {
                    return None;
                },
            };
            let vy = match eval_int_node(context, *y, values) {
                Some(v) => v,
                None => {
                    return None;
                },
            };
            eu_div(vx, vy)
        },
        IntExpr::Mod(x, y) => {
            proof {
                lemma_at_unfold(context.ipool(), *x, values@, a as int);
                lemma_at_unfold(context.ipool(), *y, values@, a as int);
            }
            let vx = match eval_int_node(context, *x, values) {
                Some(v) => v,
                None => {
                    return None;
                },
            };
            let vy = match eval_int_node(context, *y, values) {
                Some(v) => v,
                None => {
                    return None;
                },
            };
            eu_mod(vx, vy)
        },
        IntExpr::IteGt(x, y, t, e) => {
            proof {
                lemma_at_unfold(context.ipool(), *x, values@, a as int);
                lemma_at_unfold(context.ipool(), *y, values@, a as int);
                lemma_at_unfold(context.ipool(), *t, values@, a as int);
                lemma_at_unfold(context.ipool(), *e, values@, a as int);
            }
            let vx = match eval_int_node(context, *x, values) {
                Some(v) => v,
                None => {
                    return None;
                },
            };
            let vy = match eval_int_node(context, *y, values) {
                Some(v) => v,
                None => {
                    return None;
                },
            };
            let vt = match eval_int_node(context, *t, values) {
                Some(v) => v,
                None => {
                    return None;
                },
            };
            let ve = match eval_int_node(context, *e, values) {
                Some(v) => v,
                None => {
                    return None;
                },
            };
            if vx > vy {
                Some(vt)
            } else {
                Some(ve)
            }
        },
    }
}

/// Evaluates a list of integer nodes; a result holds their exact values.
fn eval_int_args(context: &SudokuContext, args: &Vec<IntId>, values: &Vec<i64>) -> (r: Option<
    Vec<i64>,
>)
    requires
        context.wf(),
        forall|j: int| 0 <= j < args@.len() ==> ((#[trigger] args@[j]) as int)
            < context.ipool().len(),
        values@.len() == 81,
    ensures
        match r {
            Option::Some(v) => spec_eval_args(context.ipool(), args@, values@) == Option::Some(
                v@,
            ),
            Option::None => spec_eval_args(context.ipool(), args@, values@) is None,
        },
        r is Some ==> {
            let vs = r.unwrap()@;
            &&& vs.len() == args@.len()
            &&& forall|j: int|
                0 <= j < vs.len() ==> (#[trigger] vs[j]) as int == context.ival(
                    args@[j],
                    vals_int(values@),
                )
        },
{
    let mut out: Vec<i64> = Vec::new();
    let n = args.len();
    let mut k: usize = 0;
    proof {
        assert(args@.take(0) =~= Seq::<IntId>::empty());
        assert(spec_eval_args(context.ipool(), args@.take(0), values@) =~= Option::Some(out@));
    }
    while k < n
        invariant
            context.wf(),
            values@.len() == 81,
            n == args@.len(),
            k <= n,
            forall|j: int| 0 <= j < args@.len() ==> ((#[trigger] args@[j]) as int)
                < context.ipool().len(),
            out@.len() == k as int,
            forall|j: int|
                0 <= j < k as int ==> (#[trigger] out@[j]) as int == context.ival(
                    args@[j],
                    vals_int(values@),
                ),
            spec_eval_args(context.ipool(), args@.take(k as int), values@) == Option::Some(out@),
        decreases n - k,
    {
        proof {
            lemma_at_unfold(
                context.ipool(),
                args@[k as int],
                values@,
                context.ipool().len() as int,
            );
            assert(args@.take(k as int + 1).drop_last() =~= args@.take(k as int));
            assert(args@.take(k as int + 1).last() == args@[k as int]);
        }
        match eval_int_node(context, args[k], values) {
            Some(v) => {
                out.push(v);
            },
            None => {
                proof {
                    lemma_args_none_sticks(context.ipool(), args@, values@, k as int + 1);
                }
                return None;
            },
        }
        k += 1;
    }
    proof {
        assert(args@.take(n as int) =~= args@);
    }
    Some(out)
}

/// Evaluates one boolean node under concrete cell values; a result is
/// exact, and evaluation gives up rather than overflow.
fn eval_bool_node(context: &SudokuContext, b: BoolId, values: &Vec<i64>) -> (r: Option<bool>)
    requires
        context.wf(),
        (b as int) < context.bpool().len(),
        values@.len() == 81,
    ensures
        r == spec_eval_bool(context.bpool(), context.ipool(), b, values@),
        r is Some ==> r.unwrap() == context.bval(b, vals_int(values@)),
    decreases b,
{
    let ghost asg = vals_int(values@);
    proof {
        lemma_bool_val_unfold(context.bpool(), context.ipool(), b, asg);
        assert(crate::expr::bool_node_wf(
            context.bpool()[b as int],
            b as int,
            context.ipool().len() as int,
        ));
    }
    let node = context.bools().get(b);
    match node {
        BoolExpr::Eq(x, y) => {
            proof {
                lemma_at_unfold(context.ipool(), *x, values@, context.ipool().len() as int);
                lemma_at_unfold(context.ipool(), *y, values@, context.ipool().len() as int);
            }
            let vx = match eval_int_node(context, *x, values) {
                Some(v) => v,
                None => {
                    return None;
                },
            };
            let vy = match eval_int_node(context, *y, values) {
                Some(v) => v,
                None => {
                    return None;
                },
            };
            Some(vx == vy)
        },
        BoolExpr::Ge(x, y) => {
            proof {
                lemma_at_unfold(context.ipool(), *x, values@, context.ipool().len() as int);
                lemma_at_unfold(context.ipool(), *y, values@, context.ipool().len() as int);
            }
            let vx = match eval_int_node(context, *x, values) {
                Some(v) => v,
                None => {
                    return None;
                },
            };
            let vy = match eval_int_node(context, *y, values) {
                Some(v) => v,
                None => {
                    return None;
                },
            };
            Some(vx >= vy)
        },
        BoolExpr::Gt(x, y) => {
            proof {
                lemma_at_unfold(context.ipool(), *x, values@, context.ipool().len() as int);
                lemma_at_unfold(context.ipool(), *y, values@, context.ipool().len() as int);
            }
            let vx = match eval_int_node(context, *x, values) {
                Some(v) => v,
                None => {
                    return None;
                },
            };
            let vy = match eval_int_node(context, *y, values) {
                Some(v) => v,
                None => {
                    return None;
                },
            };
            Some(vx > vy)
        },
        BoolExpr::Lt(x, y) => {
            proof {
                lemma_at_unfold(context.ipool(), *x, values@, context.ipool().len() as int);
                lemma_at_unfold(context.ipool(), *y, values@, context.ipool().len() as int);
            }
            let vx = match eval_int_node(context, *x, values) {
                Some(v) => v,
                None => {
                    return None;
                },
            };
            let vy = match eval_int_node(context, *y, values) {
                Some(v) => v,
                None => {
                    return None;
                },
            };
            Some(vx < vy)
        },
        BoolExpr::Distinct(args) => {
            let vs = match eval_int_args(context, args, values) {
                Some(v) => v,
                None => {
                    return None;
                },
            };
            let ghost specvals = crate::expr::int_vals(context.ipool(), args@, asg);
            proof {
                assert forall|j: int| 0 <= j < vs@.len() implies (#[trigger] vs@[j]) as int
                    == specvals[j] by {}
                assert(ints_of(vs@) =~= specvals);
            }
            let n = vs.len();
            let mut p: usize = 0;
            while p < n
                invariant
                    n == vs@.len(),
                    n == specvals.len(),
                    p <= n,
                    context.bval(b, vals_int(values@)) == crate::expr::pairwise_distinct(
                        specvals,
                    ),
                    spec_eval_bool(context.bpool(), context.ipool(), b, values@) == Option::Some(
                        crate::expr::pairwise_distinct(specvals),
                    ),
                    forall|j: int| 0 <= j < vs@.len() ==> (#[trigger] vs@[j]) as int
                        == specvals[j],
                    forall|p2: int, q2: int|
                        0 <= p2 < p as int && p2 < q2 < n as int ==> specvals[p2] != specvals[q2],
                decreases n - p,
            {
                let mut q: usize = p + 1;
                while q < n
                    invariant
                        n == vs@.len(),
                        n == specvals.len(),
                        p < n,
                        p < q,
                        q <= n,
                        context.bval(b, vals_int(values@)) == crate::expr::pairwise_distinct(
                            specvals,
                        ),
                        spec_eval_bool(context.bpool(), context.ipool(), b, values@)
                            == Option::Some(crate::expr::pairwise_distinct(specvals)),
                        forall|j: int| 0 <= j < vs@.len() ==> (#[trigger] vs@[j]) as int
                            == specvals[j],
                        forall|q2: int| (p as int) < q2 < q as int ==> specvals[p as int]
                            != specvals[q2],
                    decreases n - q,
                {
                    if vs[p] == vs[q] {
                        proof {
                            assert(vs@[p as int] as int == specvals[p as int]);
                            assert(vs@[q as int] as int == specvals[q as int]);
                            assert(specvals[p as int] == specvals[q as int]);
                            assert(!crate::expr::pairwise_distinct(specvals));
                        }
                        return Some(false);
                    }
                    q += 1;
                }
                p += 1;
            }
            Some(true)
        },
        BoolExpr::Or(args) => {
            let mut acc = false;
            let n = args.len();
            let mut k: usize = 0;
            proof {
                assert(args@.take(0) =~= Seq::<crate::expr::BoolId>::empty());
            }
            while k < n
                invariant
                    context.wf(),
                    values@.len() == 81,
                    asg == vals_int(values@),
                    (b as int) < context.bpool().len(),
                    context.bpool()[b as int] == BoolExpr::Or(*args),
                    n == args@.len(),
                    k <= n,
                    forall|j: int|
                        0 <= j < args@.len() ==> ((#[trigger] args@[j]) as int) < b as int,
                    acc == exists|j: int|
                        0 <= j < k as int && context.bval(#[trigger] args@[j], asg),
                    spec_eval_or(
                        context.bpool(),
                        context.ipool(),
                        args@.take(k as int),
                        values@,
                        b as int,
                    ) == Option::Some(acc),
                decreases n - k,
            {
                proof {
                    lemma_bool_at_unfold(
                        context.bpool(),
                        context.ipool(),
                        args@[k as int],
                        values@,
                        b as int,
                    );
                    assert(args@.take(k as int + 1).drop_last() =~= args@.take(k as int));
                    assert(args@.take(k as int + 1).last() == args@[k as int]);
                }
                let sub = match eval_bool_node(context, args[k], values) {
                    Some(v) => v,
                    None => {
                        proof {
                            lemma_or_none_sticks(
                                context.bpool(),
                                context.ipool(),
                                args@,
                                values@,
                                b as int,
                                k as int + 1,
                            );
                        }
                        return None;
                    },
                };
                acc = acc || sub;
                k += 1;
            }
            proof {
                assert(args@.take(n as int) =~= args@);
            }
            Some(acc)
        },
        BoolExpr::And(args) => {
            let mut acc = true;
            let n = args.len();
            let mut k: usize = 0;
            proof {
                assert(args@.take(0) =~= Seq::<crate::expr::BoolId>::empty());
            }
            while k < n
                invariant
                    context.wf(),
                    values@.len() == 81,
                    asg == vals_int(values@),
                    (b as int) < context.bpool().len(),
                    context.bpool()[b as int] == BoolExpr::And(*args),
                    n == args@.len(),
                    k <= n,
                    forall|j: int|
                        0 <= j < args@.len() ==> ((#[trigger] args@[j]) as int) < b as int,
                    acc == forall|j: int|
                        0 <= j < k as int ==> context.bval(#[trigger] args@[j], asg),
                    spec_eval_and(
                        context.bpool(),
                        context.ipool(),
                        args@.take(k as int),
                        values@,
                        b as int,
                    ) == Option::Some(acc),
                decreases n - k,
            {
                proof {
                    lemma_bool_at_unfold(
                        context.bpool(),
                        context.ipool(),
                        args@[k as int],
                        values@,
                        b as int,
                    );
                    assert(args@.take(k as int + 1).drop_last() =~= args@.take(k as int));
                    assert(args@.take(k as int + 1).last() == args@[k as int]);
                }
                let sub = match eval_bool_node(context, args[k], values) {
                    Some(v) => v,
                    None => {
                        proof {
                            lemma_and_none_sticks(
                                context.bpool(),
                                context.ipool(),
                                args@,
                                values@,
                                b as int,
                                k as int + 1,
                            );
                        }
                        return None;
                    },
                };
                acc = acc && sub;
                k += 1;
            }
            proof {
                assert(args@.take(n as int) =~= args@);
            }
            Some(acc)
        },
        BoolExpr::Not(x) => {
            proof {
                lemma_bool_at_unfold(context.bpool(), context.ipool(), *x, values@, b as int);
            }
            match eval_bool_node(context, *x, values) {
                Some(v) => Some(!v),
                None => None,
            }
        },
        BoolExpr::ExistsPairGap(args, gap) => {
            let vs = match eval_int_args(context, args, values) {
                Some(v) => v,
                None => {
                    return None;
                },
            };
            let ghost specvals = crate::expr::int_vals(context.ipool(), args@, asg);
            proof {
                assert forall|j: int| 0 <= j < vs@.len() implies (#[trigger] vs@[j]) as int
                    == specvals[j] by {}
                assert(ints_of(vs@) =~= specvals);
            }
            let n = vs.len();
            if n == 0 {
                return Some(false);
            }
            let mut mn: i64 = vs[0];
            let mut mx: i64 = vs[0];
            let ghost mut mni: int = 0;
            let ghost mut mxi: int = 0;
            let mut k: usize = 1;
            while k < n
                invariant
                    n == vs@.len(),
                    n == specvals.len(),
                    1 <= k <= n,
                    forall|j: int| 0 <= j < vs@.len() ==> (#[trigger] vs@[j]) as int
                        == specvals[j],
                    0 <= mni < k as int,
                    0 <= mxi < k as int,
                    mn == vs@[mni],
                    mx == vs@[mxi],
                    forall|j: int| 0 <= j < k as int ==> mn as int <= (#[trigger] vs@[j]) as int
                        <= mx as int,
                decreases n - k,
            {
                let v = vs[k];
                if v < mn {
                    mn = v;
                    proof {
                        mni = k as int;
                    }
                }
                if v > mx {
                    mx = v;
                    proof {
                        mxi = k as int;
                    }
                }
                k += 1;
            }
            let spread_ok = (mx as i128) - (mn as i128) >= (*gap as i128);
            proof {
                if spread_ok {
                    assert(vs@[mxi] as int == specvals[mxi]);
                    assert(vs@[mni] as int == specvals[mni]);
                    assert(specvals[mxi] - specvals[mni] >= *gap as int);
                    assert(crate::expr::exists_pair_gap(specvals, *gap as int));
                } else {
                    assert forall|j: int, j2: int|
                        0 <= j < specvals.len() && 0 <= j2 < specvals.len() implies
                        specvals[j2] - specvals[j] < *gap as int by {
                        assert(vs@[j] as int == specvals[j]);
                        assert(vs@[j2] as int == specvals[j2]);
                        assert(mn as int <= specvals[j]);
                        assert(specvals[j2] <= mx as int);
                    }
                }
            }
            Some(spread_ok)
        },
    }
}

/// The deterministic acceptance condition for a model's cell values:
/// every registered assertion evaluates, without giving up, to true.
pub open spec fn spec_check(s: &SudokuContext, log: Seq<BoolId>, values: Seq<i64>) -> bool {
    forall|k: int|
        0 <= k < log.len() ==> spec_eval_bool(s.bpool(), s.ipool(), #[trigger] log[k], values)
            == Option::Some(true)
}

/// Checks a model's cell values against every registered assertion: the
/// answer is exactly the deterministic acceptance condition, and a
/// positive answer means every assertion truly holds of the values.
pub fn check_assignment(context: &SudokuContext, solver: &AssertionList, values: &Vec<i64>) -> (r:
    bool)
    requires
        context.wf(),
        log_wf(context, solver@),
        values@.len() == 81,
    ensures
        r == spec_check(context, solver@, values@),
        r ==> holds_from(context, solver@, 0, vals_int(values@)),
{
    let n = solver.len();
    let mut k: usize = 0;
    while k < n
        invariant
            context.wf(),
            log_wf(context, solver@),
            values@.len() == 81,
            n == solver@.len(),
            k <= n,
            forall|j: int| 0 <= j < k as int ==> context.bval(#[trigger] solver@[j], vals_int(
                values@,
            )),
            forall|j: int|
                0 <= j < k as int ==> spec_eval_bool(
                    context.bpool(),
                    context.ipool(),
                    #[trigger] solver@[j],
                    values@,
                ) == Option::Some(true),
        decreases n - k,
    {
        let ok = match eval_bool_node(context, solver.get(k), values) {
            Some(v) => v,
            None => false,
        };
        if !ok {
            proof {
                assert(spec_eval_bool(
                    context.bpool(),
                    context.ipool(),
                    solver@[k as int],
                    values@,
                ) != Option::Some(true));
            }
            return false;
        }
        k += 1;
    }
    true
}

/// Checks the validity of every configured rule, up front and before any
/// compilation, as the Validating step of a solve attempt.
pub fn validate(rules: &Vec<Rule>) -> (r: bool)
    ensures
        r == rules_valid(rules@),
{
    let n = rules.len();
    let mut i: usize = 0;
    while i < n
        invariant
            n == rules@.len(),
            i <= n,
            forall|j: int| 0 <= j < i as int ==> (#[trigger] rules@[j]).spec_valid(),
        decreases n - i,
    {
        if !rules[i].is_valid() {
            return false;
        }
        i += 1;
    }
    true
}

/// Every configured rule is structurally able to compile.
pub open spec fn rules_wf(rules: Seq<Rule>) -> bool {
    forall|i: int| 0 <= i < rules.len() ==> (#[trigger] rules[i]).rule_wf()
}

/// Every configured rule passes its own validity check.
pub open spec fn rules_valid(rules: Seq<Rule>) -> bool {
    forall|i: int| 0 <= i < rules.len() ==> (#[trigger] rules[i]).spec_valid()
}

/// The structural conditions the presentation layer guarantees for every
/// configured rule, whatever its text fields hold: claimed cells lie in
/// the grid (and a claimed list is not absurdly long).
pub open spec fn rule_shape_ok(r: Rule) -> bool {
    match r {
        Rule::GivenDigit(g) => g.row < 9 && g.col < 9,
        Rule::KillerCage(c) => crate::constraint::cells_in_bounds(c.cells@),
        Rule::LittleKiller(c) => crate::constraint::cells_in_bounds(c.cells@),
        Rule::Arrow(c) => crate::constraint::cells_in_bounds(c.cells@),
        Rule::Thermo(c) => crate::constraint::cells_in_bounds(c.cells@),
        Rule::Palindrome(c) => crate::constraint::cells_in_bounds(c.cells@),
        Rule::GermanWhisper(c) => crate::constraint::cells_in_bounds(c.cells@),
        Rule::Renban(c) => crate::constraint::cells_in_bounds(c.cells@) && c.cells@.len()
            <= 0x7fff_ffff,
        Rule::Parity(c) => crate::constraint::cells_in_bounds(c.cells@),
        Rule::EntropicLine(c) => crate::constraint::cells_in_bounds(c.cells@),
        Rule::XSum(c) => crate::constraint::cells_in_bounds(c.cells@),
        Rule::EqualSum(c) => crate::constraint::cells_in_bounds(c.cells@),
        Rule::WhiteKropki(c) => crate::constraint::cells_in_bounds(c.cells@),
        Rule::BlackKropki(c) => crate::constraint::cells_in_bounds(c.cells@),
        _ => true,
    }
}

/// Every configured rule meets the structural conditions.
pub open spec fn rules_shape_ok(rules: Seq<Rule>) -> bool {
    forall|i: int| 0 <= i < rules.len() ==> rule_shape_ok(#[trigger] rules[i])
}

/// Structurally sound rules that pass their validity checks are ready to
/// compile.
pub proof fn lemma_valid_shape_gives_wf(rules: Seq<Rule>)
    requires
        rules_shape_ok(rules),
        rules_valid(rules),
    ensures
        rules_wf(rules),
{
    assert forall|i: int| 0 <= i < rules.len() implies (#[trigger] rules[i]).rule_wf() by {
        assert(rule_shape_ok(rules[i]));
        assert(rules[i].spec_valid());
    }
}

/// Digit a grid entry holds (0 where it holds none).
pub open spec fn opt_digit(o: Option<i32>) -> int {
    match o {
        Option::Some(d) => d as int,
        Option::None => 0,
    }
}

/// The rule fixes the cell with flat index `kk` to the digit `d`.
pub open spec fn is_given_for(r: Rule, kk: int, d: int) -> bool {
    match r {
        Rule::GivenDigit(g) => g.row == kk / 9 && g.col == kk % 9 && g.value == d,
        _ => false,
    }
}

/// The rule is a given-digit rule matching some pre-filled grid entry.
pub open spec fn given_entry_ok(givens: Seq<Option<i32>>, r: Rule) -> bool {
    match r {
        Rule::GivenDigit(g) => g.row < 9 && g.col < 9 && givens[g.col + 9 * g.row] == Option::Some(
            g.value,
        ),
        _ => false,
    }
}

/// The list carries a given-digit rule for the entry `kk` holding `d`.
pub open spec fn list_has_given(l: Seq<Rule>, glen: int, kk: int, d: int) -> bool {
    exists|j: int| 3 <= j < glen && is_given_for(#[trigger] l[j], kk, d)
}

/// Every pre-filled cell matches the grid and every configured rule's
/// meaning holds, read against the configured rules themselves.
pub open spec fn givens_sem(givens: Seq<Option<i32>>, asg: Seq<int>) -> bool {
    forall|kk: int|
        0 <= kk < 81 ==> match #[trigger] givens[kk] {
            Option::Some(d) => asg[kk] == d as int,
            Option::None => true,
        }
}

/// The meaning of a whole puzzle: the three mandatory grid-structure
/// rules, the pre-filled digits, and every configured rule.
pub open spec fn puzzle_sem(givens: Seq<Option<i32>>, rules: Seq<Rule>, asg: Seq<int>) -> bool {
    &&& crate::constraint::digit_definition::digits_legal_upto(asg, 81)
    &&& crate::constraint::latin_square::rows_distinct_upto(asg, 9)
    &&& crate::constraint::latin_square::cols_distinct_upto(asg, 9)
    &&& crate::constraint::standard_boxes::boxes_distinct(asg)
    &&& givens_sem(givens, asg)
    &&& forall|i: int| 0 <= i < rules.len() ==> (#[trigger] rules[i]).sem(rules, asg)
}

/// Nine pairwise different legal digits: a permutation of the digit
/// range.
pub open spec fn digit_permutation(vals: Seq<int>) -> bool {
    &&& vals.len() == 9
    &&& crate::expr::pairwise_distinct(vals)
    &&& forall|d: int| 1 <= d <= 9 ==> #[trigger] crate::constraint::renban::appears(vals, d)
}

/// Under the mandatory grid-structure rules alone, every row, every
/// column and every box of a satisfying assignment is a permutation of
/// the legal digit range.
pub proof fn lemma_structural_permutations(asg: Seq<int>)
    requires
        crate::sudoku::full_asg(asg),
        crate::constraint::digit_definition::digits_legal_upto(asg, 81),
        crate::constraint::latin_square::rows_distinct_upto(asg, 9),
        crate::constraint::latin_square::cols_distinct_upto(asg, 9),
        crate::constraint::standard_boxes::boxes_distinct(asg),
    ensures
        forall|r: int|
            0 <= r < 9 ==> digit_permutation(
                crate::sudoku::cell_vals(asg, #[trigger] crate::constraint::row_cells(r)),
            ),
        forall|c: int|
            0 <= c < 9 ==> digit_permutation(
                crate::sudoku::cell_vals(asg, #[trigger] crate::constraint::col_cells(c)),
            ),
        forall|bx: int, by: int|
            0 <= bx < 3 && 0 <= by < 3 ==> digit_permutation(
                crate::sudoku::cell_vals(asg, #[trigger] crate::constraint::box_cells(bx, by)),
            ),
{
    assert forall|r: int| 0 <= r < 9 implies digit_permutation(
        crate::sudoku::cell_vals(asg, #[trigger] crate::constraint::row_cells(r)),
    ) by {
        let vals = crate::sudoku::cell_vals(asg, crate::constraint::row_cells(r));
        assert forall|k: int| 0 <= k < vals.len() implies 1 <= #[trigger] vals[k] < 10 by {
            assert(vals[k] == asg[k + 9 * r]);
        }
        crate::constraint::renban::lemma_distinct_bounded_covers(vals, 1);
    }
    assert forall|c: int| 0 <= c < 9 implies digit_permutation(
        crate::sudoku::cell_vals(asg, #[trigger] crate::constraint::col_cells(c)),
    ) by {
        let vals = crate::sudoku::cell_vals(asg, crate::constraint::col_cells(c));
        assert forall|k: int| 0 <= k < vals.len() implies 1 <= #[trigger] vals[k] < 10 by {
            assert(vals[k] == asg[c + 9 * k]);
        }
        crate::constraint::renban::lemma_distinct_bounded_covers(vals, 1);
    }
    assert forall|bx: int, by: int| 0 <= bx < 3 && 0 <= by < 3 implies digit_permutation(
        crate::sudoku::cell_vals(asg, #[trigger] crate::constraint::box_cells(bx, by)),
    ) by {
        let vals = crate::sudoku::cell_vals(asg, crate::constraint::box_cells(bx, by));
        assert forall|k: int| 0 <= k < vals.len() implies 1 <= #[trigger] vals[k] < 10 by {
            assert(vals[k] == asg[(3 * by + k % 3) + 9 * (3 * bx + k / 3)]);
            assert(0 <= (3 * by + k % 3) + 9 * (3 * bx + k / 3) < 81);
        }
        crate::constraint::renban::lemma_distinct_bounded_covers(vals, 1);
    }
}

/// Digit of the cyclically shifted reference grid at flat index `k`.
pub open spec fn pattern_digit(k: int) -> int {
    ((k % 9) + 3 * (k / 9) + ((k / 9) / 3)) % 9 + 1
}

/// Row offset of the cyclically shifted reference grid.
spec fn row_shift(r: int) -> int {
    3 * r + r / 3
}

/// With no digits given and only the mandatory grid-structure rules, a
/// solution exists: the cyclically shifted reference grid is one.
pub proof fn lemma_structural_solution_exists()
    ensures
        exists|asg: Seq<int>|
            {
                &&& #[trigger] crate::sudoku::full_asg(asg)
                &&& puzzle_sem(
                    Seq::new(81, |k: int| Option::<i32>::None),
                    Seq::<Rule>::empty(),
                    asg,
                )
            },
{
    let asg = Seq::new(81, |k: int| pattern_digit(k));
    lemma_shift_table();
    assert(crate::constraint::digit_definition::digits_legal_upto(asg, 81)) by {
        assert forall|k: int| 0 <= k < 81 implies 1 <= #[trigger] asg[k] <= 9 by {
            lemma_pattern_parts(k);
        }
    }
    assert(crate::constraint::latin_square::rows_distinct_upto(asg, 9)) by {
        assert forall|r: int| 0 <= r < 9 implies crate::expr::pairwise_distinct(
            crate::sudoku::cell_vals(asg, #[trigger] crate::constraint::row_cells(r)),
        ) by {
            let vals = crate::sudoku::cell_vals(asg, crate::constraint::row_cells(r));
            assert forall|p: int, q: int| 0 <= p < q < vals.len() implies vals[p] != vals[q] by {
                lemma_pattern_parts(p + 9 * r);
                lemma_pattern_parts(q + 9 * r);
                lemma_flat_index(r, p);
                lemma_flat_index(r, q);
                assert(vals[p] == (p + row_shift(r)) % 9 + 1);
                assert(vals[q] == (q + row_shift(r)) % 9 + 1);
                lemma_mod9_separate(p + row_shift(r), q + row_shift(r));
            }
        }
    }
    assert(crate::constraint::latin_square::cols_distinct_upto(asg, 9)) by {
        assert forall|c: int| 0 <= c < 9 implies crate::expr::pairwise_distinct(
            crate::sudoku::cell_vals(asg, #[trigger] crate::constraint::col_cells(c)),
        ) by {
            let vals = crate::sudoku::cell_vals(asg, crate::constraint::col_cells(c));
            assert forall|p: int, q: int| 0 <= p < q < vals.len() implies vals[p] != vals[q] by {
                lemma_pattern_parts(c + 9 * p);
                lemma_pattern_parts(c + 9 * q);
                lemma_flat_index(p, c);
                lemma_flat_index(q, c);
                assert(vals[p] == (c + row_shift(p)) % 9 + 1);
                assert(vals[q] == (c + row_shift(q)) % 9 + 1);
                lemma_mod9_offsets(c, row_shift(p), row_shift(q));
            }
        }
    }
    assert(crate::constraint::standard_boxes::boxes_distinct(asg)) by {
        assert forall|bx: int, by: int| 0 <= bx < 3 && 0 <= by < 3 implies
            crate::expr::pairwise_distinct(
            crate::sudoku::cell_vals(asg, #[trigger] crate::constraint::box_cells(bx, by)),
        ) by {
            let vals = crate::sudoku::cell_vals(asg, crate::constraint::box_cells(bx, by));
            assert forall|p: int, q: int| 0 <= p < q < vals.len() implies vals[p] != vals[q] by {
                let rp = 3 * bx + p / 3;
                let cp = 3 * by + p % 3;
                let rq = 3 * bx + q / 3;
                let cq = 3 * by + q % 3;
                lemma_pattern_parts(cp + 9 * rp);
                lemma_pattern_parts(cq + 9 * rq);
                lemma_flat_index(rp, cp);
                lemma_flat_index(rq, cq);
                assert(vals[p] == (cp + row_shift(rp)) % 9 + 1);
                assert(vals[q] == (cq + row_shift(rq)) % 9 + 1);
                assert(row_shift(rp) == 9 * bx + bx + 3 * (p / 3));
                assert(row_shift(rq) == 9 * bx + bx + 3 * (q / 3));
                lemma_mod9_separate(
                    cp + row_shift(rp) - 9 * bx,
                    cq + row_shift(rq) - 9 * bx,
                );
                lemma_mod9_drop(cp + row_shift(rp), bx);
                lemma_mod9_drop(cq + row_shift(rq), bx);
            }
        }
    }
    assert(crate::sudoku::full_asg(asg));
}

/// Splits a flat index's pattern digit into its row and column parts.
proof fn lemma_pattern_parts(k: int)
    requires
        0 <= k < 81,
    ensures
        pattern_digit(k) == (k % 9 + row_shift(k / 9)) % 9 + 1,
        1 <= pattern_digit(k) <= 9,
{
    assert(0 <= (k % 9 + 3 * (k / 9) + ((k / 9) / 3)) % 9 < 9) by (nonlinear_arith)
        requires
            0 <= k,
    ;
}

/// A flat in-grid index decomposes uniquely into its row and column.
proof fn lemma_flat_index(r: int, c: int)
    requires
        0 <= r < 9,
        0 <= c < 9,
    ensures
        (c + 9 * r) % 9 == c,
        (c + 9 * r) / 9 == r,
{
    assert((c + 9 * r) % 9 == c && (c + 9 * r) / 9 == r) by (nonlinear_arith)
        requires
            0 <= r < 9 && 0 <= c < 9,
    ;
}

/// Two integers strictly less than nine apart, and apart at all, fall in
/// different residue classes.
proof fn lemma_mod9_separate(a: int, b: int)
    requires
        0 <= a,
        a < b,
        b - a < 9,
    ensures
        a % 9 != b % 9,
{
    vstd::arithmetic::div_mod::lemma_mod_equivalence(a, b, 9);
    if a % 9 == b % 9 {
        assert((b - a) % 9 == 0);
        vstd::arithmetic::div_mod::lemma_small_mod((b - a) as nat, 9);
    }
}

/// Adding a common offset keeps the distinct row shifts in distinct
/// residue classes.
proof fn lemma_mod9_offsets(c: int, sp: int, sq: int)
    requires
        0 <= c < 9,
        exists|p: int| 0 <= p < 9 && sp == #[trigger] row_shift(p),
        exists|q: int| 0 <= q < 9 && sq == #[trigger] row_shift(q),
        sp != sq,
    ensures
        (c + sp) % 9 != (c + sq) % 9,
{
    lemma_shift_table();
    let p = choose|p: int| 0 <= p < 9 && sp == #[trigger] row_shift(p);
    let q = choose|q: int| 0 <= q < 9 && sq == #[trigger] row_shift(q);
    vstd::arithmetic::div_mod::lemma_mod_equivalence(c + sp, c + sq, 9);
    if (c + sp) % 9 == (c + sq) % 9 {
        assert((c + sq - (c + sp)) % 9 == 0);
        assert((sq - sp) % 9 == 0);
        vstd::arithmetic::div_mod::lemma_mod_equivalence(sp, sq, 9);
        assert(sp % 9 == sq % 9);
    }
}

/// Subtracting nine times an integer does not change a residue class.
proof fn lemma_mod9_drop(a: int, m: int)
    requires
        0 <= a - 9 * m,
    ensures
        a % 9 == (a - 9 * m) % 9,
{
    vstd::arithmetic::div_mod::lemma_mod_multiples_vanish(-m, a, 9);
}

/// The nine row shifts and their residue classes, spelled out.
proof fn lemma_shift_table()
    ensures
        row_shift(0) == 0 && row_shift(1) == 3 && row_shift(2) == 6,
        row_shift(3) == 10 && row_shift(4) == 13 && row_shift(5) == 16,
        row_shift(6) == 20 && row_shift(7) == 23 && row_shift(8) == 26,
        forall|p: int, q: int|
            0 <= p < q < 9 ==> #[trigger] row_shift(p) % 9 != #[trigger] row_shift(q) % 9,
        forall|p: int, q: int|
            0 <= p < q < 9 ==> #[trigger] row_shift(p) != #[trigger] row_shift(q),
{
    assert forall|p: int, q: int| 0 <= p < q < 9 implies #[trigger] row_shift(p) % 9
        != #[trigger] row_shift(q) % 9 by {
        assert(row_shift(0) % 9 == 0 && row_shift(1) % 9 == 3 && row_shift(2) % 9 == 6
            && row_shift(3) % 9 == 1 && row_shift(4) % 9 == 4 && row_shift(5) % 9 == 7
            && row_shift(6) % 9 == 2 && row_shift(7) % 9 == 5 && row_shift(8) % 9 == 8);
    }
}

/// Assembles the full rule list of one solve attempt: the mandatory
/// rules, one given-digit rule per pre-filled cell, then a value-cloned
/// snapshot of every configured rule.
#[verifier::rlimit(60)]
fn build_rule_list(givens: &Vec<Option<i32>>, rules: &Vec<Rule>) -> (r: (Vec<Rule>, Ghost<int>))
    requires
        givens@.len() == 81,
        rules_wf(rules@),
        rules_valid(rules@),
    ensures
        ({
            let l = r.0@;
            let glen = r.1@;
            &&& 3 <= glen <= l.len()
            &&& l.len() == glen + rules@.len()
            &&& l[0] == Rule::DigitDefinition(crate::constraint::DigitDefinitionConstraint)
            &&& l[1] == Rule::LatinSquare(crate::constraint::LatinSquareConstraint)
            &&& l[2] == Rule::StandardBoxes(crate::constraint::StandardBoxesConstraint)
            &&& forall|j: int| 3 <= j < glen ==> given_entry_ok(givens@, #[trigger] l[j])
            &&& forall|kk: int|
                0 <= kk < 81 && (#[trigger] givens@[kk]) is Some ==> list_has_given(
                    l,
                    glen,
                    kk,
                    opt_digit(givens@[kk]),
                )
            &&& forall|j: int|
                0 <= j < rules@.len() ==> (#[trigger] rules@[j]).cloned_from(&l[glen + j])
            &&& crate::constraint::kropki::dot_keys(l, true)
                == crate::constraint::kropki::dot_keys(rules@, true)
            &&& crate::constraint::kropki::dot_keys(l, false)
                == crate::constraint::kropki::dot_keys(rules@, false)
            &&& rules_wf(l)
            &&& crate::constraint::kropki::dot_siblings_wf(l)
        }),
{
    let mut list: Vec<Rule> = Vec::new();
    list.push(Rule::DigitDefinition(crate::constraint::DigitDefinitionConstraint));
    list.push(Rule::LatinSquare(crate::constraint::LatinSquareConstraint));
    list.push(Rule::StandardBoxes(crate::constraint::StandardBoxesConstraint));
    proof {
        assert(crate::constraint::kropki::dot_keys(list@, true) =~= Set::<u64>::empty()) by {
            crate::constraint::kropki::lemma_dot_keys_none(list@, true);
        }
        assert(crate::constraint::kropki::dot_keys(list@, false) =~= Set::<u64>::empty()) by {
            crate::constraint::kropki::lemma_dot_keys_none(list@, false);
        }
    }
    let mut k: usize = 0;
    while k < 81
        invariant
            givens@.len() == 81,
            k <= 81,
            list@.len() >= 3,
            list@[0] == Rule::DigitDefinition(crate::constraint::DigitDefinitionConstraint),
            list@[1] == Rule::LatinSquare(crate::constraint::LatinSquareConstraint),
            list@[2] == Rule::StandardBoxes(crate::constraint::StandardBoxesConstraint),
            forall|j: int| 3 <= j < list@.len() ==> given_entry_ok(givens@, #[trigger] list@[j]),
            forall|kk: int|
                0 <= kk < k as int && (#[trigger] givens@[kk]) is Some ==> list_has_given(
                    list@,
                    list@.len() as int,
                    kk,
                    opt_digit(givens@[kk]),
                ),
            crate::constraint::kropki::dot_keys(list@, true) == Set::<u64>::empty(),
            crate::constraint::kropki::dot_keys(list@, false) == Set::<u64>::empty(),
        decreases 81 - k,
    {
        let ghost oldlist = list@;
        let g = givens[k];
        match g {
            Some(d) => {
                let gd = crate::constraint::GivenDigitConstraint {
                    row: k / 9,
                    col: k % 9,
                    value: d,
                };
                list.push(Rule::GivenDigit(gd));
                proof {
                    assert(list@.drop_last() =~= oldlist);
                    assert(crate::constraint::kropki::rule_dot_key(list@.last(), true) is None);
                    assert(crate::constraint::kropki::rule_dot_key(list@.last(), false) is None);
                    assert(is_given_for(list@[list@.len() - 1], k as int, d as int));
                    assert forall|kk: int|
                        0 <= kk < k as int + 1 && (#[trigger] givens@[kk]) is Some implies
                        list_has_given(list@, list@.len() as int, kk, opt_digit(givens@[kk])) by {
                        if kk < k as int {
                            let j = choose|j: int|
                                3 <= j < oldlist.len() && is_given_for(
                                    #[trigger] oldlist[j],
                                    kk,
                                    opt_digit(givens@[kk]),
                                );
                            assert(is_given_for(list@[j], kk, opt_digit(givens@[kk])));
                        } else {
                            assert(is_given_for(
                                list@[list@.len() - 1],
                                kk,
                                opt_digit(givens@[kk]),
                            ));
                        }
                    }
                }
            },
            None => {
            },
        }
        k += 1;
    }
    let glen = list.len();
    let ghost glenq = glen as int;
    let n = rules.len();
    let mut i: usize = 0;
    while i < n
        invariant
            givens@.len() == 81,
            rules_wf(rules@),
            rules_valid(rules@),
            n == rules@.len(),
            i <= n,
            3 <= glenq,
            list@.len() == glenq + i as int,
            list@[0] == Rule::DigitDefinition(crate::constraint::DigitDefinitionConstraint),
            list@[1] == Rule::LatinSquare(crate::constraint::LatinSquareConstraint),
            list@[2] == Rule::StandardBoxes(crate::constraint::StandardBoxesConstraint),
            forall|j: int| 3 <= j < glenq ==> given_entry_ok(givens@, #[trigger] list@[j]),
            forall|kk: int|
                0 <= kk < 81 && (#[trigger] givens@[kk]) is Some ==> list_has_given(
                    list@,
                    glenq,
                    kk,
                    opt_digit(givens@[kk]),
                ),
            forall|j: int|
                0 <= j < i as int ==> (#[trigger] rules@[j]).cloned_from(&list@[glenq + j]),
            crate::constraint::kropki::dot_keys(list@, true)
                == crate::constraint::kropki::dot_keys(rules@.take(i as int), true),
            crate::constraint::kropki::dot_keys(list@, false)
                == crate::constraint::kropki::dot_keys(rules@.take(i as int), false),
        decreases n - i,
    {
        let ghost oldlist = list@;
        let c = rules[i].dyn_clone();
        proof {
            crate::constraint::lemma_clone_keeps(&rules@[i as int], &c);
        }
        list.push(c);
        proof {
            assert(list@.drop_last() =~= oldlist);
            assert(rules@.take(i as int + 1).drop_last() =~= rules@.take(i as int));
            assert(rules@.take(i as int + 1).last() == rules@[i as int]);
            assert(crate::constraint::kropki::rule_dot_key(list@.last(), true)
                == crate::constraint::kropki::rule_dot_key(rules@[i as int], true));
            assert(crate::constraint::kropki::rule_dot_key(list@.last(), false)
                == crate::constraint::kropki::rule_dot_key(rules@[i as int], false));
        }
        i += 1;
    }
    proof {
        assert(rules@.take(n as int) =~= rules@);
        assert(rules_wf(list@)) by {
            assert forall|j: int| 0 <= j < list@.len() implies (#[trigger] list@[j]).rule_wf()
                by {
                if j < 3 {
                } else if j < glenq {
                    assert(given_entry_ok(givens@, list@[j]));
                } else {
                    crate::constraint::lemma_clone_keeps(&rules@[j - glenq], &list@[j]);
                    assert(rules@[j - glenq].rule_wf());
                }
            }
        }
        assert(crate::constraint::kropki::dot_siblings_wf(list@)) by {
            assert forall|j: int| 0 <= j < list@.len() implies match #[trigger] list@[j] {
                Rule::WhiteKropki(c) => c.cells@.len() == 2
                    && crate::sudoku::cell_in_bounds(c.cells@[0])
                    && crate::sudoku::cell_in_bounds(c.cells@[1]),
                Rule::BlackKropki(c) => c.cells@.len() == 2
                    && crate::sudoku::cell_in_bounds(c.cells@[0])
                    && crate::sudoku::cell_in_bounds(c.cells@[1]),
                _ => true,
            } by {
                if j < 3 {
                } else if j < glenq {
                    assert(given_entry_ok(givens@, list@[j]));
                } else {
                    crate::constraint::lemma_clone_keeps(&rules@[j - glenq], &list@[j]);
                    assert(rules@[j - glenq].rule_wf());
                    assert(rules@[j - glenq].spec_valid());
                }
            }
        }
    }
    (list, Ghost(glenq))
}

/// The Compiling step: builds a fresh session over the assembled rule
/// list and asserts every rule, so that the registered assertions hold
/// under a full assignment exactly when the puzzle's meaning does.
pub fn compile(givens: &Vec<Option<i32>>, rules: &Vec<Rule>) -> (r: (
    SudokuContext,
    AssertionList,
))
    requires
        givens@.len() == 81,
        rules_wf(rules@),
        rules_valid(rules@),
    ensures
        r.0.wf(),
        log_wf(&r.0, r.1@),
        forall|asg: Seq<int>|
            crate::sudoku::full_asg(asg) ==> (holds_from(&r.0, r.1@, 0, asg) <==> puzzle_sem(
                givens@,
                rules@,
                asg,
            )),
{
    let (list, glen) = build_rule_list(givens, rules);
    let ghost glenq = glen@;
    let ghost listq = list@;
    let mut context = SudokuContext::create(list);
    let mut solver = AssertionList::new();
    let n = context.constraints().len();
    let mut i: usize = 0;
    while i < n
        invariant
            context.wf(),
            log_wf(&context, solver@),
            context.rules() == listq,
            n == listq.len(),
            i <= n,
            rules_wf(listq),
            crate::constraint::kropki::dot_siblings_wf(listq),
            forall|asg: Seq<int>|
                crate::sudoku::full_asg(asg) ==> (holds_from(&context, solver@, 0, asg) <==> (
                forall|j: int| 0 <= j < i as int ==> (#[trigger] listq[j]).sem(listq, asg))),
        decreases n - i,
    {
        let rule = context.constraints()[i].dyn_clone();
        proof {
            crate::constraint::lemma_clone_keeps(&listq[i as int], &rule);
            assert(listq[i as int].rule_wf());
            assert(rule.siblings_wf(context.rules())) by {
                match rule {
                    Rule::NegativeWhiteKropki(_) => {},
                    Rule::NegativeBlackKropki(_) => {},
                    _ => {},
                }
            }
        }
        let ghost cpre = context;
        let ghost lpre = solver@;
        rule.apply(&mut solver, &mut context);
        proof {
            assert forall|asg: Seq<int>| crate::sudoku::full_asg(asg) implies (holds_from(
                &context,
                solver@,
                0,
                asg,
            ) <==> (forall|j: int|
                0 <= j < i as int + 1 ==> (#[trigger] listq[j]).sem(listq, asg))) by {
                crate::constraint::anti_knight::lemma_holds_split(
                    &context,
                    solver@,
                    0,
                    lpre.len() as int,
                    asg,
                );
                assert(solver@.take(lpre.len() as int) =~= lpre);
                crate::sudoku::lemma_holds_extends(&cpre, &context, lpre, 0, asg);
                assert(rule.sem(listq, asg) == listq[i as int].sem(listq, asg));
                if holds_from(&context, solver@, 0, asg) {
                    assert forall|j: int| 0 <= j < i as int + 1 implies (#[trigger] listq[j]).sem(
                        listq,
                        asg,
                    ) by {
                        if j == i as int {
                            assert(holds_from(&context, solver@, lpre.len() as int, asg));
                        }
                    }
                }
                if (forall|j: int| 0 <= j < i as int + 1 ==> (#[trigger] listq[j]).sem(
                    listq,
                    asg,
                )) {
                    assert(listq[i as int].sem(listq, asg));
                }
            }
        }
        i += 1;
    }
    proof {
        lemma_compiled_matches_puzzle(givens@, rules@, listq, glenq);
        assert forall|asg: Seq<int>| crate::sudoku::full_asg(asg) implies (holds_from(
            &context,
            solver@,
            0,
            asg,
        ) <==> puzzle_sem(givens@, rules@, asg)) by {}
    }
    (context, solver)
}

/// The assembled list's combined meaning is exactly the puzzle's
/// meaning stated over the user's own rule list.
proof fn lemma_compiled_matches_puzzle(
    givens: Seq<Option<i32>>,
    rules: Seq<Rule>,
    l: Seq<Rule>,
    glen: int,
)
    requires
        givens.len() == 81,
        3 <= glen <= l.len(),
        l.len() == glen + rules.len(),
        l[0] == Rule::DigitDefinition(crate::constraint::DigitDefinitionConstraint),
        l[1] == Rule::LatinSquare(crate::constraint::LatinSquareConstraint),
        l[2] == Rule::StandardBoxes(crate::constraint::StandardBoxesConstraint),
        forall|j: int| 3 <= j < glen ==> given_entry_ok(givens, #[trigger] l[j]),
        forall|kk: int|
            0 <= kk < 81 && (#[trigger] givens[kk]) is Some ==> list_has_given(
                l,
                glen,
                kk,
                opt_digit(givens[kk]),
            ),
        forall|j: int| 0 <= j < rules.len() ==> (#[trigger] rules[j]).cloned_from(&l[glen + j]),
        crate::constraint::kropki::dot_keys(l, true) == crate::constraint::kropki::dot_keys(
            rules,
            true,
        ),
        crate::constraint::kropki::dot_keys(l, false) == crate::constraint::kropki::dot_keys(
            rules,
            false,
        ),
    ensures
        forall|asg: Seq<int>|
            crate::sudoku::full_asg(asg) ==> ((forall|j: int|
                0 <= j < l.len() ==> (#[trigger] l[j]).sem(l, asg)) <==> puzzle_sem(
                givens,
                rules,
                asg,
            )),
{
    assert forall|asg: Seq<int>| crate::sudoku::full_asg(asg) implies ((forall|j: int|
        0 <= j < l.len() ==> (#[trigger] l[j]).sem(l, asg)) <==> puzzle_sem(
        givens,
        rules,
        asg,
    )) by {
        if forall|j: int| 0 <= j < l.len() ==> (#[trigger] l[j]).sem(l, asg) {
            assert(l[0].sem(l, asg));
            assert(l[1].sem(l, asg));
            assert(l[2].sem(l, asg));
            assert(givens_sem(givens, asg)) by {
                assert forall|kk: int|
                    0 <= kk < 81 && (#[trigger] givens[kk]) is Some implies asg[kk] == opt_digit(
                    givens[kk],
                ) by {
                    let j = choose|j: int|
                        3 <= j < glen && is_given_for(#[trigger] l[j], kk, opt_digit(givens[kk]));
                    assert(l[j].sem(l, asg));
                    assert(crate::sudoku::cell_index(
                        crate::sudoku::Cell { row: (kk / 9) as usize, col: (kk % 9) as usize },
                    ) == kk);
                }
            }
            assert forall|j: int| 0 <= j < rules.len() implies (#[trigger] rules[j]).sem(
                rules,
                asg,
            ) by {
                crate::constraint::lemma_clone_keeps(&rules[j], &l[glen + j]);
                assert(l[glen + j].sem(l, asg));
                crate::constraint::lemma_sem_same_dots(&rules[j], l, rules);
            }
        }
        if puzzle_sem(givens, rules, asg) {
            assert forall|j: int| 0 <= j < l.len() implies (#[trigger] l[j]).sem(l, asg) by {
                if j == 0 {
                    assert(l[j] == Rule::DigitDefinition(
                        crate::constraint::DigitDefinitionConstraint,
                    ));
                } else if j == 1 {
                } else if j == 2 {
                } else if j < glen {
                    assert(given_entry_ok(givens, l[j]));
                    match l[j] {
                        Rule::GivenDigit(g) => {
                            let kk = g.col + 9 * g.row;
                            assert(givens[kk as int] == Option::Some(g.value));
                            assert(asg[kk as int] == g.value as int);
                            assert(crate::sudoku::cell_index(
                                crate::sudoku::Cell { row: g.row, col: g.col },
                            ) == kk as int);
                        },
                        _ => {},
                    }
                } else {
                    crate::constraint::lemma_clone_keeps(&rules[j - glen], &l[j]);
                    assert(rules[j - glen].sem(rules, asg));
                    crate::constraint::lemma_sem_same_dots(&rules[j - glen], l, rules);
                }
            }
        }
    }
}

/// The whole acceptance condition of the Checking step: the engine said
/// satisfiable, handed back one value per cell, every value is a legal
/// digit, and every registered assertion evaluates to true on them.
pub open spec fn model_accepted(
    s: &SudokuContext,
    log: Seq<BoolId>,
    verdict: EngineVerdict,
) -> bool {
    match verdict {
        EngineVerdict::Sat(v) => v@.len() == 81 && spec_check(s, log, v@) && (forall|k: int|
            0 <= k < 81 ==> 1 <= #[trigger] v@[k] <= 9),
        _ => false,
    }
}

/// The Checking step's decision: passes the engine's verdict through,
/// and accepts a model exactly when it meets the whole acceptance
/// condition, decoding it unchanged; a satisfiable verdict whose model
/// fails the condition is reported as the engine's failure to answer.
pub fn decide(context: &SudokuContext, solver: &AssertionList, verdict: &EngineVerdict) -> (r: (
    SolveResult,
    Option<Vec<i32>>,
))
    requires
        context.wf(),
        log_wf(context, solver@),
    ensures
        !(r.0 is InvalidInput),
        (verdict is Unsat) ==> r.0 is Unsolvable,
        (verdict is Unknown) ==> r.0 is TimedOut,
        (r.0 is Unsolvable) == (verdict is Unsat),
        (verdict is Sat) ==> (r.0 is Solved || r.0 is TimedOut),
        (r.0 is Solved) == model_accepted(context, solver@, *verdict),
        r.0 is Solved ==> ({
            let sol = r.1.unwrap()@;
            &&& r.1 is Some
            &&& sol.len() == 81
            &&& forall|k: int| 0 <= k < 81 ==> 1 <= #[trigger] sol[k] <= 9
            &&& asg_of(sol) == vals_int(verdict->Sat_0@)
            &&& holds_from(context, solver@, 0, asg_of(sol))
        }),
        !(r.0 is Solved) ==> r.1 is None,
{
    match verdict {
        EngineVerdict::Unsat => (SolveResult::Unsolvable, None),
        EngineVerdict::Unknown => (SolveResult::TimedOut, None),
        EngineVerdict::Sat(values) => {
            proof {
                assert(verdict->Sat_0 == *values);
            }
            if values.len() != 81 {
                return (SolveResult::TimedOut, None);
            }
            if !check_assignment(context, solver, values) {
                return (SolveResult::TimedOut, None);
            }
            let mut sol: Vec<i32> = Vec::new();
            let mut k: usize = 0;
            while k < 81
                invariant
                    context.wf(),
                    log_wf(context, solver@),
                    verdict is Sat,
                    verdict->Sat_0 == *values,
                    spec_check(context, solver@, values@),
                    values@.len() == 81,
                    k <= 81,
                    sol@.len() == k as int,
                    forall|j: int| 0 <= j < k as int ==> 1 <= #[trigger] sol@[j] <= 9,
                    forall|j: int|
                        0 <= j < k as int ==> (#[trigger] sol@[j]) as int == values@[j] as int,
                decreases 81 - k,
            {
                let v = values[k];
                if v < 1 || v > 9 {
                    proof {
                        assert(!(1 <= values@[k as int] <= 9));
                    }
                    return (SolveResult::TimedOut, None);
                }
                sol.push(v as i32);
                k += 1;
            }
            proof {
                assert(asg_of(sol@) =~= vals_int(values@));
                assert forall|j: int| 0 <= j < 81 implies 1 <= #[trigger] values@[j] <= 9 by {
                    assert(sol@[j] as int == values@[j] as int);
                }
                assert(model_accepted(context, solver@, *verdict));
            }
            (SolveResult::Solved, Some(sol))
        },
    }
}

} // verus!
