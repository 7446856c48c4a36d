use vstd::prelude::*;

use crate::expr::{BoolExpr, IntExpr};
use crate::solver::{
    compile, decide, puzzle_sem, rules_shape_ok, rules_valid, validate, EngineVerdict,
    SolveResult,
};
use crate::constraint::Rule;
use crate::sudoku::{log_wf, AssertionList, SudokuContext};

verus! {

/// An opaque handle to an engine integer expression node.
#[verifier::external_body]
pub struct EngineInt {
    inner: z3::ast::Int,
}

/// An opaque handle to an engine boolean expression node.
#[verifier::external_body]
pub struct EngineBool {
    inner: z3::ast::Bool,
}

/// An opaque handle to an engine set expression node.
#[verifier::external_body]
pub struct EngineSet {
    inner: z3::ast::Set,
}

/// An opaque handle to an engine sort.
#[verifier::external_body]
pub struct EngineSort {
    inner: z3::Sort,
}

/// An opaque handle to an engine quantifier pattern.
#[verifier::external_body]
pub struct EnginePattern {
    inner: z3::Pattern,
}

/// An opaque handle to an engine solver instance.
#[verifier::external_body]
pub struct EngineSolver {
    inner: z3::Solver,
}

/// An opaque handle to an engine tactic.
#[verifier::external_body]
pub struct EngineTactic {
    inner: z3::Tactic,
}

/// An opaque handle to an engine parameter set.
#[verifier::external_body]
pub struct EngineParams {
    inner: z3::Params,
}

/// An opaque handle to an engine model.
#[verifier::external_body]
pub struct EngineModel {
    inner: z3::Model,
}

/// Relies on z3::Tactic::new: the engine's named decision tactic.  The
/// call panics on a name the engine does not know, so only the one
/// tactic this library drives is admitted.
#[verifier::external_body]
fn z3_tactic_new(name: &str) -> EngineTactic
    requires
        name@ == "smt"@,
{
    EngineTactic { inner: z3::Tactic::new(name) }
}

/// Relies on z3::Tactic::solver: a fresh solver driven by the tactic.
#[verifier::external_body]
fn z3_solver_from_tactic(t: &EngineTactic) -> EngineSolver {
    EngineSolver { inner: t.inner.solver() }
}

/// Relies on z3::Params::new: a fresh, empty parameter set.
#[verifier::external_body]
fn z3_params_new() -> EngineParams {
    EngineParams { inner: z3::Params::new() }
}

/// Relies on z3::Params::set_u32: stores a numeric solver parameter.
/// The key goes through a C string, which panics on an interior NUL, so
/// only the one key this library sets is admitted.
#[verifier::external_body]
fn z3_params_set_u32(p: &mut EngineParams, k: &str, v: u32)
    requires
        k@ == "timeout"@,
{
    p.inner.set_u32(k, v);
}

/// Relies on z3::Solver::set_params: installs the parameters, among them
/// the millisecond time budget.
#[verifier::external_body]
fn z3_solver_set_params(s: &EngineSolver, p: &EngineParams) {
    s.inner.set_params(&p.inner);
}

/// Relies on z3::Solver::assert: registers one boolean assertion.
#[verifier::external_body]
fn z3_solver_assert(s: &EngineSolver, b: &EngineBool) {
    s.inner.assert(&b.inner);
}

/// What one engine check reported, before any model is read.
enum EngineAnswer {
    Sat,
    Unsat,
    Unknown,
}

/// Relies on z3::Solver::check: runs the satisfiability check; which
/// verdict comes back depends on the engine and the time budget alone.
#[verifier::external_body]
fn z3_solver_check(s: &EngineSolver) -> (r: EngineAnswer) {
    match s.inner.check() {
        z3::SatResult::Sat => EngineAnswer::Sat,
        z3::SatResult::Unsat => EngineAnswer::Unsat,
        z3::SatResult::Unknown => EngineAnswer::Unknown,
    }
}

/// Relies on z3::Solver::get_model: the model of the last check, when
/// one exists.
#[verifier::external_body]
fn z3_solver_get_model(s: &EngineSolver) -> Option<EngineModel> {
    match s.inner.get_model() {
        Some(m) => Some(EngineModel { inner: m }),
        None => None,
    }
}

/// Relies on z3::Model::eval with model completion: evaluates a variable
/// to a constant under the model.
#[verifier::external_body]
fn z3_model_eval_int(m: &EngineModel, x: &EngineInt) -> Option<EngineInt> {
    match m.inner.eval(&x.inner, true) {
        Some(z) => Some(EngineInt { inner: z }),
        None => None,
    }
}

/// Relies on z3::ast::Int::as_i64: reads a constant back as a machine
/// integer, when it fits.
#[verifier::external_body]
fn z3_int_as_i64(x: &EngineInt) -> Option<i64> {
    x.inner.as_i64()
}

/// Relies on z3::ast::Int::fresh_const: a fresh unconstrained integer
/// variable.  The prefix goes through a C string, which panics on an
/// interior NUL, so only the prefixes this library uses are admitted.
#[verifier::external_body]
fn z3_int_fresh(prefix: &str) -> EngineInt
    requires
        prefix@ == "C"@ || prefix@ == "x"@ || prefix@ == "y"@,
{
    EngineInt { inner: z3::ast::Int::fresh_const(prefix) }
}

/// Relies on z3::ast::Int::from_i64: a constant integer node.
#[verifier::external_body]
fn z3_int_from_i64(v: i64) -> EngineInt {
    EngineInt { inner: z3::ast::Int::from_i64(v) }
}

/// Relies on Clone for z3::ast::Int: another handle to the same node.
#[verifier::external_body]
fn z3_int_dup(x: &EngineInt) -> EngineInt {
    EngineInt { inner: x.inner.clone() }
}

/// Relies on Clone for z3::ast::Bool: another handle to the same node.
#[verifier::external_body]
fn z3_bool_dup(x: &EngineBool) -> EngineBool {
    EngineBool { inner: x.inner.clone() }
}

/// Relies on z3::ast::Int::add: the sum of the listed nodes; the engine
/// documents that the operand count must be greater than zero.
#[verifier::external_body]
fn z3_add(xs: Vec<EngineInt>) -> EngineInt
    requires
        xs@.len() >= 1,
{
    let ops: Vec<z3::ast::Int> = xs.into_iter().map(|x| x.inner).collect();
    EngineInt { inner: z3::ast::Int::add(ops.as_slice()) }
}

/// Relies on z3::ast::Int::sub: the difference of the two nodes.
#[verifier::external_body]
fn z3_sub(a: &EngineInt, b: &EngineInt) -> EngineInt {
    EngineInt { inner: z3::ast::Int::sub(&[a.inner.clone(), b.inner.clone()]) }
}

/// Relies on z3::ast::Int::mul: the product of the two nodes.
#[verifier::external_body]
fn z3_mul(a: &EngineInt, b: &EngineInt) -> EngineInt {
    EngineInt { inner: z3::ast::Int::mul(&[a.inner.clone(), b.inner.clone()]) }
}

/// Relies on z3::ast::Int::unary_minus: the negation of the node.
#[verifier::external_body]
fn z3_neg(a: &EngineInt) -> EngineInt {
    EngineInt { inner: a.inner.unary_minus() }
}

/// Relies on z3::ast::Int::div: the integer quotient node.
#[verifier::external_body]
fn z3_div(a: &EngineInt, b: &EngineInt) -> EngineInt {
    EngineInt { inner: a.inner.div(b.inner.clone()) }
}

/// Relies on z3::ast::Int::modulo: the integer remainder node.
#[verifier::external_body]
fn z3_mod(a: &EngineInt, b: &EngineInt) -> EngineInt {
    EngineInt { inner: a.inner.modulo(b.inner.clone()) }
}

/// Relies on z3::ast::Bool::ite: conditional selection of an integer.
#[verifier::external_body]
fn z3_ite_int(c: &EngineBool, t: &EngineInt, e: &EngineInt) -> EngineInt {
    EngineInt { inner: c.inner.ite(&t.inner, &e.inner) }
}

/// Relies on the Ast equality constructor of z3::ast::Int.
#[verifier::external_body]
fn z3_eq(a: &EngineInt, b: &EngineInt) -> EngineBool {
    EngineBool { inner: a.inner.eq(b.inner.clone()) }
}

/// Relies on z3::ast::Int::ge.
#[verifier::external_body]
fn z3_ge(a: &EngineInt, b: &EngineInt) -> EngineBool {
    EngineBool { inner: a.inner.ge(b.inner.clone()) }
}

/// Relies on z3::ast::Int::gt.
#[verifier::external_body]
fn z3_gt(a: &EngineInt, b: &EngineInt) -> EngineBool {
    EngineBool { inner: a.inner.gt(b.inner.clone()) }
}

/// Relies on z3::ast::Int::lt.
#[verifier::external_body]
fn z3_lt(a: &EngineInt, b: &EngineInt) -> EngineBool {
    EngineBool { inner: a.inner.lt(b.inner.clone()) }
}

/// Relies on the Ast distinctness constructor over integer nodes; the
/// engine documents that the operand count must be greater than one.
#[verifier::external_body]
fn z3_distinct(xs: Vec<EngineInt>) -> EngineBool
    requires
        xs@.len() >= 2,
{
    let ops: Vec<z3::ast::Int> = xs.into_iter().map(|x| x.inner).collect();
    EngineBool { inner: z3::ast::Ast::distinct(ops.as_slice()) }
}

/// Relies on z3::ast::Bool::or; the engine documents that the operand
/// count must be greater than zero.
#[verifier::external_body]
fn z3_or(xs: Vec<EngineBool>) -> EngineBool
    requires
        xs@.len() >= 1,
{
    let ops: Vec<z3::ast::Bool> = xs.into_iter().map(|x| x.inner).collect();
    EngineBool { inner: z3::ast::Bool::or(ops.as_slice()) }
}

/// Relies on z3::ast::Bool::and; the engine documents that the operand
/// count must be greater than zero.
#[verifier::external_body]
fn z3_and(xs: Vec<EngineBool>) -> EngineBool
    requires
        xs@.len() >= 1,
{
    let ops: Vec<z3::ast::Bool> = xs.into_iter().map(|x| x.inner).collect();
    EngineBool { inner: z3::ast::Bool::and(ops.as_slice()) }
}

/// Relies on z3::ast::Bool::from_bool: a constant truth value, used for
/// node lists too short to need the engine's variadic constructors.
#[verifier::external_body]
fn z3_bool_const(v: bool) -> EngineBool {
    EngineBool { inner: z3::ast::Bool::from_bool(v) }
}

/// Relies on z3::ast::Bool::not.
#[verifier::external_body]
fn z3_not(b: &EngineBool) -> EngineBool {
    EngineBool { inner: b.inner.not() }
}

/// Relies on z3::Sort::int.
#[verifier::external_body]
fn z3_sort_int() -> EngineSort {
    EngineSort { inner: z3::Sort::int() }
}

/// Relies on z3::ast::Set::empty over a sort.
#[verifier::external_body]
fn z3_set_empty(dom: &EngineSort) -> EngineSet {
    EngineSet { inner: z3::ast::Set::empty(&dom.inner) }
}

/// Relies on z3::ast::Set::add: the set with one more member.
#[verifier::external_body]
fn z3_set_add(s: &EngineSet, e: &EngineInt) -> EngineSet {
    EngineSet { inner: s.inner.add(&e.inner) }
}

/// Relies on z3::ast::Set::member: the membership predicate.
#[verifier::external_body]
fn z3_set_member(s: &EngineSet, e: &EngineInt) -> EngineBool {
    EngineBool { inner: s.inner.member(&e.inner) }
}

/// Relies on z3::Pattern::new over two boolean terms, the matching hint
/// of the bounded existential.
#[verifier::external_body]
fn z3_pattern_pair(a: &EngineBool, b: &EngineBool) -> EnginePattern {
    EnginePattern {
        inner: z3::Pattern::new(&[&a.inner as &dyn z3::ast::Ast, &b.inner as &dyn z3::ast::Ast]),
    }
}

/// Relies on z3::ast::exists_const: a bounded existential over two fresh
/// integer variables with a pattern hint.
#[verifier::external_body]
fn z3_exists_pair(x: &EngineInt, y: &EngineInt, pat: &EnginePattern, body: &EngineBool)
    -> EngineBool {
    EngineBool {
        inner: z3::ast::exists_const(
            &[&x.inner as &dyn z3::ast::Ast, &y.inner as &dyn z3::ast::Ast],
            &[&pat.inner],
            &body.inner,
        ),
    }
}

/// Rebuilds the session's integer pool as engine nodes, one per handle;
/// the per-cell variables come from `zcells` so a model can be read back.
fn lower_ints(context: &SudokuContext, zcells: &Vec<EngineInt>) -> (r: Vec<EngineInt>)
    requires
        context.wf(),
        zcells@.len() == 81,
    ensures
        r@.len() == context.ipool().len(),
{
    let mut zints: Vec<EngineInt> = Vec::new();
    let n = context.ints().len();
    let mut i: usize = 0;
    while i < n
        invariant
            context.wf(),
            zcells@.len() == 81,
            n == context.ipool().len(),
            i <= n,
            zints@.len() == i as int,
        decreases n - i,
    {
        proof {
            assert(crate::expr::int_node_wf(context.ipool()[i as int], i as int));
        }
        let node = context.ints().get(i);
        let z = match node {
            IntExpr::Const(c) => z3_int_from_i64(*c),
            IntExpr::Var(v) => {
                if *v < 81 {
                    z3_int_dup(&zcells[*v])
                } else {
                    z3_int_fresh("C")
                }
            },
            IntExpr::Add(args) => {
                let mut ops: Vec<EngineInt> = Vec::new();
                let m = args.len();
                let mut k: usize = 0;
                while k < m
                    invariant
                        zints@.len() == i as int,
                        m == args@.len(),
                        k <= m,
                        ops@.len() == k as int,
                        forall|j: int|
                            0 <= j < args@.len() ==> ((#[trigger] args@[j]) as int) < i as int,
                    decreases m - k,
                {
                    ops.push(z3_int_dup(&zints[args[k]]));
                    k += 1;
                }
                if ops.len() == 0 {
                    // an empty sum means 0
                    z3_int_from_i64(0)
                } else {
                    z3_add(ops)
                }
            },
            IntExpr::Sub(a, b) => z3_sub(&zints[*a], &zints[*b]),
            IntExpr::Mul(a, b) => z3_mul(&zints[*a], &zints[*b]),
            IntExpr::Neg(a) => z3_neg(&zints[*a]),
            IntExpr::Div(a, b) => z3_div(&zints[*a], &zints[*b]),
            IntExpr::Mod(a, b) => z3_mod(&zints[*a], &zints[*b]),
            IntExpr::IteGt(a, b, t, e) => {
                let c = z3_gt(&zints[*a], &zints[*b]);
                z3_ite_int(&c, &zints[*t], &zints[*e])
            },
        };
        zints.push(z);
        i += 1;
    }
    zints
}

/// Rebuilds the session's boolean pool as engine nodes, one per handle.
fn lower_bools(context: &SudokuContext, zints: &Vec<EngineInt>) -> (r: Vec<EngineBool>)
    requires
        context.wf(),
        zints@.len() == context.ipool().len(),
    ensures
        r@.len() == context.bpool().len(),
{
    let mut zbools: Vec<EngineBool> = Vec::new();
    let n = context.bools().len();
    let mut i: usize = 0;
    while i < n
        invariant
            context.wf(),
            zints@.len() == context.ipool().len(),
            n == context.bpool().len(),
            i <= n,
            zbools@.len() == i as int,
        decreases n - i,
    {
        proof {
            assert(crate::expr::bool_node_wf(
                context.bpool()[i as int],
                i as int,
                context.ipool().len() as int,
            ));
        }
        let node = context.bools().get(i);
        let z = match node {
            BoolExpr::Eq(a, b) => z3_eq(&zints[*a], &zints[*b]),
            BoolExpr::Ge(a, b) => z3_ge(&zints[*a], &zints[*b]),
            BoolExpr::Gt(a, b) => z3_gt(&zints[*a], &zints[*b]),
            BoolExpr::Lt(a, b) => z3_lt(&zints[*a], &zints[*b]),
            BoolExpr::Distinct(args) => {
                let mut ops: Vec<EngineInt> = Vec::new();
                let m = args.len();
                let mut k: usize = 0;
                while k < m
                    invariant
                        zints@.len() == context.ipool().len(),
                        m == args@.len(),
                        k <= m,
                        ops@.len() == k as int,
                        forall|j: int|
                            0 <= j < args@.len() ==> ((#[trigger] args@[j]) as int)
                                < zints@.len(),
                    decreases m - k,
                {
                    ops.push(z3_int_dup(&zints[args[k]]));
                    k += 1;
                }
                if ops.len() < 2 {
                    // fewer than two operands are vacuously pairwise different
                    z3_bool_const(true)
                } else {
                    z3_distinct(ops)
                }
            },
            BoolExpr::Or(args) => {
                let mut ops: Vec<EngineBool> = Vec::new();
                let m = args.len();
                let mut k: usize = 0;
                while k < m
                    invariant
                        zbools@.len() == i as int,
                        m == args@.len(),
                        k <= m,
                        ops@.len() == k as int,
                        forall|j: int|
                            0 <= j < args@.len() ==> ((#[trigger] args@[j]) as int) < i as int,
                    decreases m - k,
                {
                    ops.push(z3_bool_dup(&zbools[args[k]]));
                    k += 1;
                }
                if ops.len() == 0 {
                    // an empty disjunction means false
                    z3_bool_const(false)
                } else {
                    z3_or(ops)
                }
            },
            BoolExpr::And(args) => {
                let mut ops: Vec<EngineBool> = Vec::new();
                let m = args.len();
                let mut k: usize = 0;
                while k < m
                    invariant
                        zbools@.len() == i as int,
                        m == args@.len(),
                        k <= m,
                        ops@.len() == k as int,
                        forall|j: int|
                            0 <= j < args@.len() ==> ((#[trigger] args@[j]) as int) < i as int,
                    decreases m - k,
                {
                    ops.push(z3_bool_dup(&zbools[args[k]]));
                    k += 1;
                }
                if ops.len() == 0 {
                    // an empty conjunction means true
                    z3_bool_const(true)
                } else {
                    z3_and(ops)
                }
            },
            BoolExpr::Not(b) => z3_not(&zbools[*b]),
            BoolExpr::ExistsPairGap(args, gap) => {
                let sort = z3_sort_int();
                let mut set = z3_set_empty(&sort);
                let m = args.len();
                let mut k: usize = 0;
                while k < m
                    invariant
                        zints@.len() == context.ipool().len(),
                        m == args@.len(),
                        k <= m,
                        forall|j: int|
                            0 <= j < args@.len() ==> ((#[trigger] args@[j]) as int)
                                < zints@.len(),
                    decreases m - k,
                {
                    set = z3_set_add(&set, &zints[args[k]]);
                    k += 1;
                }
                let x = z3_int_fresh("x");
                let y = z3_int_fresh("y");
                let x_in = z3_set_member(&set, &x);
                let y_in = z3_set_member(&set, &y);
                let pat = z3_pattern_pair(&x_in, &y_in);
                let gapc = z3_int_from_i64(*gap);
                let d = z3_sub(&y, &x);
                let ge = z3_ge(&d, &gapc);
                let mut spanargs: Vec<EngineBool> = Vec::new();
                spanargs.push(ge);
                let span = z3_or(spanargs);
                let mut body: Vec<EngineBool> = Vec::new();
                body.push(z3_bool_dup(&x_in));
                body.push(z3_bool_dup(&y_in));
                body.push(span);
                let conj = z3_and(body);
                z3_exists_pair(&x, &y, &pat, &conj)
            },
        };
        zbools.push(z);
        i += 1;
    }
    zbools
}

/// Hands the compiled assertions to the engine under a five second time
/// budget and reads one value per cell out of a model.
fn engine_check(context: &SudokuContext, solver: &AssertionList) -> (r: EngineVerdict)
    requires
        context.wf(),
        log_wf(context, solver@),
    ensures
        r matches EngineVerdict::Sat(v) ==> v@.len() == 81,
{
    let tactic = z3_tactic_new("smt");
    let zs = z3_solver_from_tactic(&tactic);
    let mut params = z3_params_new();
    z3_params_set_u32(&mut params, "timeout", 5000);
    z3_solver_set_params(&zs, &params);
    let mut zcells: Vec<EngineInt> = Vec::new();
    let mut k: usize = 0;
    while k < 81
        invariant
            zcells@.len() == k as int,
            k <= 81,
        decreases 81 - k,
    {
        zcells.push(z3_int_fresh("C"));
        k += 1;
    }
    let zints = lower_ints(context, &zcells);
    let zbools = lower_bools(context, &zints);
    let n = solver.len();
    let mut i: usize = 0;
    while i < n
        invariant
            context.wf(),
            log_wf(context, solver@),
            zbools@.len() == context.bpool().len(),
            n == solver@.len(),
            i <= n,
        decreases n - i,
    {
        let b = solver.get(i);
        z3_solver_assert(&zs, &zbools[b]);
        i += 1;
    }
    let outcome = z3_solver_check(&zs);
    match outcome {
        EngineAnswer::Unsat => {
            return EngineVerdict::Unsat;
        },
        EngineAnswer::Unknown => {
            return EngineVerdict::Unknown;
        },
        EngineAnswer::Sat => {},
    }
    let model = match z3_solver_get_model(&zs) {
        Some(m) => m,
        None => {
            return EngineVerdict::Unknown;
        },
    };
    let mut values: Vec<i64> = Vec::new();
    let mut k2: usize = 0;
    while k2 < 81
        invariant
            zcells@.len() == 81,
            values@.len() == k2 as int,
            k2 <= 81,
        decreases 81 - k2,
    {
        let zi = match z3_model_eval_int(&model, &zcells[k2]) {
            Some(z) => z,
            None => {
                return EngineVerdict::Unknown;
            },
        };
        let v = match z3_int_as_i64(&zi) {
            Some(v) => v,
            None => {
                return EngineVerdict::Unknown;
            },
        };
        values.push(v);
        k2 += 1;
    }
    EngineVerdict::Sat(values)
}

/// Runs one whole solve attempt: validate every configured rule up
/// front, compile a frozen snapshot of the rule list into a fresh
/// session, hand the assertions to the engine, and decode a checked
/// model into a digit grid.
///
/// A rejected input performs no engine work at all; a returned solution
/// is guaranteed to satisfy the full meaning of the puzzle.
pub fn solve(givens: &Vec<Option<i32>>, rules: &Vec<Rule>) -> (r: (
    SolveResult,
    Option<Vec<i32>>,
))
    requires
        givens@.len() == 81,
        rules_shape_ok(rules@),
    ensures
        (r.0 is InvalidInput) <==> !rules_valid(rules@),
        r.0 is Solved ==> ({
            let sol = r.1.unwrap()@;
            &&& r.1 is Some
            &&& sol.len() == 81
            &&& forall|k: int| 0 <= k < 81 ==> 1 <= #[trigger] sol[k] <= 9
            &&& puzzle_sem(givens@, rules@, crate::solver::asg_of(sol))
        }),
        !(r.0 is Solved) ==> r.1 is None,
{
    if !validate(rules) {
        return (SolveResult::InvalidInput, None);
    }
    proof {
        crate::solver::lemma_valid_shape_gives_wf(rules@);
    }
    let (context, assertions) = compile(givens, rules);
    let verdict = engine_check(&context, &assertions);
    let (res, sol) = decide(&context, &assertions, &verdict);
    proof {
        if res is Solved {
            assert(crate::sudoku::full_asg(crate::solver::asg_of(sol.unwrap()@)));
        }
    }
    (res, sol)
}

} // verus!
