use vstd::prelude::*;

verus! {

/// Handle of an integer-valued expression node in a session's integer pool.
pub type IntId = usize;

/// Handle of a boolean-valued expression node in a session's boolean pool.
pub type BoolId = usize;

/// An integer-valued expression over the puzzle's cell variables.
///
/// Nodes reference their operands by handle; a well-formed pool only lets a
/// node reference integer nodes allocated before it, so every expression is
/// finite and its meaning is defined by structural recursion on handles.
pub enum IntExpr {
    /// A literal integer constant.
    Const(i64),
    /// The cell variable with the given flat index.
    Var(usize),
    /// The sum of the listed operands (zero operands sum to 0).
    Add(Vec<IntId>),
    /// First operand minus second operand.
    Sub(IntId, IntId),
    /// Product of the two operands.
    Mul(IntId, IntId),
    /// Arithmetic negation.
    Neg(IntId),
    /// Euclidean quotient of the two operands (0 when dividing by 0).
    Div(IntId, IntId),
    /// Euclidean remainder of the two operands (0 when dividing by 0).
    Mod(IntId, IntId),
    /// `IteGt(a, b, t, e)` selects `t` when `a > b` holds, else `e`.
    IteGt(IntId, IntId, IntId, IntId),
}

/// A boolean-valued expression over the puzzle's cell variables.
pub enum BoolExpr {
    /// Equality of two integer expressions.
    Eq(IntId, IntId),
    /// First integer operand is at least the second.
    Ge(IntId, IntId),
    /// First integer operand is strictly greater than the second.
    Gt(IntId, IntId),
    /// First integer operand is strictly less than the second.
    Lt(IntId, IntId),
    /// The listed integer expressions take pairwise different values.
    Distinct(Vec<IntId>),
    /// Disjunction of the listed boolean expressions.
    Or(Vec<BoolId>),
    /// Conjunction of the listed boolean expressions.
    And(Vec<BoolId>),
    /// Negation of a boolean expression.
    Not(BoolId),
    /// There are two (not necessarily different) members of the listed
    /// expressions whose values differ by at least the given gap.
    ExistsPairGap(Vec<IntId>, i64),
}

/// Well-formedness of one integer node at position `i`: every integer
/// operand was allocated strictly earlier.
pub open spec fn int_node_wf(e: IntExpr, i: int) -> bool {
    match e {
        IntExpr::Const(_) => true,
        IntExpr::Var(_) => true,
        IntExpr::Add(args) => forall|k: int| 0 <= k < args@.len() ==> (#[trigger] args@[k]) < i,
        IntExpr::Sub(a, b) => (a as int) < i && (b as int) < i,
        IntExpr::Mul(a, b) => (a as int) < i && (b as int) < i,
        IntExpr::Neg(a) => (a as int) < i,
        IntExpr::Div(a, b) => (a as int) < i && (b as int) < i,
        IntExpr::Mod(a, b) => (a as int) < i && (b as int) < i,
        IntExpr::IteGt(a, b, t, e2) => (a as int) < i && (b as int) < i && (t as int) < i
            && (e2 as int) < i,
    }
}

/// Well-formedness of a whole integer pool.
pub open spec fn ints_wf(ints: Seq<IntExpr>) -> bool {
    forall|i: int| 0 <= i < ints.len() ==> int_node_wf(#[trigger] ints[i], i)
}

/// Well-formedness of one boolean node at position `i`: boolean operands
/// were allocated strictly earlier and integer operands lie in a pool of
/// length `nints`.
pub open spec fn bool_node_wf(e: BoolExpr, i: int, nints: int) -> bool {
    match e {
        BoolExpr::Eq(a, b) => (a as int) < nints && (b as int) < nints,
        BoolExpr::Ge(a, b) => (a as int) < nints && (b as int) < nints,
        BoolExpr::Gt(a, b) => (a as int) < nints && (b as int) < nints,
        BoolExpr::Lt(a, b) => (a as int) < nints && (b as int) < nints,
        BoolExpr::Distinct(args) => forall|k: int|
            0 <= k < args@.len() ==> (#[trigger] args@[k]) < nints,
        BoolExpr::Or(args) => forall|k: int| 0 <= k < args@.len() ==> (#[trigger] args@[k]) < i,
        BoolExpr::And(args) => forall|k: int| 0 <= k < args@.len() ==> (#[trigger] args@[k]) < i,
        BoolExpr::Not(b) => (b as int) < i,
        BoolExpr::ExistsPairGap(args, _) => forall|k: int|
            0 <= k < args@.len() ==> (#[trigger] args@[k]) < nints,
    }
}

/// Well-formedness of a whole boolean pool against an integer pool length.
pub open spec fn bools_wf(bools: Seq<BoolExpr>, nints: int) -> bool {
    forall|i: int| 0 <= i < bools.len() ==> bool_node_wf(#[trigger] bools[i], i, nints)
}

/// Sum of a sequence of integers.
pub open spec fn sum_of(s: Seq<int>) -> int
    decreases s.len(),
{
    if s.len() == 0 {
        0
    } else {
        sum_of(s.drop_last()) + s.last()
    }
}

/// The sum of a two-element sequence is the sum of its two members.
pub proof fn lemma_sum_pair(s: Seq<int>)
    requires
        s.len() == 2,
    ensures
        sum_of(s) == s[0] + s[1],
{
    assert(s.drop_last().drop_last() =~= Seq::<int>::empty());
    assert(sum_of(s.drop_last().drop_last()) == 0);
    assert(sum_of(s.drop_last()) == sum_of(s.drop_last().drop_last()) + s.drop_last().last());
    assert(s.drop_last().last() == s[0]);
}

/// The listed values are pairwise different.
pub open spec fn pairwise_distinct(s: Seq<int>) -> bool {
    forall|p: int, q: int| 0 <= p < q < s.len() ==> s[p] != s[q]
}

/// Value of the integer node `i` under the cell assignment `asg`.
///
/// Handles out of range and variables beyond the assignment evaluate to 0;
/// a well-formed pool never reaches those cases.
pub open spec fn eval_int(ints: Seq<IntExpr>, i: int, asg: Seq<int>) -> int
    decreases i, 1int, 0int,
{
    if 0 <= i < ints.len() {
        match ints[i] {
            IntExpr::Const(c) => c as int,
            IntExpr::Var(v) => if (v as int) < asg.len() {
                asg[v as int]
            } else {
                0
            },
            IntExpr::Add(args) => sum_of(eval_int_list(ints, args@, asg, i)),
            IntExpr::Sub(a, b) => eval_at(ints, a, asg, i) - eval_at(ints, b, asg, i),
            IntExpr::Mul(a, b) => eval_at(ints, a, asg, i) * eval_at(ints, b, asg, i),
            IntExpr::Neg(a) => -eval_at(ints, a, asg, i),
            IntExpr::Div(a, b) => if eval_at(ints, b, asg, i) == 0 {
                0
            } else {
                eval_at(ints, a, asg, i) / eval_at(ints, b, asg, i)
            },
            IntExpr::Mod(a, b) => if eval_at(ints, b, asg, i) == 0 {
                0
            } else {
                eval_at(ints, a, asg, i) % eval_at(ints, b, asg, i)
            },
            IntExpr::IteGt(a, b, t, e) => if eval_at(ints, a, asg, i) > eval_at(
                ints,
                b,
                asg,
                i,
            ) {
                eval_at(ints, t, asg, i)
            } else {
                eval_at(ints, e, asg, i)
            },
        }
    } else {
        0
    }
}

/// Value of the integer node `a` when it is known to lie below `bound`.
pub open spec fn eval_at(ints: Seq<IntExpr>, a: usize, asg: Seq<int>, bound: int) -> int
    decreases bound, 0int, 0int,
{
    if (a as int) < bound {
        eval_int(ints, a as int, asg)
    } else {
        0
    }
}

/// Values of a list of integer nodes lying below `bound`, in order.
pub open spec fn eval_int_list(ints: Seq<IntExpr>, args: Seq<usize>, asg: Seq<int>, bound: int)
    -> Seq<int>
    decreases bound, 0int, args.len(),
{
    if args.len() == 0 {
        Seq::empty()
    } else {
        eval_int_list(ints, args.drop_last(), asg, bound).push(
            eval_at(ints, args.last(), asg, bound),
        )
    }
}

/// Value of any valid integer node (0 for an out-of-range handle).
pub open spec fn int_val(ints: Seq<IntExpr>, a: usize, asg: Seq<int>) -> int {
    eval_at(ints, a, asg, ints.len() as int)
}

/// Values of a list of integer node handles, in order.
pub open spec fn int_vals(ints: Seq<IntExpr>, args: Seq<usize>, asg: Seq<int>) -> Seq<int> {
    Seq::new(args.len(), |k: int| int_val(ints, args[k], asg))
}

/// Truth of the boolean node `i` under the cell assignment `asg`.
pub open spec fn eval_bool(bools: Seq<BoolExpr>, ints: Seq<IntExpr>, i: int, asg: Seq<int>)
    -> bool
    decreases i, 1int, 0int,
{
    if 0 <= i < bools.len() {
        match bools[i] {
            BoolExpr::Eq(a, b) => int_val(ints, a, asg) == int_val(ints, b, asg),
            BoolExpr::Ge(a, b) => int_val(ints, a, asg) >= int_val(ints, b, asg),
            BoolExpr::Gt(a, b) => int_val(ints, a, asg) > int_val(ints, b, asg),
            BoolExpr::Lt(a, b) => int_val(ints, a, asg) < int_val(ints, b, asg),
            BoolExpr::Distinct(args) => pairwise_distinct(int_vals(ints, args@, asg)),
            BoolExpr::Or(args) => exists|k: int|
                0 <= k < args@.len() && eval_bool_at(bools, ints, #[trigger] args@[k], asg, i),
            BoolExpr::And(args) => forall|k: int|
                0 <= k < args@.len() ==> eval_bool_at(bools, ints, #[trigger] args@[k], asg, i),
            BoolExpr::Not(b) => !eval_bool_at(bools, ints, b, asg, i),
            BoolExpr::ExistsPairGap(args, gap) => exists_pair_gap(
                int_vals(ints, args@, asg),
                gap as int,
            ),
        }
    } else {
        false
    }
}

/// Truth of the boolean node `b` when it is known to lie below `bound`.
pub open spec fn eval_bool_at(
    bools: Seq<BoolExpr>,
    ints: Seq<IntExpr>,
    b: usize,
    asg: Seq<int>,
    bound: int,
) -> bool
    decreases bound, 0int, 0int,
{
    if (b as int) < bound {
        eval_bool(bools, ints, b as int, asg)
    } else {
        false
    }
}

/// Truth of any valid boolean node (false for an out-of-range handle).
pub open spec fn bool_val(bools: Seq<BoolExpr>, ints: Seq<IntExpr>, b: usize, asg: Seq<int>)
    -> bool {
    eval_bool_at(bools, ints, b, asg, bools.len() as int)
}

/// Two values among `vals` differ by at least `gap`.
pub open spec fn exists_pair_gap(vals: Seq<int>, gap: int) -> bool {
    exists|j: int, k: int| 0 <= j < vals.len() && 0 <= k < vals.len() && vals[k] - vals[j] >= gap
}

/// Value an integer node has when appended to the pool `ints`, stated over
/// the values its operands already have in `ints`.
pub open spec fn int_node_val(ints: Seq<IntExpr>, node: IntExpr, asg: Seq<int>) -> int {
    match node {
        IntExpr::Const(c) => c as int,
        IntExpr::Var(v) => if (v as int) < asg.len() {
            asg[v as int]
        } else {
            0
        },
        IntExpr::Add(args) => sum_of(int_vals(ints, args@, asg)),
        IntExpr::Sub(a, b) => int_val(ints, a, asg) - int_val(ints, b, asg),
        IntExpr::Mul(a, b) => int_val(ints, a, asg) * int_val(ints, b, asg),
        IntExpr::Neg(a) => -int_val(ints, a, asg),
        IntExpr::Div(a, b) => if int_val(ints, b, asg) == 0 {
            0
        } else {
            int_val(ints, a, asg) / int_val(ints, b, asg)
        },
        IntExpr::Mod(a, b) => if int_val(ints, b, asg) == 0 {
            0
        } else {
            int_val(ints, a, asg) % int_val(ints, b, asg)
        },
        IntExpr::IteGt(a, b, t, e) => if int_val(ints, a, asg) > int_val(ints, b, asg) {
            int_val(ints, t, asg)
        } else {
            int_val(ints, e, asg)
        },
    }
}

/// Truth a boolean node has when appended to the pool `bools`, stated over
/// the values its operands already have in the pools.
pub open spec fn bool_node_val(
    bools: Seq<BoolExpr>,
    ints: Seq<IntExpr>,
    node: BoolExpr,
    asg: Seq<int>,
) -> bool {
    match node {
        BoolExpr::Eq(a, b) => int_val(ints, a, asg) == int_val(ints, b, asg),
        BoolExpr::Ge(a, b) => int_val(ints, a, asg) >= int_val(ints, b, asg),
        BoolExpr::Gt(a, b) => int_val(ints, a, asg) > int_val(ints, b, asg),
        BoolExpr::Lt(a, b) => int_val(ints, a, asg) < int_val(ints, b, asg),
        BoolExpr::Distinct(args) => pairwise_distinct(int_vals(ints, args@, asg)),
        BoolExpr::Or(args) => exists|k: int|
            0 <= k < args@.len() && bool_val(bools, ints, #[trigger] args@[k], asg),
        BoolExpr::And(args) => forall|k: int|
            0 <= k < args@.len() ==> bool_val(bools, ints, #[trigger] args@[k], asg),
        BoolExpr::Not(b) => !bool_val(bools, ints, b, asg),
        BoolExpr::ExistsPairGap(args, gap) => exists_pair_gap(
            int_vals(ints, args@, asg),
            gap as int,
        ),
    }
}

/// Appending a well-formed integer node gives it exactly the value stated
/// by `int_node_val` over the old pool.
pub proof fn lemma_push_int_val(ints: Seq<IntExpr>, node: IntExpr, r: usize, asg: Seq<int>)
    requires
        int_node_wf(node, ints.len() as int),
        r as int == ints.len(),
    ensures
        int_val(ints.push(node), r, asg) == int_node_val(ints, node, asg),
{
    reveal_with_fuel(eval_int, 3);
    reveal_with_fuel(eval_at, 3);
    let ints2 = ints.push(node);
    assert(ints2[r as int] == node);
    assert(int_val(ints2, r, asg) == eval_int(ints2, r as int, asg));
    match node {
        IntExpr::Add(args) => {
            lemma_eval_int_list_vals(ints, ints2, args@, asg, r as int);
        },
        IntExpr::Sub(a, b) => {
            lemma_eval_int_prefix(ints, ints2, a as int, asg);
            lemma_eval_int_prefix(ints, ints2, b as int, asg);
        },
        IntExpr::Mul(a, b) => {
            lemma_eval_int_prefix(ints, ints2, a as int, asg);
            lemma_eval_int_prefix(ints, ints2, b as int, asg);
        },
        IntExpr::Neg(a) => {
            lemma_eval_int_prefix(ints, ints2, a as int, asg);
        },
        IntExpr::Div(a, b) => {
            lemma_eval_int_prefix(ints, ints2, a as int, asg);
            lemma_eval_int_prefix(ints, ints2, b as int, asg);
        },
        IntExpr::Mod(a, b) => {
            lemma_eval_int_prefix(ints, ints2, a as int, asg);
            lemma_eval_int_prefix(ints, ints2, b as int, asg);
        },
        IntExpr::IteGt(a, b, t, e) => {
            lemma_eval_int_prefix(ints, ints2, a as int, asg);
            lemma_eval_int_prefix(ints, ints2, b as int, asg);
            lemma_eval_int_prefix(ints, ints2, t as int, asg);
            lemma_eval_int_prefix(ints, ints2, e as int, asg);
        },
        _ => {},
    }
}

/// Appending a well-formed boolean node gives it exactly the truth stated
/// by `bool_node_val` over the old pools.
pub proof fn lemma_push_bool_val(
    bools: Seq<BoolExpr>,
    ints: Seq<IntExpr>,
    node: BoolExpr,
    r: usize,
    asg: Seq<int>,
)
    requires
        bools_wf(bools, ints.len() as int),
        bool_node_wf(node, bools.len() as int, ints.len() as int),
        r as int == bools.len(),
    ensures
        bool_val(bools.push(node), ints, r, asg) == bool_node_val(bools, ints, node, asg),
{
    reveal_with_fuel(eval_bool, 3);
    reveal_with_fuel(eval_bool_at, 3);
    let bools2 = bools.push(node);
    assert(bools2[r as int] == node);
    assert(bool_val(bools2, ints, r, asg) == eval_bool(bools2, ints, r as int, asg));
    match node {
        BoolExpr::Eq(a, b) => {
            assert(eval_bool(bools2, ints, r as int, asg) == (int_val(ints, a, asg) == int_val(
                ints,
                b,
                asg,
            )));
        },
        BoolExpr::Ge(a, b) => {
            assert(eval_bool(bools2, ints, r as int, asg) == (int_val(ints, a, asg) >= int_val(
                ints,
                b,
                asg,
            )));
        },
        BoolExpr::Gt(a, b) => {
            assert(eval_bool(bools2, ints, r as int, asg) == (int_val(ints, a, asg) > int_val(
                ints,
                b,
                asg,
            )));
        },
        BoolExpr::Lt(a, b) => {
            assert(eval_bool(bools2, ints, r as int, asg) == (int_val(ints, a, asg) < int_val(
                ints,
                b,
                asg,
            )));
        },
        BoolExpr::Distinct(args) => {
            assert(eval_bool(bools2, ints, r as int, asg) == pairwise_distinct(
                int_vals(ints, args@, asg),
            ));
        },
        BoolExpr::ExistsPairGap(args, gap) => {
            assert(eval_bool(bools2, ints, r as int, asg) == exists_pair_gap(
                int_vals(ints, args@, asg),
                gap as int,
            ));
        },
        BoolExpr::Or(args) => {
            assert forall|k: int| 0 <= k < args@.len() implies eval_bool_at(
                bools2,
                ints,
                #[trigger] args@[k],
                asg,
                r as int,
            ) == bool_val(bools, ints, args@[k], asg) by {
                lemma_eval_bool_prefix(bools, bools2, ints, ints, args@[k] as int, asg);
            }
            if eval_bool(bools2, ints, r as int, asg) {
                let k = choose|k: int|
                    0 <= k < args@.len() && eval_bool_at(bools2, ints, #[trigger] args@[k], asg, r as int);
                assert(bool_val(bools, ints, args@[k], asg));
            }
            if bool_node_val(bools, ints, node, asg) {
                let k = choose|k: int|
                    0 <= k < args@.len() && bool_val(bools, ints, #[trigger] args@[k], asg);
                assert(eval_bool_at(bools2, ints, args@[k], asg, r as int));
            }
            assert(eval_bool(bools2, ints, r as int, asg) == bool_node_val(
                bools,
                ints,
                node,
                asg,
            ));
        },
        BoolExpr::And(args) => {
            assert forall|k: int| 0 <= k < args@.len() implies eval_bool_at(
                bools2,
                ints,
                #[trigger] args@[k],
                asg,
                r as int,
            ) == bool_val(bools, ints, args@[k], asg) by {
                lemma_eval_bool_prefix(bools, bools2, ints, ints, args@[k] as int, asg);
            }
            assert(eval_bool(bools2, ints, r as int, asg) == bool_node_val(
                bools,
                ints,
                node,
                asg,
            ));
        },
        BoolExpr::Not(b) => {
            lemma_eval_bool_prefix(bools, bools2, ints, ints, b as int, asg);
            assert(eval_bool(bools2, ints, r as int, asg) == !bool_val(bools, ints, b, asg));
        },
    }
}

/// In a well-formed pool, a node's value unfolds to `int_node_val` of its
/// stored node over the same pool.
pub proof fn lemma_int_val_unfold(ints: Seq<IntExpr>, a: usize, asg: Seq<int>)
    requires
        ints_wf(ints),
        (a as int) < ints.len(),
    ensures
        int_val(ints, a, asg) == int_node_val(ints, ints[a as int], asg),
{
    reveal_with_fuel(eval_int, 3);
    reveal_with_fuel(eval_at, 3);
    assert(int_node_wf(ints[a as int], a as int));
    match ints[a as int] {
        IntExpr::Add(args) => {
            lemma_eval_int_list_vals(ints, ints, args@, asg, a as int);
        },
        _ => {},
    }
}

/// In well-formed pools, a node's truth unfolds to `bool_node_val` of its
/// stored node over the same pools.
pub proof fn lemma_bool_val_unfold(
    bools: Seq<BoolExpr>,
    ints: Seq<IntExpr>,
    b: usize,
    asg: Seq<int>,
)
    requires
        bools_wf(bools, ints.len() as int),
        (b as int) < bools.len(),
    ensures
        bool_val(bools, ints, b, asg) == bool_node_val(bools, ints, bools[b as int], asg),
{
    reveal_with_fuel(eval_bool, 3);
    reveal_with_fuel(eval_bool_at, 3);
    assert(bool_node_wf(bools[b as int], b as int, ints.len() as int));
    match bools[b as int] {
        BoolExpr::Or(args) => {
            assert forall|k: int| 0 <= k < args@.len() implies eval_bool_at(
                bools,
                ints,
                #[trigger] args@[k],
                asg,
                b as int,
            ) == bool_val(bools, ints, args@[k], asg) by {}
            assert(eval_bool(bools, ints, b as int, asg) == bool_node_val(
                bools,
                ints,
                bools[b as int],
                asg,
            ));
        },
        BoolExpr::And(args) => {
            assert forall|k: int| 0 <= k < args@.len() implies eval_bool_at(
                bools,
                ints,
                #[trigger] args@[k],
                asg,
                b as int,
            ) == bool_val(bools, ints, args@[k], asg) by {}
            assert(eval_bool(bools, ints, b as int, asg) == bool_node_val(
                bools,
                ints,
                bools[b as int],
                asg,
            ));
        },
        _ => {},
    }
}

/// Evaluation of an integer node only depends on the pool prefix up to the
/// node itself, so growing the pool never changes the value of an existing
/// node.
pub proof fn lemma_eval_int_prefix(
    ints1: Seq<IntExpr>,
    ints2: Seq<IntExpr>,
    i: int,
    asg: Seq<int>,
)
    requires
        ints1.len() <= ints2.len(),
        forall|j: int| 0 <= j < ints1.len() ==> ints2[j] == ints1[j],
        0 <= i < ints1.len(),
    ensures
        eval_int(ints2, i, asg) == eval_int(ints1, i, asg),
    decreases i, 1int, 0int,
{
    match ints1[i] {
        IntExpr::Add(args) => {
            lemma_eval_int_list_prefix(ints1, ints2, args@, asg, i);
        },
        IntExpr::Sub(a, b) => {
            lemma_eval_at_prefix(ints1, ints2, a, asg, i);
            lemma_eval_at_prefix(ints1, ints2, b, asg, i);
        },
        IntExpr::Mul(a, b) => {
            lemma_eval_at_prefix(ints1, ints2, a, asg, i);
            lemma_eval_at_prefix(ints1, ints2, b, asg, i);
        },
        IntExpr::Neg(a) => {
            lemma_eval_at_prefix(ints1, ints2, a, asg, i);
        },
        IntExpr::Div(a, b) => {
            lemma_eval_at_prefix(ints1, ints2, a, asg, i);
            lemma_eval_at_prefix(ints1, ints2, b, asg, i);
        },
        IntExpr::Mod(a, b) => {
            lemma_eval_at_prefix(ints1, ints2, a, asg, i);
            lemma_eval_at_prefix(ints1, ints2, b, asg, i);
        },
        IntExpr::IteGt(a, b, t, e) => {
            lemma_eval_at_prefix(ints1, ints2, a, asg, i);
            lemma_eval_at_prefix(ints1, ints2, b, asg, i);
            lemma_eval_at_prefix(ints1, ints2, t, asg, i);
            lemma_eval_at_prefix(ints1, ints2, e, asg, i);
        },
        _ => {},
    }
}

proof fn lemma_eval_at_prefix(
    ints1: Seq<IntExpr>,
    ints2: Seq<IntExpr>,
    a: usize,
    asg: Seq<int>,
    bound: int,
)
    requires
        ints1.len() <= ints2.len(),
        forall|j: int| 0 <= j < ints1.len() ==> ints2[j] == ints1[j],
        bound <= ints1.len(),
    ensures
        eval_at(ints2, a, asg, bound) == eval_at(ints1, a, asg, bound),
    decreases bound, 0int, 0int,
{
    if (a as int) < bound {
        lemma_eval_int_prefix(ints1, ints2, a as int, asg);
    }
}

proof fn lemma_eval_int_list_prefix(
    ints1: Seq<IntExpr>,
    ints2: Seq<IntExpr>,
    args: Seq<usize>,
    asg: Seq<int>,
    bound: int,
)
    requires
        ints1.len() <= ints2.len(),
        forall|j: int| 0 <= j < ints1.len() ==> ints2[j] == ints1[j],
        bound <= ints1.len(),
    ensures
        eval_int_list(ints2, args, asg, bound) == eval_int_list(ints1, args, asg, bound),
    decreases bound, 0int, args.len(),
{
    if args.len() > 0 {
        lemma_eval_int_list_prefix(ints1, ints2, args.drop_last(), asg, bound);
        lemma_eval_at_prefix(ints1, ints2, args.last(), asg, bound);
    }
}

/// The value of a valid integer node is unchanged when either pool grows.
pub proof fn lemma_int_val_prefix(
    ints1: Seq<IntExpr>,
    ints2: Seq<IntExpr>,
    a: usize,
    asg: Seq<int>,
)
    requires
        ints1.len() <= ints2.len(),
        forall|j: int| 0 <= j < ints1.len() ==> ints2[j] == ints1[j],
        (a as int) < ints1.len(),
    ensures
        int_val(ints2, a, asg) == int_val(ints1, a, asg),
{
    lemma_eval_int_prefix(ints1, ints2, a as int, asg);
}

/// Truth of an existing boolean node is unchanged when either pool grows,
/// provided the node was well formed against the old integer pool.
pub proof fn lemma_eval_bool_prefix(
    bools1: Seq<BoolExpr>,
    bools2: Seq<BoolExpr>,
    ints1: Seq<IntExpr>,
    ints2: Seq<IntExpr>,
    i: int,
    asg: Seq<int>,
)
    requires
        ints1.len() <= ints2.len(),
        forall|j: int| 0 <= j < ints1.len() ==> ints2[j] == ints1[j],
        bools1.len() <= bools2.len(),
        forall|j: int| 0 <= j < bools1.len() ==> bools2[j] == bools1[j],
        bools_wf(bools1, ints1.len() as int),
        0 <= i < bools1.len(),
    ensures
        eval_bool(bools2, ints2, i, asg) == eval_bool(bools1, ints1, i, asg),
    decreases i, 1int, 0int,
{
    assert(bool_node_wf(bools1[i], i, ints1.len() as int));
    match bools1[i] {
        BoolExpr::Eq(a, b) => {
            lemma_int_val_prefix(ints1, ints2, a, asg);
            lemma_int_val_prefix(ints1, ints2, b, asg);
        },
        BoolExpr::Ge(a, b) => {
            lemma_int_val_prefix(ints1, ints2, a, asg);
            lemma_int_val_prefix(ints1, ints2, b, asg);
        },
        BoolExpr::Gt(a, b) => {
            lemma_int_val_prefix(ints1, ints2, a, asg);
            lemma_int_val_prefix(ints1, ints2, b, asg);
        },
        BoolExpr::Lt(a, b) => {
            lemma_int_val_prefix(ints1, ints2, a, asg);
            lemma_int_val_prefix(ints1, ints2, b, asg);
        },
        BoolExpr::Distinct(args) => {
            lemma_int_vals_prefix(ints1, ints2, args@, asg);
        },
        BoolExpr::Or(args) => {
            assert forall|k: int| 0 <= k < args@.len() implies eval_bool_at(
                bools2,
                ints2,
                #[trigger] args@[k],
                asg,
                i,
            ) == eval_bool_at(bools1, ints1, args@[k], asg, i) by {
                lemma_eval_bool_at_prefix(bools1, bools2, ints1, ints2, args@[k], asg, i);
            }
        },
        BoolExpr::And(args) => {
            assert forall|k: int| 0 <= k < args@.len() implies eval_bool_at(
                bools2,
                ints2,
                #[trigger] args@[k],
                asg,
                i,
            ) == eval_bool_at(bools1, ints1, args@[k], asg, i) by {
                lemma_eval_bool_at_prefix(bools1, bools2, ints1, ints2, args@[k], asg, i);
            }
        },
        BoolExpr::Not(b) => {
            lemma_eval_bool_at_prefix(bools1, bools2, ints1, ints2, b, asg, i);
        },
        BoolExpr::ExistsPairGap(args, _) => {
            lemma_int_vals_prefix(ints1, ints2, args@, asg);
        },
    }
}

proof fn lemma_eval_bool_at_prefix(
    bools1: Seq<BoolExpr>,
    bools2: Seq<BoolExpr>,
    ints1: Seq<IntExpr>,
    ints2: Seq<IntExpr>,
    b: usize,
    asg: Seq<int>,
    bound: int,
)
    requires
        ints1.len() <= ints2.len(),
        forall|j: int| 0 <= j < ints1.len() ==> ints2[j] == ints1[j],
        bools1.len() <= bools2.len(),
        forall|j: int| 0 <= j < bools1.len() ==> bools2[j] == bools1[j],
        bools_wf(bools1, ints1.len() as int),
        bound <= bools1.len(),
    ensures
        eval_bool_at(bools2, ints2, b, asg, bound) == eval_bool_at(bools1, ints1, b, asg, bound),
    decreases bound, 0int, 0int,
{
    if (b as int) < bound {
        lemma_eval_bool_prefix(bools1, bools2, ints1, ints2, b as int, asg);
    }
}

/// Values of a list of integer nodes are unchanged when the pool grows.
pub proof fn lemma_int_vals_prefix(
    ints1: Seq<IntExpr>,
    ints2: Seq<IntExpr>,
    args: Seq<usize>,
    asg: Seq<int>,
)
    requires
        ints1.len() <= ints2.len(),
        forall|j: int| 0 <= j < ints1.len() ==> ints2[j] == ints1[j],
        forall|k: int| 0 <= k < args.len() ==> (#[trigger] args[k] as int) < ints1.len(),
    ensures
        int_vals(ints2, args, asg) == int_vals(ints1, args, asg),
{
    assert forall|k: int| 0 <= k < args.len() implies int_val(ints2, #[trigger] args[k], asg)
        == int_val(ints1, args[k], asg) by {
        lemma_int_val_prefix(ints1, ints2, args[k], asg);
    }
    assert(int_vals(ints2, args, asg) =~= int_vals(ints1, args, asg));
}

/// Evaluating a list of nodes under a bound that covers them all gives
/// exactly their values in the (possibly shorter) original pool.
pub proof fn lemma_eval_int_list_vals(
    ints1: Seq<IntExpr>,
    ints2: Seq<IntExpr>,
    args: Seq<usize>,
    asg: Seq<int>,
    bound: int,
)
    requires
        ints1.len() <= ints2.len(),
        forall|j: int| 0 <= j < ints1.len() ==> ints2[j] == ints1[j],
        forall|k: int| 0 <= k < args.len() ==> (#[trigger] args[k] as int) < bound,
        bound <= ints1.len(),
    ensures
        eval_int_list(ints2, args, asg, bound) == int_vals(ints1, args, asg),
    decreases args.len(),
{
    if args.len() == 0 {
        assert(eval_int_list(ints2, args, asg, bound) =~= int_vals(ints1, args, asg));
    } else {
        lemma_eval_int_list_vals(ints1, ints2, args.drop_last(), asg, bound);
        assert((args.last() as int) < bound);
        lemma_eval_int_prefix(ints1, ints2, args.last() as int, asg);
        assert(eval_at(ints2, args.last(), asg, bound) == eval_int(ints1, args.last() as int, asg));
        assert(int_val(ints1, args.last(), asg) == eval_int(ints1, args.last() as int, asg));
        assert(eval_int_list(ints2, args, asg, bound) == int_vals(
            ints1,
            args.drop_last(),
            asg,
        ).push(int_val(ints1, args.last(), asg)));
        assert forall|k: int| 0 <= k < args.len() implies int_vals(ints1, args, asg)[k]
            == eval_int_list(ints2, args, asg, bound)[k] by {
            if k < args.len() - 1 {
                assert(args.drop_last()[k] == args[k]);
                assert(int_vals(ints1, args.drop_last(), asg)[k] == int_val(ints1, args[k], asg));
            }
        }
        assert(eval_int_list(ints2, args, asg, bound) =~= int_vals(ints1, args, asg));
    }
}

/// The truth of a valid boolean node is unchanged when the pools grow.
pub proof fn lemma_bool_val_prefix(
    bools1: Seq<BoolExpr>,
    bools2: Seq<BoolExpr>,
    ints1: Seq<IntExpr>,
    ints2: Seq<IntExpr>,
    b: usize,
    asg: Seq<int>,
)
    requires
        ints1.len() <= ints2.len(),
        forall|j: int| 0 <= j < ints1.len() ==> ints2[j] == ints1[j],
        bools1.len() <= bools2.len(),
        forall|j: int| 0 <= j < bools1.len() ==> bools2[j] == bools1[j],
        bools_wf(bools1, ints1.len() as int),
        (b as int) < bools1.len(),
    ensures
        bool_val(bools2, ints2, b, asg) == bool_val(bools1, ints1, b, asg),
{
    lemma_eval_bool_prefix(bools1, bools2, ints1, ints2, b as int, asg);
}

} // verus!
