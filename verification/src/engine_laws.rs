//! How plans are lowered, morsels are routed and infix expressions are valued.

use crate::adaptive::{divergence_of, greatest_divergence};
use crate::eddy::{after_observation, cells_passed, cells_reaching_next, most_selective, passed_share, EddyOperator};
use crate::expr_eval::{
    binop_value, expr_value, is_mark, is_operator, primary_value, product_rest, product_value,
    sum_rest, token_value,
};
use crate::float_bits::{arith, float_eq, float_lt, is_nan, FloatOp};
use crate::kernel::{is_filter, KernelParams, KernelResult, Operator};
use crate::plan::{lowered, PlanNode};
use crate::scheduler::{clipped, Region};
use crate::table::Table;
use vstd::prelude::*;

verus! {

/// Where no estimate is undefined, the operator that comes next is one that was not yet applied, with an estimate
/// that none of the others is below; of several it is the first. There is none only where all were applied.
pub proof fn least_estimate_comes_next(ops: Seq<EddyOperator>, applied: Seq<bool>, n: int)
    requires
        0 <= n <= ops.len(),
        n <= applied.len(),
        forall|i: int| 0 <= i < ops.len() ==> !is_nan((#[trigger] ops[i]).selectivity),
    ensures
        match most_selective(ops, applied, n) {
            Some(i) => 0 <= i < n && !applied[i] && (forall|j: int|
                0 <= j < n && !#[trigger] applied[j] ==> !float_lt(ops[j].selectivity, ops[i].selectivity)) && (forall|
                j: int,
            |
                0 <= j < i && !#[trigger] applied[j] ==> float_lt(ops[i].selectivity, ops[j].selectivity)),
            None => forall|j: int| 0 <= j < n ==> #[trigger] applied[j],
        },
    decreases n,
{
    if n > 0 {
        least_estimate_comes_next(ops, applied, n - 1);
        assert(!is_nan(ops[n - 1].selectivity));
        match most_selective(ops, applied, n - 1) {
            Some(b) => {
                assert(!is_nan(ops[b].selectivity));
                assert forall|j: int| 0 <= j < n - 1 && !#[trigger] applied[j] && float_lt(
                    ops[n - 1].selectivity,
                    ops[b].selectivity,
                ) implies float_lt(ops[n - 1].selectivity, ops[j].selectivity) by {
                    assert(!float_lt(ops[j].selectivity, ops[b].selectivity));
                    assert(!is_nan(ops[j].selectivity));
                }
            },
            None => {},
        }
    }
}

/// A filter passes on what its kernel counted; another operator passes on all it got.
pub proof fn filters_pass_on_what_they_count(op: Operator, result: KernelResult, cells: u64)
    ensures
        is_filter(op) ==> cells_passed(op, result, cells) == result.count && cells_reaching_next(op, result, cells)
            == result.count,
        !is_filter(op) ==> cells_passed(op, result, cells) == cells && cells_reaching_next(op, result, cells) == cells,
{
}

/// An observation counts one morsel and the cells that came out. Its share of the cells moves the estimate, in
/// the measure of the learning rate; an empty morsel does not.
pub proof fn observations_move_the_estimate<F: Fn(FloatOp, u64, u64) -> u64>(f: F, op: EddyOperator, input: u64, output: u64, lr: u64)
    requires
        op.morsels_processed < u64::MAX,
        op.cells_output + output <= u64::MAX,
    ensures
        ({
            let after = after_observation(f, op, input, output, lr);
            &&& after.operator == op.operator
            &&& after.morsels_processed == op.morsels_processed + 1
            &&& after.cells_output == op.cells_output + output
            &&& input == 0 ==> after.selectivity == op.selectivity
            &&& input > 0 ==> after.selectivity == arith(
                f,
                FloatOp::Add,
                arith(f, FloatOp::Mul, arith(f, FloatOp::Sub, 0x3FF0_0000_0000_0000, lr), op.selectivity),
                arith(f, FloatOp::Mul, lr, passed_share(f, input, output)),
            )
        }),
        ({
            let share = arith(
                f,
                FloatOp::Div,
                arith(f, FloatOp::FromU64, output, 0),
                arith(f, FloatOp::FromU64, input, 0),
            );
            !float_lt(share, 0) && !float_lt(0x3FF0_0000_0000_0000, share) ==> passed_share(f, input, output) == share
        }),
{
}

/// The runs of a plan come child first, the left one before the right one, and a node's own run comes last.
pub proof fn children_run_first(left: PlanNode, right: PlanNode, operator: Operator, t: PlanNode)
    requires
        t == (PlanNode::Join { left: Box::new(left), right: Box::new(right), operator }),
    ensures
        lowered(t).len() == lowered(left).len() + lowered(right).len() + 1,
        forall|i: int| 0 <= i < lowered(left).len() ==> lowered(t)[i] == #[trigger] lowered(left)[i],
        forall|i: int| 0 <= i < lowered(right).len() ==> lowered(t)[lowered(left).len() + i] == #[trigger] lowered(
            right,
        )[i],
        lowered(t).last().operator == operator,
{
}

/// The run of an aggregate comes behind those of its child.
pub proof fn aggregates_run_last(child: PlanNode, operator: Operator, t: PlanNode)
    requires
        t == (PlanNode::Aggregate { child: Box::new(child), operator }),
    ensures
        lowered(t).drop_last() == lowered(child),
        lowered(t).last().operator == operator,
{
    assert(lowered(t).drop_last() =~= lowered(child));
}

/// A run gets at most the cells of its region, and otherwise what was asked for.
pub proof fn runs_stay_within_their_region(params: KernelParams, region: Region)
    ensures
        clipped(params, region).cell_count <= region.cells.len(),
        clipped(params, region).cell_count <= params.cell_count,
        clipped(params, region).cell_count == region.cells.len() || clipped(params, region).cell_count
            == params.cell_count,
        clipped(params, region).target_u64 == params.target_u64,
        clipped(params, region).max_distance == params.max_distance,
{
}

/// On small words the operations are those of integers, without a remainder and wrapping round.
pub proof fn small_words_are_reckoned_as_integers<F: Fn(FloatOp, u64, u64) -> u64>(f: F, a: u64, b: u64)
    requires
        a < 0x1000_0000_0000_0000,
        b < 0x1000_0000_0000_0000,
    ensures
        binop_value(f, seq!['+'], a, b) == a + b,
        a >= b ==> binop_value(f, seq!['-'], a, b) == a - b,
        a < b ==> binop_value(f, seq!['-'], a, b) == a - b + 0x1_0000_0000_0000_0000,
        a * b <= u64::MAX ==> binop_value(f, seq!['*'], a, b) == a * b,
        b > 0 ==> binop_value(f, seq!['/'], a, b) == a as int / b as int,
        binop_value(f, seq!['/'], a, 0) == 0,
{
    assert(a * b >= 0) by (nonlinear_arith)
        requires
            a >= 0,
            b >= 0,
    ;
}

/// Where one of the words is great, the operations are those of doubles, a small word being converted first.
pub proof fn great_words_are_reckoned_as_doubles<F: Fn(FloatOp, u64, u64) -> u64>(f: F, a: u64, b: u64)
    requires
        a >= 0x1000_0000_0000_0000 || b >= 0x1000_0000_0000_0000,
    ensures
        ({
            let x = if a < 0x1000_0000_0000_0000 {
                arith(f, FloatOp::FromU64, a, 0)
            } else {
                a
            };
            let y = if b < 0x1000_0000_0000_0000 {
                arith(f, FloatOp::FromU64, b, 0)
            } else {
                b
            };
            &&& binop_value(f, seq!['+'], a, b) == arith(f, FloatOp::Add, x, y)
            &&& binop_value(f, seq!['-'], a, b) == arith(f, FloatOp::Sub, x, y)
            &&& binop_value(f, seq!['*'], a, b) == arith(f, FloatOp::Mul, x, y)
            &&& !float_eq(y, 0) ==> binop_value(f, seq!['/'], a, b) == arith(f, FloatOp::Div, x, y)
            &&& float_eq(y, 0) ==> binop_value(f, seq!['/'], a, b) == 0
        }),
{
}

/// Of two operations in a row the products come first; otherwise they go from the left.
pub proof fn products_come_before_sums<F: Fn(FloatOp, u64, u64) -> u64, P: Fn(&str) -> Option<u64>>(
    f: F,
    p: P,
    tokens: Seq<Seq<char>>,
    table: Table,
    row: int,
)
    requires
        tokens.len() == 5,
        !is_operator(tokens[0]),
        !is_operator(tokens[2]),
        !is_operator(tokens[4]),
        tokens[1] == seq!['+'] || tokens[1] == seq!['-'] || tokens[1] == seq!['*'] || tokens[1] == seq!['/'],
        tokens[3] == seq!['+'] || tokens[3] == seq!['-'] || tokens[3] == seq!['*'] || tokens[3] == seq!['/'],
    ensures
        ({
            let a = token_value(p, tokens[0], table, row);
            let b = token_value(p, tokens[2], table, row);
            let c = token_value(p, tokens[4], table, row);
            let late = (tokens[1] == seq!['+'] || tokens[1] == seq!['-']) && (tokens[3] == seq!['*'] || tokens[3]
                == seq!['/']);
            expr_value(f, p, tokens, table, row) == (if late {
                binop_value(f, tokens[1], a, binop_value(f, tokens[3], b, c))
            } else {
                binop_value(f, tokens[3], binop_value(f, tokens[1], a, b), c)
            })
        }),
{
    let a = token_value(p, tokens[0], table, row);
    let b = token_value(p, tokens[2], table, row);
    let c = token_value(p, tokens[4], table, row);
    assert(seq!['+'][0] == '+' && seq!['-'][0] == '-' && seq!['*'][0] == '*' && seq!['/'][0] == '/');
    let plus1 = is_mark(tokens[1], '+') || is_mark(tokens[1], '-');
    let plus3 = is_mark(tokens[3], '+') || is_mark(tokens[3], '-');
    assert(plus1 == (tokens[1] == seq!['+'] || tokens[1] == seq!['-']));
    assert(plus3 == (tokens[3] == seq!['+'] || tokens[3] == seq!['-']));
    assert(primary_value(f, p, tokens, 0, table, row) == (a, 1int));
    assert(primary_value(f, p, tokens, 2, table, row) == (b, 3int));
    assert(primary_value(f, p, tokens, 4, table, row) == (c, 5int));
    let ab = binop_value(f, tokens[1], a, b);
    let bc = binop_value(f, tokens[3], b, c);
    let abc = binop_value(f, tokens[3], ab, c);
    assert(product_rest(f, p, tokens, 5, c, table, row) == (c, 5int));
    assert(product_rest(f, p, tokens, 5, bc, table, row) == (bc, 5int));
    assert(product_rest(f, p, tokens, 5, abc, table, row) == (abc, 5int));
    assert(sum_rest(f, p, tokens, 5, abc, table, row) == (abc, 5int));
    assert(sum_rest(f, p, tokens, 5, binop_value(f, tokens[1], a, bc), table, row) == (
        binop_value(f, tokens[1], a, bc),
        5int,
    ));
    assert(product_value(f, p, tokens, 4, table, row) == (c, 5int));
    if plus1 {
        assert(product_rest(f, p, tokens, 1, a, table, row) == (a, 1int));
        assert(product_value(f, p, tokens, 0, table, row) == (a, 1int));
        if plus3 {
            assert(product_rest(f, p, tokens, 3, b, table, row) == (b, 3int));
            assert(product_value(f, p, tokens, 2, table, row) == (b, 3int));
            assert(sum_rest(f, p, tokens, 3, ab, table, row) == (abc, 5int));
        } else {
            assert(product_rest(f, p, tokens, 3, b, table, row) == (bc, 5int));
            assert(product_value(f, p, tokens, 2, table, row) == (bc, 5int));
        }
    } else {
        if plus3 {
            assert(product_rest(f, p, tokens, 3, ab, table, row) == (ab, 3int));
            assert(product_rest(f, p, tokens, 1, a, table, row) == (ab, 3int));
            assert(product_value(f, p, tokens, 0, table, row) == (ab, 3int));
            assert(sum_rest(f, p, tokens, 3, ab, table, row) == (abc, 5int));
        } else {
            assert(product_rest(f, p, tokens, 3, ab, table, row) == (abc, 5int));
            assert(product_rest(f, p, tokens, 1, a, table, row) == (abc, 5int));
            assert(product_value(f, p, tokens, 0, table, row) == (abc, 5int));
        }
    }
}

/// A count diverges from its estimate by their difference, in estimates.
pub proof fn counts_diverge_by_their_difference<F: Fn(FloatOp, u64, u64) -> u64>(f: F, estimated: usize, observed: usize)
    requires
        estimated > 0,
    ensures
        observed >= estimated ==> divergence_of(f, estimated, observed) == arith(
            f,
            FloatOp::Div,
            arith(f, FloatOp::FromU64, (observed - estimated) as u64, 0),
            arith(f, FloatOp::FromU64, estimated as u64, 0),
        ),
        observed < estimated ==> divergence_of(f, estimated, observed) == arith(
            f,
            FloatOp::Div,
            arith(f, FloatOp::FromU64, (estimated - observed) as u64, 0),
            arith(f, FloatOp::FromU64, estimated as u64, 0),
        ),
{
}

/// The greater of two doubles is one of them, and below neither.
pub open spec fn takes_the_greater<F: Fn(FloatOp, u64, u64) -> u64>(f: F) -> bool {
    forall|a: u64, b: u64|
        !is_nan(a) && !is_nan(b) ==> {
            let m = #[trigger] arith(f, FloatOp::Max, a, b);
            (m == a || m == b) && !float_lt(m, a) && !float_lt(m, b)
        }
}

/// The divergence of a plan is that of one of its observed stages, or zero, and no observed stage diverges more.
pub proof fn no_stage_diverges_more<F: Fn(FloatOp, u64, u64) -> u64>(
    f: F,
    estimated: Seq<usize>,
    observed: Seq<usize>,
    seen: Seq<bool>,
    n: int,
    i: int,
)
    requires
        takes_the_greater(f),
        0 <= i < n <= seen.len(),
        forall|k: int|
            0 <= k < n && #[trigger] seen[k] ==> !is_nan(divergence_of(f, estimated[k], observed[k])),
    ensures
        ({
            let worst = greatest_divergence(f, estimated, observed, seen, n);
            &&& seen[i] ==> !float_lt(worst, divergence_of(f, estimated[i], observed[i]))
            &&& worst == 0 || exists|k: int|
                0 <= k < n && #[trigger] seen[k] && worst == divergence_of(f, estimated[k], observed[k])
        }),
    decreases n,
{
    lemma_worst_is_number(f, estimated, observed, seen, n - 1);
    if i < n - 1 {
        no_stage_diverges_more(f, estimated, observed, seen, n - 1, i);
    } else if n > 1 {
        no_stage_diverges_more(f, estimated, observed, seen, n - 1, 0);
    }
}

proof fn lemma_worst_is_number<F: Fn(FloatOp, u64, u64) -> u64>(
    f: F,
    estimated: Seq<usize>,
    observed: Seq<usize>,
    seen: Seq<bool>,
    n: int,
)
    requires
        takes_the_greater(f),
        0 <= n <= seen.len(),
        forall|k: int|
            0 <= k < n && #[trigger] seen[k] ==> !is_nan(divergence_of(f, estimated[k], observed[k])),
    ensures
        !is_nan(greatest_divergence(f, estimated, observed, seen, n)),
    decreases n,
{
    if n > 0 {
        lemma_worst_is_number(f, estimated, observed, seen, n - 1);
    }
}

} // verus!
