//! Grouping.

use crate::error::{Error, Fail};
use crate::float_bits::{
    arith, discount_price, discounted, float_lt, is_arith, less, FloatOp, INFINITY_BITS, NEG_INFINITY_BITS, ONE_BITS,
};
use crate::group_index::{GroupIndex, Key};
use crate::row_sums::{is_summer, rows_exist, total_of, RowSum};
use crate::sql::agg::{eval_agg_expr, group_value};
use crate::sql::ast::{AggFunc, BinOp2, ColType, Expr2, SelectItem2, SelectQuery2};
use crate::sql::eval::{ctx_ok, eval, Ctx, Env};
use crate::sql::exec_table::{ExecTable, Held};
use crate::sql::output::{
    apply_limit, apply_order_by_grouped, cell_of, group_sort_rows, is_shower, item_name, name_item,
    limited, sorted_by,
};
use crate::sql::shape::{
    col_in, col_in_add_one_right, col_in_mul_sub_one, col_in_mul_sub_one_add_one, column_of, is_double,
    minus_times_plus, one_plus, times_one_minus,
};
use crate::sql::totals::{charged, rows_in};
use crate::sql::value::{is_true, to_cell, Value2};
use crate::table::{column_view, QueryResult, ResultColumn};
use crate::tpch::sums::{
    count_groups, counts_of, group_keys, keys_seen, lemma_same_keys, row_has, row_key,
    sum_groups, sums_of, Term,
};
use crate::tpch::support::{list_marked, marked_rows};
use crate::sql::source::{answer_outcome, rows_of, Rows};
use crate::cell_index::{number_rows, numbered, row_cells, CellIndex};
use vstd::prelude::*;

verus! {

/// How a selected item is computed in one pass over a group.
#[derive(Clone, Copy, Debug, PartialEq, Eq, Structural)]
pub enum AggPlan {
    GroupByCol(usize),
    CountAll,
    SumCol(usize),
    SumColCol(usize, usize),
    SumColSubOne(usize, usize),
    SumColSubOneAddOne(usize, usize, usize),
    AvgCol(usize),
    MinCol(usize),
    MaxCol(usize),
}

/// The plan for a sum of a product.
pub open spec fn product_sum(left: Expr2, right: Expr2, whole: Expr2, t: Held, nested: bool) -> Option<AggPlan> {
    match (column_of(left, t), column_of(right, t)) {
        (Some(a), Some(b)) => if is_double(t, a) && is_double(t, b) {
            Some(AggPlan::SumColCol(a, b))
        } else {
            None
        },
        _ => match times_one_minus(whole, t) {
            Some((a, b)) => if is_double(t, a) && is_double(t, b) {
                Some(AggPlan::SumColSubOne(a, b))
            } else {
                None
            },
            None => charge_sum(left, right, t, nested),
        },
    }
}

/// The plan for a sum of `(a * (1 - b)) * (1 + c)` or, if `nested`, of
/// `a * ((1 - b) * (1 + c))`.
pub open spec fn charge_sum(left: Expr2, right: Expr2, t: Held, nested: bool) -> Option<AggPlan> {
    match times_one_minus(left, t) {
        Some((a, b)) => match one_plus(right, t) {
            Some(c) => if is_double(t, a) && is_double(t, b) && is_double(t, c) {
                Some(AggPlan::SumColSubOneAddOne(a, b, c))
            } else {
                None
            },
            None => None,
        },
        None => match (column_of(left, t), minus_times_plus(right, t)) {
            (Some(a), Some((b, c))) => if nested && is_double(t, a) && is_double(t, b) && is_double(t, c) {
                Some(AggPlan::SumColSubOneAddOne(a, b, c))
            } else {
                None
            },
            _ => None,
        },
    }
}

/// The plan for the sum of an expression.
pub open spec fn sum_item(arg: Expr2, t: Held, nested: bool) -> Option<AggPlan> {
    match column_of(arg, t) {
        Some(a) => if is_double(t, a) {
            Some(AggPlan::SumCol(a))
        } else {
            None
        },
        None => match arg {
            Expr2::BinOp { op, left, right } => if op == BinOp2::Mul {
                product_sum(*left, *right, arg, t, nested)
            } else {
                None
            },
            _ => None,
        },
    }
}

/// The plan for a selected expression, if it has one.
pub open spec fn plan_of(e: Expr2, t: Held, nested: bool) -> Option<AggPlan> {
    match e {
        Expr2::CountStar => Some(AggPlan::CountAll),
        Expr2::Agg { func, arg, distinct } => if distinct {
            None
        } else {
            match func {
                AggFunc::Count => if column_of(*arg, t) is Some {
                    None
                } else {
                    Some(AggPlan::CountAll)
                },
                AggFunc::Sum => sum_item(*arg, t, nested),
                AggFunc::Avg => match column_of(*arg, t) {
                    Some(a) => if is_double(t, a) {
                        Some(AggPlan::AvgCol(a))
                    } else {
                        None
                    },
                    None => None,
                },
                AggFunc::Min => match column_of(*arg, t) {
                    Some(a) => Some(AggPlan::MinCol(a)),
                    None => None,
                },
                AggFunc::Max => match column_of(*arg, t) {
                    Some(a) => Some(AggPlan::MaxCol(a)),
                    None => None,
                },
                AggFunc::CountDistinct => None,
            }
        },
        Expr2::Col(name) => match column_of(e, t) {
            Some(a) => Some(AggPlan::GroupByCol(a)),
            None => None,
        },
        _ => None,
    }
}

/// The columns of a plan exist.
pub open spec fn plan_ok(p: AggPlan, t: Held) -> bool {
    let n = t.columns.len();
    match p {
        AggPlan::GroupByCol(a) => a < n,
        AggPlan::CountAll => true,
        AggPlan::SumCol(a) => a < n,
        AggPlan::SumColCol(a, b) => a < n && b < n,
        AggPlan::SumColSubOne(a, b) => a < n && b < n,
        AggPlan::SumColSubOneAddOne(a, b, c) => a < n && b < n && c < n,
        AggPlan::AvgCol(a) => a < n,
        AggPlan::MinCol(a) => a < n,
        AggPlan::MaxCol(a) => a < n,
    }
}

/// Every selected item has a plan.
pub open spec fn all_planned(select: Seq<SelectItem2>, t: Held, nested: bool) -> bool {
    forall|k: int| 0 <= k < select.len() ==> plan_of((#[trigger] select[k]).expr, t, nested) is Some
}

fn plan_charge(left: &Expr2, right: &Expr2, t: &ExecTable, nested: bool) -> (p: Option<AggPlan>)
    requires
        t.wf(),
    ensures
        p == charge_sum(*left, *right, t@, nested),
        p matches Some(q) ==> plan_ok(q, t@),
{
    match col_in_mul_sub_one(left, t) {
        Some((a, b)) => match col_in_add_one_right(right, t) {
            Some(c) => if t.col_types[a] == ColType::Float && t.col_types[b] == ColType::Float && t.col_types[c]
                == ColType::Float {
                Some(AggPlan::SumColSubOneAddOne(a, b, c))
            } else {
                None
            },
            None => None,
        },
        None => match (col_in(left, t), col_in_mul_sub_one_add_one(right, t)) {
            (Some(a), Some((b, c))) => if nested && t.col_types[a] == ColType::Float && t.col_types[b]
                == ColType::Float && t.col_types[c] == ColType::Float {
                Some(AggPlan::SumColSubOneAddOne(a, b, c))
            } else {
                None
            },
            _ => None,
        },
    }
}

fn plan_sum_item(arg: &Expr2, t: &ExecTable, nested: bool) -> (p: Option<AggPlan>)
    requires
        t.wf(),
    ensures
        p == sum_item(*arg, t@, nested),
        p matches Some(q) ==> plan_ok(q, t@),
{
    match col_in(arg, t) {
        Some(a) => if t.col_types[a] == ColType::Float {
            Some(AggPlan::SumCol(a))
        } else {
            None
        },
        None => match arg {
            Expr2::BinOp { op, left, right } => if *op == BinOp2::Mul {
                match (col_in(left, t), col_in(right, t)) {
                    (Some(a), Some(b)) => if t.col_types[a] == ColType::Float && t.col_types[b] == ColType::Float {
                        Some(AggPlan::SumColCol(a, b))
                    } else {
                        None
                    },
                    _ => match col_in_mul_sub_one(arg, t) {
                        Some((a, b)) => if t.col_types[a] == ColType::Float && t.col_types[b] == ColType::Float {
                            Some(AggPlan::SumColSubOne(a, b))
                        } else {
                            None
                        },
                        None => plan_charge(left, right, t, nested),
                    },
                }
            } else {
                None
            },
            _ => None,
        },
    }
}

/// Finds the plan for a selected expression.
pub fn plan_item(e: &Expr2, t: &ExecTable, nested: bool) -> (p: Option<AggPlan>)
    requires
        t.wf(),
    ensures
        p == plan_of(*e, t@, nested),
        p matches Some(q) ==> plan_ok(q, t@),
{
    match e {
        Expr2::CountStar => Some(AggPlan::CountAll),
        Expr2::Agg { func, arg, distinct } => if *distinct {
            None
        } else {
            match func {
                AggFunc::Count => match col_in(arg, t) {
                    Some(_) => None,
                    None => Some(AggPlan::CountAll),
                },
                AggFunc::Sum => plan_sum_item(arg, t, nested),
                AggFunc::Avg => match col_in(arg, t) {
                    Some(a) => if t.col_types[a] == ColType::Float {
                        Some(AggPlan::AvgCol(a))
                    } else {
                        None
                    },
                    None => None,
                },
                AggFunc::Min => match col_in(arg, t) {
                    Some(a) => Some(AggPlan::MinCol(a)),
                    None => None,
                },
                AggFunc::Max => match col_in(arg, t) {
                    Some(a) => Some(AggPlan::MaxCol(a)),
                    None => None,
                },
                AggFunc::CountDistinct => None,
            }
        },
        Expr2::Col(_) => match col_in(e, t) {
            Some(a) => Some(AggPlan::GroupByCol(a)),
            None => None,
        },
        _ => None,
    }
}

/// Finds the plans for all selected items; nothing if one has none.
fn plan_all(select: &Vec<SelectItem2>, t: &ExecTable, nested: bool) -> (r: Option<Vec<AggPlan>>)
    requires
        t.wf(),
    ensures
        match r {
            Some(plans) => {
                &&& all_planned(select@, t@, nested)
                &&& plans@.len() == select@.len()
                &&& forall|k: int|
                    0 <= k < plans@.len() ==> plan_of(select@[k].expr, t@, nested) == Some(#[trigger] plans@[k]) && plan_ok(
                        plans@[k],
                        t@,
                    )
            },
            None => !all_planned(select@, t@, nested),
        },
{
    let mut plans: Vec<AggPlan> = Vec::new();
    let mut k: usize = 0;
    while k < select.len()
        invariant
            t.wf(),
            k <= select@.len(),
            plans@.len() == k,
            forall|j: int|
                0 <= j < k ==> plan_of(select@[j].expr, t@, nested) == Some(#[trigger] plans@[j]) && plan_ok(plans@[j], t@),
        decreases select.len() - k,
    {
        match plan_item(&select[k].expr, t, nested) {
            Some(p) => {
                plans.push(p);
            },
            None => {
                proof {
                    assert(plan_of(select@[k as int].expr, t@, nested) is None);
                }
                return None;
            },
        }
        k = k + 1;
    }
    proof {
        assert forall|j: int| 0 <= j < select@.len() implies plan_of((#[trigger] select@[j]).expr, t@, nested) is Some by {
            assert(plan_of(select@[j].expr, t@, nested) == Some(plans@[j]));
        }
    }
    Some(plans)
}

/// The word of a row that an expression groups by: the cell of a column, else
/// the cell for its value.
pub open spec fn group_word<
    F: Fn(FloatOp, u64, u64) -> u64,
    P: Fn(&str) -> Option<u64>,
>(c: Env<F, P>, e: Expr2, t: Held, row: usize) -> u64 {
    match column_of(e, t) {
        Some(i) => t.columns[i as int][row as int],
        None => cell_of(c, e, t, row),
    }
}

/// The words that a row is grouped by.
pub open spec fn group_words<F: Fn(FloatOp, u64, u64) -> u64, P: Fn(&str) -> Option<u64>>(
    c: Env<F, P>,
    by: Seq<Expr2>,
    t: Held,
    row: usize,
) -> Seq<u64> {
    Seq::new(by.len(), |k: int| group_word(c, by[k], t, row))
}

/// The words of each row that is marked.
pub open spec fn group_cells<F: Fn(FloatOp, u64, u64) -> u64, P: Fn(&str) -> Option<u64>>(
    c: Env<F, P>,
    by: Seq<Expr2>,
    t: Held,
    mask: Seq<bool>,
) -> Seq<Option<Seq<u64>>> {
    Seq::new(
        t.row_count as nat,
        |i: int|
            if mask[i] {
                Some(group_words(c, by, t, i as usize))
            } else {
                None
            },
    )
}

/// The group of each row that is marked. Rows are in one group if their words are
/// equal.
pub open spec fn group_lines<F: Fn(FloatOp, u64, u64) -> u64, P: Fn(&str) -> Option<u64>>(
    c: Env<F, P>,
    by: Seq<Expr2>,
    t: Held,
    mask: Seq<bool>,
) -> Seq<Term> {
    numbered(group_cells(c, by, t, mask))
}

fn words_of_row<
    F: Fn(FloatOp, u64, u64) -> u64,
    P: Fn(&str) -> Option<u64>,
    S: Fn(&Expr2, &ExecTable, usize) -> Result<Value2, Error>,
>(c: &Ctx<'_, F, P, S>, by: &Vec<Expr2>, t: &ExecTable, row: usize) -> (words: Vec<u64>)
    requires
        ctx_ok(*c),
        t.wf(),
        row < t.row_count,
    ensures
        words@ == group_words(c@, by@, t@, row),
{
    let mut words: Vec<u64> = Vec::new();
    let mut k: usize = 0;
    while k < by.len()
        invariant
            ctx_ok(*c),
            t.wf(),
            row < t.row_count,
            k <= by@.len(),
            words@.len() == k,
            forall|j: int| 0 <= j < k ==> #[trigger] words@[j] == group_word(c@, by@[j], t@, row),
        decreases by.len() - k,
    {
        let word: u64 = match col_in(&by[k], t) {
            Some(i) => t.columns[i][row],
            None => match eval(c, &by[k], t, row) {
                Ok(v) => v.to_u64(),
                Err(_) => 0,
            },
        };
        words.push(word);
        k = k + 1;
    }
    proof {
        assert(words@ =~= group_words(c@, by@, t@, row));
    }
    words
}

/// Puts the marked rows in groups.
pub fn group_marked<
    F: Fn(FloatOp, u64, u64) -> u64,
    P: Fn(&str) -> Option<u64>,
    S: Fn(&Expr2, &ExecTable, usize) -> Result<Value2, Error>,
>(c: &Ctx<'_, F, P, S>, by: &Vec<Expr2>, t: &ExecTable, mask: &Vec<bool>) -> (lines: Vec<Term>)
    requires
        ctx_ok(*c),
        t.wf(),
        mask@.len() == t.row_count,
    ensures
        lines@ == group_lines(c@, by@, t@, mask@),
{
    let ghost want = group_cells(c@, by@, t@, mask@);
    let mut rows: Vec<Option<Vec<u64>>> = Vec::new();
    let mut i: usize = 0;
    while i < t.row_count
        invariant
            ctx_ok(*c),
            t.wf(),
            mask@.len() == t.row_count,
            want == group_cells(c@, by@, t@, mask@),
            i <= t.row_count,
            rows@.len() == i,
            forall|j: int| 0 <= j < i ==> #[trigger] row_cells(rows@)[j] == want[j],
        decreases t.row_count - i,
    {
        let ghost before = rows@;
        if mask[i] {
            rows.push(Some(words_of_row(c, by, t, i)));
        } else {
            rows.push(None);
        }
        proof {
            assert forall|j: int| 0 <= j < i + 1 implies #[trigger] row_cells(rows@)[j] == want[j] by {
                if j < i {
                    assert(row_cells(rows@)[j] == row_cells(before)[j]);
                }
            }
        }
        i = i + 1;
    }
    proof {
        assert(row_cells(rows@) =~= want);
    }
    let (_, lines): (CellIndex, Vec<Term>) = number_rows(&rows);
    lines
}

/// What a plan adds up for a row.
pub open spec fn plan_term<F: Fn(FloatOp, u64, u64) -> u64>(f: F, p: AggPlan, t: Held, row: int) -> u64 {
    match p {
        AggPlan::SumCol(a) => t.columns[a as int][row],
        AggPlan::AvgCol(a) => t.columns[a as int][row],
        AggPlan::SumColCol(a, b) => arith(f, FloatOp::Mul, t.columns[a as int][row], t.columns[b as int][row]),
        AggPlan::SumColSubOne(a, b) => discounted(f, t.columns[a as int][row], t.columns[b as int][row]),
        AggPlan::SumColSubOneAddOne(a, b, c) => charged(
            f,
            t.columns[a as int][row],
            t.columns[b as int][row],
            t.columns[c as int][row],
        ),
        _ => 0,
    }
}

fn term_of<F: Fn(FloatOp, u64, u64) -> u64>(p: AggPlan, t: &ExecTable, row: usize, fpu: &F) -> (x: u64)
    requires
        is_arith(*fpu),
        t.wf(),
        plan_ok(p, t@),
        row < t.row_count,
    ensures
        x == plan_term(*fpu, p, t@, row as int),
{
    match p {
        AggPlan::SumCol(a) => t.columns[a][row],
        AggPlan::AvgCol(a) => t.columns[a][row],
        AggPlan::SumColCol(a, b) => fpu(FloatOp::Mul, t.columns[a][row], t.columns[b][row]),
        AggPlan::SumColSubOne(a, b) => discount_price(fpu, t.columns[a][row], t.columns[b][row]),
        AggPlan::SumColSubOneAddOne(a, b, c) => {
            let price: u64 = discount_price(fpu, t.columns[a][row], t.columns[b][row]);
            let rate: u64 = fpu(FloatOp::Add, ONE_BITS, t.columns[c][row]);
            fpu(FloatOp::Mul, price, rate)
        },
        _ => 0,
    }
}

/// The groups of rows with what a plan adds up for them.
pub open spec fn term_lines<F: Fn(FloatOp, u64, u64) -> u64>(f: F, p: AggPlan, t: Held, lines: Seq<Term>) -> Seq<Term> {
    Seq::new(
        lines.len(),
        |i: int|
            match lines[i] {
                Some((k, _)) => Some((k, plan_term(f, p, t, i))),
                None => None,
            },
    )
}

/// The least or greatest double of a column in the first `n` rows of a group,
/// from an infinity on.
pub open spec fn extreme(is_min: bool, cells: Seq<u64>, lines: Seq<Term>, k: Key, n: nat) -> u64
    decreases n,
{
    if n == 0 {
        if is_min {
            INFINITY_BITS
        } else {
            NEG_INFINITY_BITS
        }
    } else {
        let before = extreme(is_min, cells, lines, k, (n - 1) as nat);
        let x = cells[n - 1];
        if row_has(lines, n - 1, k) && (if is_min {
            float_lt(x, before)
        } else {
            float_lt(before, x)
        }) {
            x
        } else {
            before
        }
    }
}

/// The mean, given a sum and a number of rows.
pub open spec fn mean<F: Fn(FloatOp, u64, u64) -> u64>(f: F, sum: u64, n: u64) -> u64 {
    if n == 0 {
        0
    } else {
        arith(f, FloatOp::Div, sum, arith(f, FloatOp::FromU64, n, 0))
    }
}

/// The first of the first `n` rows that is in a group.
pub open spec fn first_row(lines: Seq<Term>, k: Key, n: nat) -> Option<int>
    decreases n,
{
    if n == 0 {
        None
    } else {
        match first_row(lines, k, (n - 1) as nat) {
            Some(r) => Some(r),
            None => if row_has(lines, n - 1, k) {
                Some(n - 1)
            } else {
                None
            },
        }
    }
}

/// The cell of a column in the first row of a group.
pub open spec fn first_cell(cells: Seq<u64>, lines: Seq<Term>, k: Key) -> u64 {
    match first_row(lines, k, lines.len()) {
        Some(r) => cells[r],
        None => 0,
    }
}

/// The cells of a plan for all groups, in the order in which groups come.
pub open spec fn low_card_cells<F: Fn(FloatOp, u64, u64) -> u64>(f: F, p: AggPlan, t: Held, lines: Seq<Term>) -> Seq<u64> {
    let keys = group_keys(lines);
    match p {
        AggPlan::GroupByCol(a) => Seq::new(keys.len(), |g: int| first_cell(t.columns[a as int], lines, keys[g])),
        AggPlan::CountAll => counts_of(lines, keys),
        AggPlan::AvgCol(_) => Seq::new(
            keys.len(),
            |g: int| mean(f, sums_of(f, term_lines(f, p, t, lines), keys)[g], counts_of(lines, keys)[g]),
        ),
        AggPlan::MinCol(a) => Seq::new(
            keys.len(),
            |g: int| extreme(true, t.columns[a as int], lines, keys[g], lines.len()),
        ),
        AggPlan::MaxCol(a) => Seq::new(
            keys.len(),
            |g: int| extreme(false, t.columns[a as int], lines, keys[g], lines.len()),
        ),
        _ => sums_of(f, term_lines(f, p, t, lines), keys),
    }
}

/// A plan that adds up or compares.
pub open spec fn is_computed(p: AggPlan) -> bool {
    !(p is GroupByCol) && !(p is CountAll)
}

/// The greatest number of groups that are kept side by side.
pub const MAX_FIXED_GROUPS: usize = 256;

/// The query can be answered in one pass with few groups.
pub open spec fn low_card_fits<
    F: Fn(FloatOp, u64, u64) -> u64,
    P: Fn(&str) -> Option<u64>,
>(c: Env<F, P>, query: SelectQuery2, t: Held, mask: Seq<bool>) -> bool {
    &&& query.having is None
    &&& forall|k: int| 0 <= k < query.group_by@.len() ==> column_of(#[trigger] query.group_by@[k], t) is Some
    &&& all_planned(query.select@, t, false)
    &&& exists|k: int| 0 <= k < query.select@.len() && is_computed(plan_of((#[trigger] query.select@[k]).expr, t, false)->0)
    &&& group_keys(group_lines(c, query.group_by@, t, mask)).len() <= MAX_FIXED_GROUPS
}

/// The columns of the answer in one pass.
pub open spec fn low_card_columns<
    F: Fn(FloatOp, u64, u64) -> u64,
    P: Fn(&str) -> Option<u64>,
    D: Fn(u64) -> String,
>(c: Env<F, P>, d: D, query: SelectQuery2, t: Held, mask: Seq<bool>) -> Seq<
    (Seq<char>, Seq<u64>),
> {
    let lines = group_lines(c, query.group_by@, t, mask);
    Seq::new(
        query.select@.len(),
        |k: int|
            (
                item_name(d, query.select@[k]),
                low_card_cells(c.fpu, plan_of(query.select@[k].expr, t, false)->0, t, lines),
            ),
    )
}

/// These columns of `n` rows, sorted and cut as the query says.
pub open spec fn finished<D: Fn(u64) -> String>(
    d: D,
    columns: Seq<(Seq<char>, Seq<u64>)>,
    n: int,
    order_by: Seq<(Expr2, bool)>,
    limit: Option<usize>,
) -> Rows {
    limited(sorted_by(Rows { columns, row_count: n }, group_sort_rows(d, columns, order_by, n)), limit)
}

fn finish<D: Fn(u64) -> String>(s: QueryResult, order_by: &Vec<(Expr2, bool)>, limit: Option<usize>, show: &D) -> (r: QueryResult)
    requires
        is_shower(*show),
        s.wf(),
    ensures
        rows_of(r) == finished(*show, s@, s.row_count as int, order_by@, limit),
        r.bare(),
        r.wf(),
{
    let sorted: QueryResult = apply_order_by_grouped(&s, order_by, show);
    apply_limit(sorted, limit)
}

fn lines_with<F: Fn(FloatOp, u64, u64) -> u64>(p: AggPlan, t: &ExecTable, lines: &Vec<Term>, fpu: &F) -> (r: Vec<Term>)
    requires
        is_arith(*fpu),
        t.wf(),
        plan_ok(p, t@),
        lines@.len() == t.row_count,
    ensures
        r@ == term_lines(*fpu, p, t@, lines@),
{
    let mut r: Vec<Term> = Vec::new();
    let mut i: usize = 0;
    while i < lines.len()
        invariant
            is_arith(*fpu),
            t.wf(),
            plan_ok(p, t@),
            lines@.len() == t.row_count,
            i <= lines@.len(),
            r@.len() == i,
            forall|j: int| 0 <= j < i ==> #[trigger] r@[j] == term_lines(*fpu, p, t@, lines@)[j],
        decreases lines.len() - i,
    {
        match lines[i] {
            Some((k, _)) => {
                r.push(Some((k, term_of(p, t, i, fpu))));
            },
            None => {
                r.push(None);
            },
        }
        i = i + 1;
    }
    proof {
        assert(r@ =~= term_lines(*fpu, p, t@, lines@));
    }
    r
}

fn sum_cells<F: Fn(FloatOp, u64, u64) -> u64>(p: AggPlan, t: &ExecTable, lines: &Vec<Term>, fpu: &F) -> (r: Vec<u64>)
    requires
        is_arith(*fpu),
        t.wf(),
        plan_ok(p, t@),
        lines@.len() == t.row_count,
    ensures
        r@ == sums_of(*fpu, term_lines(*fpu, p, t@, lines@), group_keys(lines@)),
{
    let terms: Vec<Term> = lines_with(p, t, lines, fpu);
    let (keys, sums): (Vec<Key>, Vec<u64>) = sum_groups(&terms, fpu);
    proof {
        assert forall|i: int| 0 <= i < terms@.len() implies #[trigger] row_key(terms@, i) == row_key(lines@, i) by {}
        lemma_same_keys(terms@, lines@, lines@.len() as int);
        assert(sums@ =~= sums_of(*fpu, terms@, group_keys(lines@)));
    }
    sums
}

fn extreme_cells(is_min: bool, cells: &Vec<u64>, lines: &Vec<Term>, keys: &Vec<Key>) -> (r: Vec<u64>)
    requires
        cells@.len() == lines@.len(),
        keys@ == group_keys(lines@),
    ensures
        r@ == Seq::new(keys@.len(), |g: int| extreme(is_min, cells@, lines@, keys@[g], lines@.len())),
{
    let mut groups: GroupIndex = GroupIndex::new();
    let mut best: Vec<u64> = Vec::new();
    let ghost start = if is_min {
        INFINITY_BITS
    } else {
        NEG_INFINITY_BITS
    };
    let mut i: usize = 0;
    while i < lines.len()
        invariant
            cells@.len() == lines@.len(),
            i <= lines@.len(),
            groups.wf(),
            groups@ == keys_seen(lines@, i as int),
            best@.len() == groups@.len(),
            start == (if is_min {
                INFINITY_BITS
            } else {
                NEG_INFINITY_BITS
            }),
            forall|g: int|
                0 <= g < groups@.len() ==> best@[g] == extreme(is_min, cells@, lines@, #[trigger] groups@[g], i as nat),
            forall|k: Key| !#[trigger] groups@.contains(k) ==> extreme(is_min, cells@, lines@, k, i as nat) == start,
        decreases lines.len() - i,
    {
        match lines[i] {
            Some((key, _)) => {
                let ghost before = groups@;
                let ghost old_best = best@;
                let n: usize = groups.len();
                let slot: usize = groups.slot_of(key);
                if groups.len() > n {
                    best.push(
                        if is_min {
                            INFINITY_BITS
                        } else {
                            NEG_INFINITY_BITS
                        },
                    );
                }
                proof {
                    groups.keys_are_distinct();
                    assert(best@[slot as int] == extreme(is_min, cells@, lines@, key, i as nat)) by {
                        if !before.contains(key) {
                            assert(groups@ == before.push(key));
                            assert(slot == before.len()) by {
                                if slot < before.len() {
                                    assert(before.contains(before[slot as int]));
                                }
                            }
                        }
                    }
                }
                let x: u64 = cells[i];
                let ghost mid = best@;
                if is_min && less(x, best[slot]) || !is_min && less(best[slot], x) {
                    best.set(slot, x);
                }
                proof {
                    assert forall|g: int| 0 <= g < groups@.len() implies best@[g] == extreme(
                        is_min,
                        cells@,
                        lines@,
                        #[trigger] groups@[g],
                        (i + 1) as nat,
                    ) by {
                        if g != slot {
                            assert(groups@[g] != key);
                            assert(before[g] == groups@[g]);
                            assert(mid[g] == old_best[g]);
                            assert(!row_has(lines@, i as int, groups@[g]));
                        } else {
                            assert(row_has(lines@, i as int, key));
                        }
                    }
                    assert forall|k: Key| !#[trigger] groups@.contains(k) implies extreme(
                        is_min,
                        cells@,
                        lines@,
                        k,
                        (i + 1) as nat,
                    ) == start by {
                        assert(k != key) by {
                            assert(groups@[slot as int] == key);
                        }
                        assert(!row_has(lines@, i as int, k));
                        if before.contains(k) {
                            let j = choose|j: int| 0 <= j < before.len() && before[j] == k;
                            assert(groups@[j] == k);
                        }
                    }
                }
            },
            None => {
                proof {
                    assert forall|k: Key| !row_has(lines@, i as int, k) by {}
                }
            },
        }
        i = i + 1;
    }
    proof {
        assert(best@ =~= Seq::new(keys@.len(), |g: int| extreme(is_min, cells@, lines@, keys@[g], lines@.len())));
    }
    best
}

fn first_cells(cells: &Vec<u64>, lines: &Vec<Term>, keys: &Vec<Key>) -> (r: Vec<u64>)
    requires
        cells@.len() == lines@.len(),
        keys@ == group_keys(lines@),
    ensures
        r@ == Seq::new(keys@.len(), |g: int| first_cell(cells@, lines@, keys@[g])),
{
    let mut groups: GroupIndex = GroupIndex::new();
    let mut r: Vec<u64> = Vec::new();
    let mut i: usize = 0;
    while i < lines.len()
        invariant
            cells@.len() == lines@.len(),
            i <= lines@.len(),
            groups.wf(),
            groups@ == keys_seen(lines@, i as int),
            r@.len() == groups@.len(),
            forall|g: int|
                0 <= g < groups@.len() ==> (first_row(lines@, #[trigger] groups@[g], i as nat) matches Some(q) && 0 <= q < i
                    && r@[g] == cells@[q]),
            forall|k: Key| !#[trigger] groups@.contains(k) ==> first_row(lines@, k, i as nat) is None,
        decreases lines.len() - i,
    {
        let ghost before = groups@;
        match lines[i] {
            Some((key, _)) => {
                let n: usize = groups.len();
                let slot: usize = groups.slot_of(key);
                if groups.len() > n {
                    r.push(cells[i]);
                }
                proof {
                    assert(row_has(lines@, i as int, key));
                    assert forall|g: int| 0 <= g < groups@.len() implies (first_row(
                        lines@,
                        #[trigger] groups@[g],
                        (i + 1) as nat,
                    ) matches Some(q) && 0 <= q < i + 1 && r@[g] == cells@[q]) by {
                        if g < before.len() {
                            assert(before[g] == groups@[g]);
                        } else {
                            assert(!before.contains(key));
                            assert(groups@[g] == key);
                        }
                    }
                    assert forall|k: Key| !#[trigger] groups@.contains(k) implies first_row(lines@, k, (i + 1) as nat) is None by {
                        assert(k != key) by {
                            assert(groups@[slot as int] == key);
                        }
                        assert(!row_has(lines@, i as int, k));
                        if before.contains(k) {
                            let j = choose|j: int| 0 <= j < before.len() && before[j] == k;
                            assert(groups@[j] == k);
                        }
                    }
                }
            },
            None => {
                proof {
                    assert forall|k: Key| !row_has(lines@, i as int, k) by {}
                }
            },
        }
        i = i + 1;
    }
    proof {
        assert(r@ =~= Seq::new(keys@.len(), |g: int| first_cell(cells@, lines@, keys@[g])));
    }
    r
}

fn low_cells<F: Fn(FloatOp, u64, u64) -> u64>(
    p: AggPlan,
    t: &ExecTable,
    lines: &Vec<Term>,
    keys: &Vec<Key>,
    counts: &Vec<u64>,
    fpu: &F,
) -> (r: Vec<u64>)
    requires
        is_arith(*fpu),
        t.wf(),
        plan_ok(p, t@),
        lines@.len() == t.row_count,
        keys@ == group_keys(lines@),
        counts@ == counts_of(lines@, keys@),
    ensures
        r@ == low_card_cells(*fpu, p, t@, lines@),
{
    match p {
        AggPlan::GroupByCol(a) => first_cells(&t.columns[a], lines, keys),
        AggPlan::CountAll => {
            let r: Vec<u64> = counts.clone();
            proof {
                assert(r@ =~= counts@);
            }
            r
        },
        AggPlan::AvgCol(_) => {
            let sums: Vec<u64> = sum_cells(p, t, lines, fpu);
            let mut r: Vec<u64> = Vec::new();
            let mut g: usize = 0;
            while g < sums.len()
                invariant
                    is_arith(*fpu),
                    sums@.len() == counts@.len(),
                    g <= sums@.len(),
                    r@.len() == g,
                    forall|j: int| 0 <= j < g ==> #[trigger] r@[j] == mean(*fpu, sums@[j], counts@[j]),
                decreases sums.len() - g,
            {
                if counts[g] == 0 {
                    r.push(0);
                } else {
                    let n: u64 = fpu(FloatOp::FromU64, counts[g], 0);
                    r.push(fpu(FloatOp::Div, sums[g], n));
                }
                g = g + 1;
            }
            proof {
                assert(r@ =~= low_card_cells(*fpu, p, t@, lines@));
            }
            r
        },
        AggPlan::MinCol(a) => extreme_cells(true, &t.columns[a], lines, keys),
        AggPlan::MaxCol(a) => extreme_cells(false, &t.columns[a], lines, keys),
        _ => sum_cells(p, t, lines, fpu),
    }
}

fn any_computed(plans: &Vec<AggPlan>) -> (b: bool)
    ensures
        b == exists|k: int| 0 <= k < plans@.len() && is_computed(#[trigger] plans@[k]),
{
    let mut k: usize = 0;
    while k < plans.len()
        invariant
            k <= plans@.len(),
            forall|j: int| 0 <= j < k ==> !is_computed(#[trigger] plans@[j]),
        decreases plans.len() - k,
    {
        match plans[k] {
            AggPlan::GroupByCol(_) => {},
            AggPlan::CountAll => {},
            _ => {
                return true;
            },
        }
        k = k + 1;
    }
    false
}

fn all_columns(by: &Vec<Expr2>, t: &ExecTable) -> (b: bool)
    ensures
        b == forall|k: int| 0 <= k < by@.len() ==> column_of(#[trigger] by@[k], t@) is Some,
{
    let mut k: usize = 0;
    while k < by.len()
        invariant
            k <= by@.len(),
            forall|j: int| 0 <= j < k ==> column_of(#[trigger] by@[j], t@) is Some,
        decreases by.len() - k,
    {
        match col_in(&by[k], t) {
            Some(_) => {},
            None => {
                proof {
                    assert(column_of(by@[k as int], t@) is None);
                }
                return false;
            },
        }
        k = k + 1;
    }
    true
}

/// Answers a grouped query in one pass, if it has few groups and every selected
/// item has a plan.
pub fn try_low_card_grouped<
    F: Fn(FloatOp, u64, u64) -> u64,
    P: Fn(&str) -> Option<u64>,
    S: Fn(&Expr2, &ExecTable, usize) -> Result<Value2, Error>,
    D: Fn(u64) -> String,
>(c: &Ctx<'_, F, P, S>, query: &SelectQuery2, t: &ExecTable, mask: &Vec<bool>, show: &D) -> (r: Option<
    QueryResult,
>)
    requires
        ctx_ok(*c),
        t.wf(),
        is_shower(*show),
        mask@.len() == t.row_count,
    ensures
        match r {
            Some(q) => low_card_fits(c@, *query, t@, mask@) && rows_of(q) == finished(
                *show,
                low_card_columns(c@, *show, *query, t@, mask@),
                group_keys(group_lines(c@, query.group_by@, t@, mask@)).len() as int,
                query.order_by@,
                query.limit,
            ) && q.bare() && q.wf(),
            None => !low_card_fits(c@, *query, t@, mask@),
        },
{
    if query.having.is_some() || !all_columns(&query.group_by, t) {
        return None;
    }
    let plans: Vec<AggPlan> = match plan_all(&query.select, t, false) {
        Some(plans) => plans,
        None => {
            return None;
        },
    };
    let computed: bool = any_computed(&plans);
    proof {
        assert(computed == exists|k: int|
            0 <= k < query.select@.len() && is_computed(plan_of((#[trigger] query.select@[k]).expr, t@, false)->0)) by {
            if computed {
                let k = choose|k: int| 0 <= k < plans@.len() && is_computed(#[trigger] plans@[k]);
                assert(is_computed(plan_of(query.select@[k].expr, t@, false)->0));
            }
            if exists|k: int|
                0 <= k < query.select@.len() && is_computed(plan_of((#[trigger] query.select@[k]).expr, t@, false)->0) {
                let k = choose|k: int|
                    0 <= k < query.select@.len() && is_computed(plan_of((#[trigger] query.select@[k]).expr, t@, false)->0);
                assert(is_computed(plans@[k]));
            }
        }
    }
    if !computed {
        return None;
    }
    let lines: Vec<Term> = group_marked(c, &query.group_by, t, mask);
    let (keys, counts): (Vec<Key>, Vec<u64>) = count_groups(&lines);
    if keys.len() > MAX_FIXED_GROUPS {
        return None;
    }
    proof {
        assert(counts@ =~= counts_of(lines@, keys@));
    }
    let ghost want = low_card_columns(c@, *show, *query, t@, mask@);
    let mut columns: Vec<ResultColumn> = Vec::new();
    let mut k: usize = 0;
    while k < query.select.len()
        invariant
            ctx_ok(*c),
            t.wf(),
            is_shower(*show),
            lines@ == group_lines(c@, query.group_by@, t@, mask@),
            keys@ == group_keys(lines@),
            counts@ == counts_of(lines@, keys@),
            plans@.len() == query.select@.len(),
            forall|j: int|
                0 <= j < plans@.len() ==> plan_of(query.select@[j].expr, t@, false) == Some(#[trigger] plans@[j]) && plan_ok(
                    plans@[j],
                    t@,
                ),
            want == low_card_columns(c@, *show, *query, t@, mask@),
            k <= query.select@.len(),
            columns@.len() == k,
            forall|j: int| 0 <= j < k ==> column_view(#[trigger] columns@[j]) == want[j],
            forall|j: int| 0 <= j < k ==> (#[trigger] columns@[j]).values@.len() == keys@.len(),
        decreases query.select.len() - k,
    {
        let values: Vec<u64> = low_cells(plans[k], t, &lines, &keys, &counts, c.fpu);
        columns.push(ResultColumn { name: name_item(&query.select[k], show), values, string_values: None });
        k = k + 1;
    }
    let s: QueryResult = QueryResult { columns, row_count: keys.len(), elapsed_us: 0 };
    proof {
        assert(s@ =~= want);
    }
    Some(finish(s, &query.order_by, query.limit, show))
}

/// The sum of what a plan adds up over the first `n` listed rows.
pub open spec fn plan_total<F: Fn(FloatOp, u64, u64) -> u64>(f: F, p: AggPlan, t: Held, rows: Seq<usize>, n: nat) -> u64
    decreases n,
{
    if n == 0 {
        0
    } else {
        arith(
            f,
            FloatOp::Add,
            plan_total(f, p, t, rows, (n - 1) as nat),
            plan_term(f, p, t, rows[n - 1] as int),
        )
    }
}

/// The least or greatest double of a column over the first `n` listed rows, from
/// an infinity on.
pub open spec fn extreme_over(is_min: bool, cells: Seq<u64>, rows: Seq<usize>, n: nat) -> u64
    decreases n,
{
    if n == 0 {
        if is_min {
            INFINITY_BITS
        } else {
            NEG_INFINITY_BITS
        }
    } else {
        let before = extreme_over(is_min, cells, rows, (n - 1) as nat);
        let x = cells[rows[n - 1] as int];
        if if is_min {
            float_lt(x, before)
        } else {
            float_lt(before, x)
        } {
            x
        } else {
            before
        }
    }
}

/// Groups of this many rows are added up by the caller's row sums.
pub const WIDE_GROUP: usize = 32;

/// The sum for a plan over a group of rows: in a large group as the caller's row
/// sums give it, in a small one row by row.
pub open spec fn group_total<
    F: Fn(FloatOp, u64, u64) -> u64,
    T: Fn(RowSum, &Vec<u64>, &Vec<u64>, &Vec<u64>, &Vec<usize>) -> u64,
>(f: F, s: T, p: AggPlan, t: Held, rows: Seq<usize>) -> u64 {
    if rows.len() >= WIDE_GROUP {
        match p {
            AggPlan::SumColCol(a, b) => total_of(
                s,
                RowSum::Product,
                t.columns[a as int],
                t.columns[b as int],
                t.columns[a as int],
                rows,
            ),
            AggPlan::SumColSubOne(a, b) => total_of(
                s,
                RowSum::Discounted,
                t.columns[a as int],
                t.columns[b as int],
                t.columns[a as int],
                rows,
            ),
            AggPlan::SumColSubOneAddOne(a, b, c) => total_of(
                s,
                RowSum::Charged,
                t.columns[a as int],
                t.columns[b as int],
                t.columns[c as int],
                rows,
            ),
            AggPlan::SumCol(a) => total_of(
                s,
                RowSum::Plain,
                t.columns[a as int],
                t.columns[a as int],
                t.columns[a as int],
                rows,
            ),
            AggPlan::AvgCol(a) => total_of(
                s,
                RowSum::Plain,
                t.columns[a as int],
                t.columns[a as int],
                t.columns[a as int],
                rows,
            ),
            _ => 0,
        }
    } else {
        plan_total(f, p, t, rows, rows.len())
    }
}

/// The cell of a plan for a group of rows.
pub open spec fn fused_cell<
    F: Fn(FloatOp, u64, u64) -> u64,
    T: Fn(RowSum, &Vec<u64>, &Vec<u64>, &Vec<u64>, &Vec<usize>) -> u64,
>(f: F, s: T, p: AggPlan, t: Held, rows: Seq<usize>) -> u64 {
    match p {
        AggPlan::GroupByCol(a) => if rows.len() > 0 {
            t.columns[a as int][rows[0] as int]
        } else {
            0
        },
        AggPlan::CountAll => rows.len() as u64,
        AggPlan::AvgCol(_) => mean(f, group_total(f, s, p, t, rows), rows.len() as u64),
        AggPlan::MinCol(a) => extreme_over(true, t.columns[a as int], rows, rows.len()),
        AggPlan::MaxCol(a) => extreme_over(false, t.columns[a as int], rows, rows.len()),
        _ => group_total(f, s, p, t, rows),
    }
}

fn total_group<
    F: Fn(FloatOp, u64, u64) -> u64,
    T: Fn(RowSum, &Vec<u64>, &Vec<u64>, &Vec<u64>, &Vec<usize>) -> u64,
>(p: AggPlan, t: &ExecTable, rows: &Vec<usize>, fpu: &F, summer: &T) -> (x: u64)
    requires
        is_arith(*fpu),
        is_summer(*summer),
        t.wf(),
        plan_ok(p, t@),
        rows_in(rows@, t@),
    ensures
        x == group_total(*fpu, *summer, p, t@, rows@),
{
    if rows.len() >= WIDE_GROUP {
        match p {
            AggPlan::SumColCol(a, b) => {
                proof {
                    assert(rows_exist(rows@, t.columns@[a as int]@) && rows_exist(rows@, t.columns@[b as int]@));
                }
                summer(RowSum::Product, &t.columns[a], &t.columns[b], &t.columns[a], rows)
            },
            AggPlan::SumColSubOne(a, b) => {
                proof {
                    assert(rows_exist(rows@, t.columns@[a as int]@) && rows_exist(rows@, t.columns@[b as int]@));
                }
                summer(RowSum::Discounted, &t.columns[a], &t.columns[b], &t.columns[a], rows)
            },
            AggPlan::SumColSubOneAddOne(a, b, c) => {
                proof {
                    assert(rows_exist(rows@, t.columns@[a as int]@) && rows_exist(rows@, t.columns@[b as int]@));
                    assert(rows_exist(rows@, t.columns@[c as int]@));
                }
                summer(RowSum::Charged, &t.columns[a], &t.columns[b], &t.columns[c], rows)
            },
            AggPlan::SumCol(a) => {
                proof {
                    assert(rows_exist(rows@, t.columns@[a as int]@));
                }
                summer(RowSum::Plain, &t.columns[a], &t.columns[a], &t.columns[a], rows)
            },
            AggPlan::AvgCol(a) => {
                proof {
                    assert(rows_exist(rows@, t.columns@[a as int]@));
                }
                summer(RowSum::Plain, &t.columns[a], &t.columns[a], &t.columns[a], rows)
            },
            _ => 0,
        }
    } else {
        let mut sum: u64 = 0;
        let mut i: usize = 0;
        while i < rows.len()
            invariant
                is_arith(*fpu),
                t.wf(),
                plan_ok(p, t@),
                rows_in(rows@, t@),
                i <= rows@.len(),
                sum == plan_total(*fpu, p, t@, rows@, i as nat),
            decreases rows.len() - i,
        {
            let x: u64 = term_of(p, t, rows[i], fpu);
            sum = fpu(FloatOp::Add, sum, x);
            i = i + 1;
        }
        sum
    }
}

fn extreme_of(is_min: bool, cells: &Vec<u64>, rows: &Vec<usize>) -> (x: u64)
    requires
        forall|i: int| 0 <= i < rows@.len() ==> #[trigger] rows@[i] < cells@.len(),
    ensures
        x == extreme_over(is_min, cells@, rows@, rows@.len()),
{
    let mut best: u64 = if is_min {
        INFINITY_BITS
    } else {
        NEG_INFINITY_BITS
    };
    let mut i: usize = 0;
    while i < rows.len()
        invariant
            forall|k: int| 0 <= k < rows@.len() ==> #[trigger] rows@[k] < cells@.len(),
            i <= rows@.len(),
            best == extreme_over(is_min, cells@, rows@, i as nat),
        decreases rows.len() - i,
    {
        let x: u64 = cells[rows[i]];
        if is_min && less(x, best) || !is_min && less(best, x) {
            best = x;
        }
        i = i + 1;
    }
    best
}

fn fuse_group<
    F: Fn(FloatOp, u64, u64) -> u64,
    T: Fn(RowSum, &Vec<u64>, &Vec<u64>, &Vec<u64>, &Vec<usize>) -> u64,
>(p: AggPlan, t: &ExecTable, rows: &Vec<usize>, fpu: &F, summer: &T) -> (x: u64)
    requires
        is_arith(*fpu),
        is_summer(*summer),
        t.wf(),
        plan_ok(p, t@),
        rows_in(rows@, t@),
    ensures
        x == fused_cell(*fpu, *summer, p, t@, rows@),
{
    match p {
        AggPlan::GroupByCol(a) => if rows.len() > 0 {
            t.columns[a][rows[0]]
        } else {
            0
        },
        AggPlan::CountAll => rows.len() as u64,
        AggPlan::AvgCol(_) => {
            let sum: u64 = total_group(p, t, rows, fpu, summer);
            if rows.len() as u64 == 0 {
                0
            } else {
                let n: u64 = fpu(FloatOp::FromU64, rows.len() as u64, 0);
                fpu(FloatOp::Div, sum, n)
            }
        },
        AggPlan::MinCol(a) => extreme_of(true, &t.columns[a], rows),
        AggPlan::MaxCol(a) => extreme_of(false, &t.columns[a], rows),
        _ => total_group(p, t, rows, fpu, summer),
    }
}

/// The rows of a list of groups.
pub open spec fn row_lists(groups: Seq<Vec<usize>>) -> Seq<Seq<usize>> {
    groups.map_values(|g: Vec<usize>| g@)
}

pub open spec fn groups_in(groups: Seq<Vec<usize>>, t: Held) -> bool {
    forall|g: int| 0 <= g < groups.len() ==> rows_in((#[trigger] groups[g])@, t)
}

/// The cells of a plan for groups of rows.
pub open spec fn fused_cells<
    F: Fn(FloatOp, u64, u64) -> u64,
    T: Fn(RowSum, &Vec<u64>, &Vec<u64>, &Vec<u64>, &Vec<usize>) -> u64,
>(f: F, s: T, p: AggPlan, t: Held, groups: Seq<Seq<usize>>) -> Seq<u64> {
    Seq::new(groups.len(), |g: int| fused_cell(f, s, p, t, groups[g]))
}

fn empty_columns(n: usize) -> (columns: Vec<Vec<u64>>)
    ensures
        columns@.len() == n,
        forall|k: int| 0 <= k < columns@.len() ==> (#[trigger] columns@[k])@ == Seq::<u64>::empty(),
{
    let mut columns: Vec<Vec<u64>> = Vec::new();
    while columns.len() < n
        invariant
            columns@.len() <= n,
            forall|k: int| 0 <= k < columns@.len() ==> (#[trigger] columns@[k])@ == Seq::<u64>::empty(),
        decreases n - columns.len(),
    {
        columns.push(Vec::new());
    }
    columns
}

/// Computes all selected items in one pass over each group; nothing if there are
/// groups and an item has no plan.
pub fn try_fused_grouped_agg<
    F: Fn(FloatOp, u64, u64) -> u64,
    T: Fn(RowSum, &Vec<u64>, &Vec<u64>, &Vec<u64>, &Vec<usize>) -> u64,
>(
    select: &Vec<SelectItem2>,
    t: &ExecTable,
    groups: &Vec<Vec<usize>>,
    fpu: &F,
    summer: &T,
) -> (r: Option<Vec<Vec<u64>>>)
    requires
        is_arith(*fpu),
        is_summer(*summer),
        t.wf(),
        groups_in(groups@, t@),
    ensures
        match r {
            Some(columns) => {
                &&& groups@.len() == 0 || all_planned(select@, t@, true)
                &&& columns@.len() == select@.len()
                &&& forall|k: int|
                    0 <= k < columns@.len() ==> (#[trigger] columns@[k])@ == fused_cells(
                        *fpu,
                        *summer,
                        plan_of(select@[k].expr, t@, true)->0,
                        t@,
                        row_lists(groups@),
                    )
            },
            None => groups@.len() > 0 && !all_planned(select@, t@, true),
        },
{
    if groups.len() == 0 {
        return Some(empty_columns(select.len()));
    }
    let plans: Vec<AggPlan> = match plan_all(select, t, true) {
        Some(plans) => plans,
        None => {
            return None;
        },
    };
    let mut columns: Vec<Vec<u64>> = Vec::new();
    let mut k: usize = 0;
    while k < plans.len()
        invariant
            is_arith(*fpu),
            is_summer(*summer),
            t.wf(),
            groups_in(groups@, t@),
            plans@.len() == select@.len(),
            forall|j: int|
                0 <= j < plans@.len() ==> plan_of(select@[j].expr, t@, true) == Some(#[trigger] plans@[j]) && plan_ok(
                    plans@[j],
                    t@,
                ),
            k <= plans@.len(),
            columns@.len() == k,
            forall|j: int|
                0 <= j < k ==> (#[trigger] columns@[j])@ == fused_cells(*fpu, *summer, plans@[j], t@, row_lists(groups@)),
        decreases plans.len() - k,
    {
        let p: AggPlan = plans[k];
        let mut cells: Vec<u64> = Vec::new();
        let mut g: usize = 0;
        while g < groups.len()
            invariant
                is_arith(*fpu),
                is_summer(*summer),
                t.wf(),
                groups_in(groups@, t@),
                plan_ok(p, t@),
                g <= groups@.len(),
                cells@.len() == g,
                forall|j: int| 0 <= j < g ==> #[trigger] cells@[j] == fused_cell(*fpu, *summer, p, t@, groups@[j]@),
            decreases groups.len() - g,
        {
            cells.push(fuse_group(p, t, &groups[g], fpu, summer));
            g = g + 1;
        }
        proof {
            assert(cells@ =~= fused_cells(*fpu, *summer, p, t@, row_lists(groups@)));
        }
        columns.push(cells);
        k = k + 1;
    }
    proof {
        assert forall|j: int| 0 <= j < columns@.len() implies (#[trigger] columns@[j])@ == fused_cells(
            *fpu,
            *summer,
            plan_of(select@[j].expr, t@, true)->0,
            t@,
            row_lists(groups@),
        ) by {
            assert(plan_of(select@[j].expr, t@, true) == Some(plans@[j]));
        }
    }
    Some(columns)
}

/// The rows among the first `n` that are in a group, in order.
pub open spec fn members(lines: Seq<Term>, k: Key, n: int) -> Seq<usize>
    decreases n,
{
    if n <= 0 {
        Seq::empty()
    } else if row_has(lines, n - 1, k) {
        members(lines, k, n - 1).push((n - 1) as usize)
    } else {
        members(lines, k, n - 1)
    }
}

/// The groups of rows, in the order in which they come.
pub open spec fn grouped_rows(lines: Seq<Term>) -> Seq<Seq<usize>> {
    let keys = group_keys(lines);
    Seq::new(keys.len(), |g: int| members(lines, keys[g], lines.len() as int))
}

pub proof fn lemma_members_exist(lines: Seq<Term>, k: Key, n: int)
    requires
        0 <= n <= lines.len(),
        n <= usize::MAX,
    ensures
        forall|i: int| 0 <= i < members(lines, k, n).len() ==> #[trigger] members(lines, k, n)[i] < n,
    decreases n,
{
    if n > 0 {
        lemma_members_exist(lines, k, n - 1);
        let before = members(lines, k, n - 1);
        assert forall|i: int| 0 <= i < members(lines, k, n).len() implies #[trigger] members(lines, k, n)[i] < n by {
            if i < before.len() {
                assert(before[i] < n - 1);
            }
        }
    }
}

/// Every marked row is in exactly one group, and a group holds only rows of its
/// key.
pub proof fn groups_partition_rows(lines: Seq<Term>, k: Key, n: int, row: usize)
    requires
        0 <= n <= lines.len(),
        n <= usize::MAX,
        row < n,
    ensures
        members(lines, k, n).contains(row) <==> row_has(lines, row as int, k),
    decreases n,
{
    let all = members(lines, k, n);
    let before = members(lines, k, n - 1);
    if row < n - 1 {
        groups_partition_rows(lines, k, n - 1, row);
        if before.contains(row) {
            let j = choose|j: int| 0 <= j < before.len() && before[j] == row;
            assert(all[j] == row);
        }
        if all.contains(row) {
            let j = choose|j: int| 0 <= j < all.len() && all[j] == row;
            assert(before[j] == row);
        }
    } else {
        lemma_members_exist(lines, k, n - 1);
        if row_has(lines, row as int, k) {
            assert(all[before.len() as int] == row);
        } else if all.contains(row) {
            let j = choose|j: int| 0 <= j < all.len() && all[j] == row;
            assert(before[j] == row);
        }
    }
}

/// Numbers the groups of rows, and lists the rows of each.
pub fn index_rows(lines: &Vec<Term>) -> (r: (GroupIndex, Vec<Vec<usize>>))
    ensures
        r.0.wf(),
        r.0@ == group_keys(lines@),
        r.1@.len() == r.0@.len(),
        row_lists(r.1@) == grouped_rows(lines@),
        forall|g: int| 0 <= g < r.0@.len() ==> (#[trigger] r.1@[g])@ == members(lines@, r.0@[g], lines@.len() as int),
        forall|k: Key| !#[trigger] r.0@.contains(k) ==> members(lines@, k, lines@.len() as int).len() == 0,
        forall|g: int, i: int|
            0 <= g < r.1@.len() && 0 <= i < r.1@[g]@.len() ==> #[trigger] r.1@[g]@[i] < lines@.len(),
{
    let mut groups: GroupIndex = GroupIndex::new();
    let mut lists: Vec<Vec<usize>> = Vec::new();
    let mut i: usize = 0;
    while i < lines.len()
        invariant
            i <= lines@.len(),
            groups.wf(),
            groups@ == keys_seen(lines@, i as int),
            lists@.len() == groups@.len(),
            forall|g: int| 0 <= g < groups@.len() ==> (#[trigger] lists@[g])@ == members(lines@, groups@[g], i as int),
            forall|k: Key| !#[trigger] groups@.contains(k) ==> members(lines@, k, i as int).len() == 0,
        decreases lines.len() - i,
    {
        match lines[i] {
            Some((key, _)) => {
                let ghost before = groups@;
                let ghost old_lists = lists@;
                let n: usize = groups.len();
                let slot: usize = groups.slot_of(key);
                proof {
                    groups.keys_are_distinct();
                }
                if groups.len() > n {
                    let fresh: Vec<usize> = Vec::new();
                    lists.push(fresh);
                }
                proof {
                    assert(lists@[slot as int]@ =~= members(lines@, key, i as int)) by {
                        if !before.contains(key) {
                            assert(groups@ == before.push(key));
                            assert(slot == before.len()) by {
                                if slot < before.len() {
                                    assert(before.contains(before[slot as int]));
                                }
                            }
                            assert(members(lines@, key, i as int) =~= Seq::<usize>::empty());
                        }
                    }
                }
                let ghost mid = lists@;
                lists[slot].push(i);
                proof {
                    assert forall|g: int| 0 <= g < groups@.len() implies (#[trigger] lists@[g])@ == members(
                        lines@,
                        groups@[g],
                        i + 1,
                    ) by {
                        if g != slot {
                            assert(groups@[g] != key);
                            assert(before[g] == groups@[g]);
                            assert(lists@[g] == mid[g]);
                            assert(mid[g] == old_lists[g]);
                            assert(!row_has(lines@, i as int, groups@[g]));
                        } else {
                            assert(row_has(lines@, i as int, key));
                        }
                    }
                    assert forall|k: Key| !#[trigger] groups@.contains(k) implies members(lines@, k, i + 1).len() == 0 by {
                        assert(k != key) by {
                            assert(groups@[slot as int] == key);
                        }
                        assert(!row_has(lines@, i as int, k));
                        if before.contains(k) {
                            let j = choose|j: int| 0 <= j < before.len() && before[j] == k;
                            assert(groups@[j] == k);
                        }
                    }
                }
            },
            None => {
                proof {
                    assert forall|k: Key| !row_has(lines@, i as int, k) by {}
                }
            },
        }
        i = i + 1;
    }
    proof {
        assert(row_lists(lists@) =~= grouped_rows(lines@));
        assert forall|g: int, j: int| 0 <= g < lists@.len() && 0 <= j < lists@[g]@.len() implies #[trigger] lists@[g]@[j]
            < lines@.len() by {
            lemma_members_exist(lines@, groups@[g], lines@.len() as int);
        }
    }
    (groups, lists)
}

/// Lists the rows of each group.
pub fn group_rows(lines: &Vec<Term>) -> (r: Vec<Vec<usize>>)
    ensures
        row_lists(r@) == grouped_rows(lines@),
        forall|g: int, i: int|
            0 <= g < r@.len() && 0 <= i < r@[g]@.len() ==> #[trigger] r@[g]@[i] < lines@.len(),
{
    let (_, lists): (GroupIndex, Vec<Vec<usize>>) = index_rows(lines);
    lists
}

/// The rows of a group are listed in ascending order.
pub proof fn members_ascend(lines: Seq<Term>, k: Key, n: int)
    requires
        0 <= n <= lines.len(),
        n <= usize::MAX,
    ensures
        forall|i: int, j: int|
            0 <= i < j < members(lines, k, n).len() ==> #[trigger] members(lines, k, n)[i] < #[trigger] members(
                lines,
                k,
                n,
            )[j],
        forall|i: int| 0 <= i < members(lines, k, n).len() ==> #[trigger] members(lines, k, n)[i] < n,
    decreases n,
{
    lemma_members_exist(lines, k, n);
    if n > 0 {
        members_ascend(lines, k, n - 1);
        let all = members(lines, k, n);
        let before = members(lines, k, n - 1);
        assert forall|i: int, j: int| 0 <= i < j < all.len() implies #[trigger] all[i] < #[trigger] all[j] by {
            assert(before[i] < n - 1);
            if j < before.len() {
                assert(before[i] < before[j]);
            }
        }
    }
}


/// The groups on which a condition is true, among the first `n`.
pub open spec fn having_groups<
    F: Fn(FloatOp, u64, u64) -> u64,
    P: Fn(&str) -> Option<u64>,
>(c: Env<F, P>, having: Option<Expr2>, t: Held, groups: Seq<Seq<usize>>, n: nat) -> Result<
    Seq<Seq<usize>>,
    Fail,
>
    decreases n,
{
    if n == 0 {
        Ok(Seq::empty())
    } else {
        match having_groups(c, having, t, groups, (n - 1) as nat) {
            Ok(before) => match having {
                None => Ok(before.push(groups[n - 1])),
                Some(h) => match group_value(c, h, t, groups[n - 1]) {
                    Ok(v) => if is_true(v) {
                        Ok(before.push(groups[n - 1]))
                    } else {
                        Ok(before)
                    },
                    Err(f) => Err(f),
                },
            },
            Err(f) => Err(f),
        }
    }
}

proof fn lemma_having_fails<
    F: Fn(FloatOp, u64, u64) -> u64,
    P: Fn(&str) -> Option<u64>,
>(c: Env<F, P>, having: Option<Expr2>, t: Held, groups: Seq<Seq<usize>>, i: nat, n: nat)
    requires
        i <= n,
        having_groups(c, having, t, groups, i) is Err,
    ensures
        having_groups(c, having, t, groups, n) == having_groups(c, having, t, groups, i),
    decreases n,
{
    if i < n {
        lemma_having_fails(c, having, t, groups, i, (n - 1) as nat);
    }
}

fn apply_having<
    F: Fn(FloatOp, u64, u64) -> u64,
    P: Fn(&str) -> Option<u64>,
    S: Fn(&Expr2, &ExecTable, usize) -> Result<Value2, Error>,
>(c: &Ctx<'_, F, P, S>, having: &Option<Expr2>, t: &ExecTable, groups: Vec<Vec<usize>>) -> (r: Result<
    Vec<Vec<usize>>,
    Error,
>)
    requires
        ctx_ok(*c),
        t.wf(),
        groups_in(groups@, t@),
    ensures
        match r {
            Ok(kept) => having_groups(c@, *having, t@, row_lists(groups@), groups@.len()) == Ok::<Seq<Seq<usize>>, Fail>(
                row_lists(kept@),
            ) && groups_in(kept@, t@),
            Err(e) => having_groups(c@, *having, t@, row_lists(groups@), groups@.len()) == Err::<Seq<Seq<usize>>, Fail>(
                e@,
            ),
        },
{
    let ghost lists = row_lists(groups@);
    let mut kept: Vec<Vec<usize>> = Vec::new();
    let mut g: usize = 0;
    proof {
        assert(row_lists(kept@) =~= Seq::<Seq<usize>>::empty());
    }
    while g < groups.len()
        invariant
            ctx_ok(*c),
            t.wf(),
            groups_in(groups@, t@),
            lists == row_lists(groups@),
            g <= groups@.len(),
            having_groups(c@, *having, t@, lists, g as nat) == Ok::<Seq<Seq<usize>>, Fail>(row_lists(kept@)),
            groups_in(kept@, t@),
        decreases groups.len() - g,
    {
        let keep: bool = match having {
            None => true,
            Some(h) => match eval_agg_expr(c, h, t, &groups[g]) {
                Ok(v) => v.truthy(),
                Err(f) => {
                    proof {
                        assert(lists[g as int] == groups@[g as int]@);
                        assert(having_groups(c@, *having, t@, lists, (g + 1) as nat) == Err::<Seq<Seq<usize>>, Fail>(f@));
                        lemma_having_fails(c@, *having, t@, lists, (g + 1) as nat, groups@.len());
                    }
                    return Err(f);
                },
            },
        };
        let ghost before = row_lists(kept@);
        if keep {
            let rows: Vec<usize> = groups[g].clone();
            proof {
                assert(rows@ =~= groups@[g as int]@);
            }
            kept.push(rows);
            proof {
                assert(row_lists(kept@) =~= before.push(lists[g as int]));
            }
        }
        proof {
            assert(lists[g as int] == groups@[g as int]@);
        }
        g = g + 1;
    }
    Ok(kept)
}

/// The cell for a selected item on a group of rows.
pub open spec fn group_cell<
    F: Fn(FloatOp, u64, u64) -> u64,
    P: Fn(&str) -> Option<u64>,
    T: Fn(RowSum, &Vec<u64>, &Vec<u64>, &Vec<u64>, &Vec<usize>) -> u64,
>(c: Env<F, P>, s: T, select: Seq<SelectItem2>, k: int, t: Held, rows: Seq<usize>) -> u64 {
    if all_planned(select, t, true) {
        fused_cell(c.fpu, s, plan_of(select[k].expr, t, true)->0, t, rows)
    } else {
        match group_value(c, select[k].expr, t, rows) {
            Ok(v) => to_cell(v),
            Err(_) => 0,
        }
    }
}

/// The columns for groups of rows.
pub open spec fn grouped_columns<
    F: Fn(FloatOp, u64, u64) -> u64,
    P: Fn(&str) -> Option<u64>,
    T: Fn(RowSum, &Vec<u64>, &Vec<u64>, &Vec<u64>, &Vec<usize>) -> u64,
    D: Fn(u64) -> String,
>(
    c: Env<F, P>,
    s: T,
    d: D,
    select: Seq<SelectItem2>,
    t: Held,
    groups: Seq<Seq<usize>>,
) -> Seq<(Seq<char>, Seq<u64>)> {
    Seq::new(
        select.len(),
        |k: int| (item_name(d, select[k]), Seq::new(groups.len(), |g: int| group_cell(c, s, select, k, t, groups[g]))),
    )
}

fn group_columns<
    F: Fn(FloatOp, u64, u64) -> u64,
    P: Fn(&str) -> Option<u64>,
    S: Fn(&Expr2, &ExecTable, usize) -> Result<Value2, Error>,
    T: Fn(RowSum, &Vec<u64>, &Vec<u64>, &Vec<u64>, &Vec<usize>) -> u64,
    D: Fn(u64) -> String,
>(
    c: &Ctx<'_, F, P, S>,
    summer: &T,
    show: &D,
    select: &Vec<SelectItem2>,
    t: &ExecTable,
    groups: &Vec<Vec<usize>>,
) -> (r: QueryResult)
    requires
        ctx_ok(*c),
        is_summer(*summer),
        is_shower(*show),
        t.wf(),
        groups_in(groups@, t@),
    ensures
        r@ == grouped_columns(c@, *summer, *show, select@, t@, row_lists(groups@)),
        r.row_count == groups@.len(),
        r.wf(),
{
    let ghost lists = row_lists(groups@);
    let ghost want = grouped_columns(c@, *summer, *show, select@, t@, lists);
    let fused: Option<Vec<Vec<u64>>> = try_fused_grouped_agg(select, t, groups, c.fpu, summer);
    let mut columns: Vec<ResultColumn> = Vec::new();
    let mut k: usize = 0;
    while k < select.len()
        invariant
            ctx_ok(*c),
            is_shower(*show),
            t.wf(),
            groups_in(groups@, t@),
            lists == row_lists(groups@),
            want == grouped_columns(c@, *summer, *show, select@, t@, lists),
            match fused {
                Some(v) => {
                    &&& groups@.len() == 0 || all_planned(select@, t@, true)
                    &&& v@.len() == select@.len()
                    &&& forall|j: int|
                        0 <= j < v@.len() ==> (#[trigger] v@[j])@ == fused_cells(
                            *c.fpu,
                            *summer,
                            plan_of(select@[j].expr, t@, true)->0,
                            t@,
                            lists,
                        )
                },
                None => !all_planned(select@, t@, true),
            },
            k <= select@.len(),
            columns@.len() == k,
            forall|j: int| 0 <= j < k ==> column_view(#[trigger] columns@[j]) == want[j],
            forall|j: int| 0 <= j < k ==> (#[trigger] columns@[j]).values@.len() == groups@.len(),
        decreases select.len() - k,
    {
        let values: Vec<u64> = match &fused {
            Some(v) => {
                let cells: Vec<u64> = v[k].clone();
                proof {
                    assert(cells@ =~= v@[k as int]@);
                    assert(cells@ =~= want[k as int].1);
                }
                cells
            },
            None => {
                let mut cells: Vec<u64> = Vec::new();
                let mut g: usize = 0;
                while g < groups.len()
                    invariant
                        ctx_ok(*c),
                        t.wf(),
                        groups_in(groups@, t@),
                        lists == row_lists(groups@),
                        !all_planned(select@, t@, true),
                        k < select@.len(),
                        g <= groups@.len(),
                        cells@.len() == g,
                        forall|j: int|
                            0 <= j < g ==> #[trigger] cells@[j] == group_cell(
                                c@,
                                *summer,
                                select@,
                                k as int,
                                t@,
                                lists[j],
                            ),
                    decreases groups.len() - g,
                {
                    let cell: u64 = match eval_agg_expr(c, &select[k].expr, t, &groups[g]) {
                        Ok(v) => v.to_u64(),
                        Err(_) => 0,
                    };
                    cells.push(cell);
                    proof {
                        assert(lists[g as int] == groups@[g as int]@);
                    }
                    g = g + 1;
                }
                proof {
                    assert(cells@ =~= want[k as int].1);
                }
                cells
            },
        };
        columns.push(ResultColumn { name: name_item(&select[k], show), values, string_values: None });
        k = k + 1;
    }
    let r: QueryResult = QueryResult { columns, row_count: groups.len(), elapsed_us: 0 };
    proof {
        assert(r@ =~= want);
    }
    r
}

/// The values of the first `n` selected items on all rows as one group.
pub open spec fn scalar_columns<
    F: Fn(FloatOp, u64, u64) -> u64,
    P: Fn(&str) -> Option<u64>,
    D: Fn(u64) -> String,
>(c: Env<F, P>, d: D, select: Seq<SelectItem2>, t: Held, rows: Seq<usize>, n: nat) -> Result<
    Seq<(Seq<char>, Seq<u64>)>,
    Fail,
>
    decreases n,
{
    if n == 0 {
        Ok(Seq::empty())
    } else {
        match scalar_columns(c, d, select, t, rows, (n - 1) as nat) {
            Ok(before) => match group_value(c, select[n - 1].expr, t, rows) {
                Ok(v) => Ok(before.push((item_name(d, select[n - 1]), seq![to_cell(v)]))),
                Err(f) => Err(f),
            },
            Err(f) => Err(f),
        }
    }
}

proof fn lemma_scalar_fails<
    F: Fn(FloatOp, u64, u64) -> u64,
    P: Fn(&str) -> Option<u64>,
    D: Fn(u64) -> String,
>(c: Env<F, P>, d: D, select: Seq<SelectItem2>, t: Held, rows: Seq<usize>, i: nat, n: nat)
    requires
        i <= n,
        scalar_columns(c, d, select, t, rows, i) is Err,
    ensures
        scalar_columns(c, d, select, t, rows, n) == scalar_columns(c, d, select, t, rows, i),
    decreases n,
{
    if i < n {
        lemma_scalar_fails(c, d, select, t, rows, i, (n - 1) as nat);
    }
}

/// Computes the selected items on all listed rows as one group.
pub fn execute_scalar_agg<
    F: Fn(FloatOp, u64, u64) -> u64,
    P: Fn(&str) -> Option<u64>,
    S: Fn(&Expr2, &ExecTable, usize) -> Result<Value2, Error>,
    D: Fn(u64) -> String,
>(c: &Ctx<'_, F, P, S>, select: &Vec<SelectItem2>, t: &ExecTable, rows: &Vec<usize>, show: &D) -> (r: Result<
    QueryResult,
    Error,
>)
    requires
        ctx_ok(*c),
        is_shower(*show),
        t.wf(),
        rows_in(rows@, t@),
    ensures
        match r {
            Ok(q) => {
                &&& scalar_columns(c@, *show, select@, t@, rows@, select@.len()) == Ok::<
                    Seq<(Seq<char>, Seq<u64>)>,
                    Fail,
                >(q@)
                &&& q.row_count == 1
                &&& q.bare()
                &&& q.wf()
            },
            Err(e) => scalar_columns(c@, *show, select@, t@, rows@, select@.len()) == Err::<
                Seq<(Seq<char>, Seq<u64>)>,
                Fail,
            >(e@),
        },
{
    let mut q: QueryResult = QueryResult { columns: Vec::new(), row_count: 1, elapsed_us: 0 };
    let mut k: usize = 0;
    proof {
        assert(q@ =~= Seq::<(Seq<char>, Seq<u64>)>::empty());
    }
    while k < select.len()
        invariant
            ctx_ok(*c),
            is_shower(*show),
            t.wf(),
            rows_in(rows@, t@),
            k <= select@.len(),
            q.row_count == 1,
            q.bare(),
            q.wf(),
            scalar_columns(c@, *show, select@, t@, rows@, k as nat) == Ok::<Seq<(Seq<char>, Seq<u64>)>, Fail>(q@),
        decreases select.len() - k,
    {
        let ghost before = q@;
        match eval_agg_expr(c, &select[k].expr, t, rows) {
            Ok(v) => {
                let mut values: Vec<u64> = Vec::new();
                values.push(v.to_u64());
                proof {
                    assert(values@ =~= seq![to_cell(v@)]);
                }
                q.columns.push(ResultColumn { name: name_item(&select[k], show), values, string_values: None });
                proof {
                    assert(q@ =~= before.push((item_name(*show, select@[k as int]), seq![to_cell(v@)])));
                }
            },
            Err(f) => {
                proof {
                    assert(scalar_columns(c@, *show, select@, t@, rows@, (k + 1) as nat) is Err);
                    lemma_scalar_fails(c@, *show, select@, t@, rows@, (k + 1) as nat, select@.len());
                }
                return Err(f);
            },
        }
        k = k + 1;
    }
    Ok(q)
}

/// What a grouped query comes to.
pub open spec fn grouped_outcome<
    F: Fn(FloatOp, u64, u64) -> u64,
    P: Fn(&str) -> Option<u64>,
    T: Fn(RowSum, &Vec<u64>, &Vec<u64>, &Vec<u64>, &Vec<usize>) -> u64,
    D: Fn(u64) -> String,
>(
    c: Env<F, P>,
    s: T,
    d: D,
    query: SelectQuery2,
    t: Held,
    mask: Seq<bool>,
) -> Result<Rows, Fail> {
    let lines = group_lines(c, query.group_by@, t, mask);
    let groups = grouped_rows(lines);
    if query.group_by@.len() == 0 {
        match scalar_columns(c, d, query.select@, t, marked_rows(mask, mask.len() as int), query.select@.len()) {
            Ok(columns) => Ok(Rows { columns, row_count: 1 }),
            Err(f) => Err(f),
        }
    } else if low_card_fits(c, query, t, mask) {
        Ok(
            finished(
                d,
                low_card_columns(c, d, query, t, mask),
                group_keys(lines).len() as int,
                query.order_by@,
                query.limit,
            ),
        )
    } else {
        match having_groups(c, query.having, t, groups, groups.len()) {
            Ok(kept) => Ok(
                finished(
                    d,
                    grouped_columns(c, s, d, query.select@, t, kept),
                    kept.len() as int,
                    query.order_by@,
                    query.limit,
                ),
            ),
            Err(f) => Err(f),
        }
    }
}

/// Answers a grouped query on the marked rows of a table.
pub fn execute_grouped<
    F: Fn(FloatOp, u64, u64) -> u64,
    P: Fn(&str) -> Option<u64>,
    S: Fn(&Expr2, &ExecTable, usize) -> Result<Value2, Error>,
    T: Fn(RowSum, &Vec<u64>, &Vec<u64>, &Vec<u64>, &Vec<usize>) -> u64,
    D: Fn(u64) -> String,
>(
    c: &Ctx<'_, F, P, S>,
    summer: &T,
    show: &D,
    query: &SelectQuery2,
    t: &ExecTable,
    mask: &Vec<bool>,
) -> (r: Result<QueryResult, Error>)
    requires
        ctx_ok(*c),
        is_summer(*summer),
        is_shower(*show),
        t.wf(),
        mask@.len() == t.row_count,
    ensures
        answer_outcome(r) == grouped_outcome(c@, *summer, *show, *query, t@, mask@),
        r matches Ok(q) ==> q.wf() && q.bare(),
{
    if query.group_by.len() == 0 {
        let rows: Vec<usize> = list_marked(mask);
        return execute_scalar_agg(c, &query.select, t, &rows, show);
    }
    match try_low_card_grouped(c, query, t, mask, show) {
        Some(q) => {
            return Ok(q);
        },
        None => {},
    }
    let lines: Vec<Term> = group_marked(c, &query.group_by, t, mask);
    let groups: Vec<Vec<usize>> = group_rows(&lines);
    proof {
        assert(groups_in(groups@, t@)) by {
            assert forall|g: int| 0 <= g < groups@.len() implies rows_in((#[trigger] groups@[g])@, t@) by {
                assert forall|i: int| 0 <= i < groups@[g]@.len() implies #[trigger] groups@[g]@[i] < t.row_count by {}
            }
        }
        assert(row_lists(groups@).len() == groups@.len());
    }
    match apply_having(c, &query.having, t, groups) {
        Ok(kept) => {
            let s: QueryResult = group_columns(c, summer, show, &query.select, t, &kept);
            proof {
                assert(row_lists(kept@).len() == kept@.len());
            }
            Ok(finish(s, &query.order_by, query.limit, show))
        },
        Err(f) => Err(f),
    }
}

} // verus!
