//! The share of promoted parts in the revenue of one month.

use crate::dates::{date_cell, date_to_days};
use crate::error::Error;
use crate::float_bits::{arith, discount_price, discounted, is_arith, FloatOp};
use crate::group_index::{row_of_key, RowIndex};
use crate::table::{column_view, Catalog, QueryResult, ResultColumn, StringSearchColumn, Table};
use crate::tpch::sums::{slot_key, slot_sum, sum_slots, Term, BLOCK};
use crate::tpch::support::{
    answers, begins_with, col, column, found, has_columns, has_part, missing, need, no_table_text, not_found, result,
    string_at, table_of, table_ok, text_begins_with, text_has,
};
use vstd::prelude::*;

verus! {

/// Whether a query text is this query.
pub open spec fn q14_text(sql: Seq<char>) -> bool {
    has_part(sql, "promo_revenue"@) && has_part(sql, "PROMO%"@) && has_part(sql, "l_shipdate >= date '1995-09-01'"@)
}

pub fn is_q14(sql: &str) -> (b: bool)
    ensures
        b == q14_text(sql@),
{
    text_has(sql, "promo_revenue") && text_has(sql, "PROMO%") && text_has(sql, "l_shipdate >= date '1995-09-01'")
}

/// The bit pattern of `100`.
pub const HUNDRED_BITS: u64 = 0x4059_0000_0000_0000;

/// Marks of the promoted parts.
pub open spec fn promoted_parts(part: Table) -> Seq<bool> {
    Seq::new(part.row_count as nat, |i: int| begins_with(string_at(part, 4, i), "PROMO"@))
}

/// What a line of the month adds to the revenue.
pub open spec fn q14_line<F: Fn(FloatOp, u64, u64) -> u64>(f: F, lineitem: Table, i: int) -> Term {
    if date_cell(1995, 9, 1) <= col(lineitem, 10)[i] < date_cell(1995, 10, 1) {
        Some((slot_key(0), discounted(f, col(lineitem, 5)[i], col(lineitem, 6)[i])))
    } else {
        None
    }
}

/// What a line of a promoted part adds.
pub open spec fn q14_promoted_line<F: Fn(FloatOp, u64, u64) -> u64>(f: F, part: Table, lineitem: Table, i: int) -> Term {
    if row_of_key(col(part, 0), promoted_parts(part), col(lineitem, 1)[i]) is Some {
        q14_line(f, lineitem, i)
    } else {
        None
    }
}

pub open spec fn q14_lines<F: Fn(FloatOp, u64, u64) -> u64>(f: F, lineitem: Table) -> Seq<Term> {
    Seq::new(lineitem.row_count as nat, |i: int| q14_line(f, lineitem, i))
}

pub open spec fn q14_promoted_lines<F: Fn(FloatOp, u64, u64) -> u64>(f: F, part: Table, lineitem: Table) -> Seq<Term> {
    Seq::new(lineitem.row_count as nat, |i: int| q14_promoted_line(f, part, lineitem, i))
}

/// The share in percent.
pub open spec fn promo_share<F: Fn(FloatOp, u64, u64) -> u64>(f: F, promoted: u64, total: u64) -> u64 {
    arith(f, FloatOp::Div, arith(f, FloatOp::Mul, HUNDRED_BITS, promoted), total)
}

/// The answer.
pub open spec fn q14_outcome<F: Fn(FloatOp, u64, u64) -> u64>(
    f: F,
    part: Table,
    lineitem: Table,
    r: Result<QueryResult, Error>,
) -> bool {
    if part.string_columns@[4] is None {
        not_found(r, "p_type StringSearchColumn"@)
    } else {
        answers(
            r,
            seq![
                (
                    "promo_revenue"@,
                    seq![
                        promo_share(
                            f,
                            slot_sum(f, q14_promoted_lines(f, part, lineitem), 0, BLOCK as int),
                            slot_sum(f, q14_lines(f, lineitem), 0, BLOCK as int),
                        ),
                    ],
                ),
            ],
            1,
        )
    }
}

fn mark_promoted(part: &Table, kinds: &StringSearchColumn) -> (m: Vec<bool>)
    requires
        has_columns(*part, 5),
        part.string_columns@[4] == Some(*kinds),
    ensures
        m@ == promoted_parts(*part),
{
    let mut m: Vec<bool> = Vec::new();
    let mut i: usize = 0;
    while i < part.row_count
        invariant
            has_columns(*part, 5),
            part.string_columns@[4] == Some(*kinds),
            i <= part.row_count,
            m.len() == i,
            forall|k: int| 0 <= k < i ==> #[trigger] m@[k] == promoted_parts(*part)[k],
        decreases part.row_count - i,
    {
        m.push(text_begins_with(kinds.get(i), "PROMO"));
        i = i + 1;
    }
    proof {
        assert(m@ =~= promoted_parts(*part));
    }
    m
}

/// What the query comes to on the tables of a catalog.
pub open spec fn q14_result<F: Fn(FloatOp, u64, u64) -> u64>(f: F, catalog: Catalog, r: Result<QueryResult, Error>) -> bool {
    if !found(catalog, "part"@) {
        not_found(r, no_table_text("part"@))
    } else if !found(catalog, "lineitem"@) {
        not_found(r, no_table_text("lineitem"@))
    } else {
        q14_outcome(
            f,
            table_of(catalog, "part"@),
            table_of(catalog, "lineitem"@),
            r,
        )
    }
}

/// Evaluates the query.
pub fn execute_q14_reformulated<F: Fn(FloatOp, u64, u64) -> u64>(catalog: &Catalog, fpu: &F) -> (r: Result<QueryResult, Error>)
    requires
        is_arith(*fpu),
        table_ok(*catalog, "part"@, 5),
        table_ok(*catalog, "lineitem"@, 11),
    ensures
        q14_result(*fpu, *catalog, r),
{
    let part: &Table = match need(catalog, "part") {
        Ok(t) => t,
        Err(e) => {
            return Err(e);
        },
    };
    let lineitem: &Table = match need(catalog, "lineitem") {
        Ok(t) => t,
        Err(e) => {
            return Err(e);
        },
    };
    q14_answer(part, lineitem, fpu)
}

/// Evaluates the query on its tables.
pub fn q14_answer<F: Fn(FloatOp, u64, u64) -> u64>(
    part: &Table,
    lineitem: &Table,
    fpu: &F,
) -> (r: Result<QueryResult, Error>)
    requires
        is_arith(*fpu),
        has_columns(*part, 5),
        has_columns(*lineitem, 11),
    ensures
        q14_outcome(*fpu, *part, *lineitem, r),
{
    let kinds: &StringSearchColumn = match &part.string_columns[4] {
        Some(s) => s,
        None => {
            return Err(missing("p_type StringSearchColumn"));
        },
    };
    let parts: RowIndex = RowIndex::build(&part.columns[0], &mark_promoted(part, kinds));
    let first_day: u64 = date_to_days(1995, 9, 1);
    let end_day: u64 = date_to_days(1995, 10, 1);
    let mut all: Vec<Term> = Vec::new();
    let mut promoted: Vec<Term> = Vec::new();
    let n: usize = lineitem.row_count;
    let mut i: usize = 0;
    while i < n
        invariant
            is_arith(*fpu),
            has_columns(*lineitem, 11),
            n == lineitem.row_count,
            i <= n,
            first_day == date_cell(1995, 9, 1),
            end_day == date_cell(1995, 10, 1),
            parts.wf(),
            parts.keys() == col(*part, 0),
            parts.marks() == promoted_parts(*part),
            all.len() == i,
            promoted.len() == i,
            forall|k: int| 0 <= k < i ==> #[trigger] all@[k] == q14_line(*fpu, *lineitem, k),
            forall|k: int| 0 <= k < i ==> #[trigger] promoted@[k] == q14_promoted_line(*fpu, *part, *lineitem, k),
        decreases n - i,
    {
        let day: u64 = lineitem.columns[10][i];
        let line: Term = if first_day <= day && day < end_day {
            Some(((0, 0, 0), discount_price(fpu, lineitem.columns[5][i], lineitem.columns[6][i])))
        } else {
            None
        };
        all.push(line);
        if parts.holds(lineitem.columns[1][i]) {
            promoted.push(line);
        } else {
            promoted.push(None);
        }
        i = i + 1;
    }
    proof {
        assert(all@ =~= q14_lines(*fpu, *lineitem));
        assert(promoted@ =~= q14_promoted_lines(*fpu, *part, *lineitem));
    }
    let total: Vec<u64> = sum_slots(&all, 1, BLOCK, fpu);
    let promo: Vec<u64> = sum_slots(&promoted, 1, BLOCK, fpu);
    let scaled: u64 = fpu(FloatOp::Mul, HUNDRED_BITS, promo[0]);
    let mut values: Vec<u64> = Vec::new();
    values.push(fpu(FloatOp::Div, scaled, total[0]));
    proof {
        assert(values@ =~= seq![promo_share(*fpu, promo@[0], total@[0])]);
    }
    let mut columns: Vec<ResultColumn> = Vec::new();
    columns.push(column("promo_revenue", values));
    proof {
        assert(columns@.map_values(|c: ResultColumn| column_view(c)) =~= seq![
            ("promo_revenue"@, values@),
        ]);
    }
    result(columns, 1)
}

} // verus!
