//! Late lines of one year by ship mode and by the class of their order.

use crate::dates::{date_cell, date_to_days};
use crate::error::Error;
use crate::float_bits::{arith, is_arith, FloatOp};
use crate::group_index::{row_of_key, RowIndex};
use crate::hashing::{hash_text, text_hash};
use crate::table::{column_view, Catalog, QueryResult, ResultColumn, Table};
use crate::tpch::support::{
    answers, col, column, found, has_columns, has_part, need, no_table_text, not_found, result, table_of, table_ok,
    text_has,
};
use vstd::prelude::*;

verus! {

/// Whether a query text is this query.
pub open spec fn q12_text(sql: Seq<char>) -> bool {
    has_part(sql, "high_line_count"@) && has_part(sql, "low_line_count"@) && has_part(sql, "l_shipmode IN ('MAIL', 'SHIP')"@) && has_part(sql, "1994-01-01"@)
}

pub fn is_q12(sql: &str) -> (b: bool)
    ensures
        b == q12_text(sql@),
{
    text_has(sql, "high_line_count") && text_has(sql, "low_line_count") && text_has(sql, "l_shipmode IN ('MAIL', 'SHIP')") && text_has(sql, "1994-01-01")
}

/// Marks of the orders of high priority.
pub open spec fn high_orders(orders: Table) -> Seq<bool> {
    Seq::new(
        orders.row_count as nat,
        |i: int| col(orders, 5)[i] == text_hash("1-URGENT"@) || col(orders, 5)[i] == text_hash("2-HIGH"@),
    )
}

/// The ship mode of a line: the first of the two that are asked for, the second,
/// or neither.
pub open spec fn ship_mode(mode: u64) -> Option<int> {
    if mode == text_hash("MAIL"@) {
        Some(0)
    } else if mode == text_hash("SHIP"@) {
        Some(1)
    } else {
        None
    }
}

/// A line counts if it was shipped before and received after its committed
/// date, and received in the year.
pub open spec fn q12_counts(lineitem: Table, i: int) -> bool {
    &&& col(lineitem, 11)[i] < col(lineitem, 12)[i]
    &&& col(lineitem, 10)[i] < col(lineitem, 11)[i]
    &&& date_cell(1994, 1, 1) <= col(lineitem, 12)[i] < date_cell(1995, 1, 1)
}

/// How many of the first `n` lines count for a ship mode and a class.
pub open spec fn q12_count(orders: Table, lineitem: Table, mode: int, high: bool, n: int) -> int
    decreases n,
{
    if n <= 0 {
        0
    } else {
        q12_count(orders, lineitem, mode, high, n - 1) + (if ship_mode(col(lineitem, 14)[n - 1]) == Some(mode)
            && q12_counts(lineitem, n - 1) && high == (row_of_key(
            col(orders, 0),
            high_orders(orders),
            col(lineitem, 0)[n - 1],
        ) is Some) {
            1int
        } else {
            0
        })
    }
}

/// A count as a double.
pub open spec fn q12_cell<F: Fn(FloatOp, u64, u64) -> u64>(
    f: F,
    orders: Table,
    lineitem: Table,
    mode: int,
    high: bool,
) -> u64 {
    arith(f, FloatOp::FromU64, q12_count(orders, lineitem, mode, high, lineitem.row_count as int) as u64, 0)
}

/// The answer.
pub open spec fn q12_outcome<F: Fn(FloatOp, u64, u64) -> u64>(
    f: F,
    orders: Table,
    lineitem: Table,
    r: Result<QueryResult, Error>,
) -> bool {
    answers(
        r,
        seq![
            ("l_shipmode"@, seq![text_hash("MAIL"@), text_hash("SHIP"@)]),
            (
                "high_line_count"@,
                seq![q12_cell(f, orders, lineitem, 0, true), q12_cell(f, orders, lineitem, 1, true)],
            ),
            (
                "low_line_count"@,
                seq![q12_cell(f, orders, lineitem, 0, false), q12_cell(f, orders, lineitem, 1, false)],
            ),
        ],
        2,
    )
}

/// What the query comes to on the tables of a catalog.
pub open spec fn q12_result<F: Fn(FloatOp, u64, u64) -> u64>(f: F, catalog: Catalog, r: Result<QueryResult, Error>) -> bool {
    if !found(catalog, "orders"@) {
        not_found(r, no_table_text("orders"@))
    } else if !found(catalog, "lineitem"@) {
        not_found(r, no_table_text("lineitem"@))
    } else {
        q12_outcome(
            f,
            table_of(catalog, "orders"@),
            table_of(catalog, "lineitem"@),
            r,
        )
    }
}

/// Evaluates the query.
pub fn execute_q12_reformulated<F: Fn(FloatOp, u64, u64) -> u64>(catalog: &Catalog, fpu: &F) -> (r: Result<QueryResult, Error>)
    requires
        is_arith(*fpu),
        table_ok(*catalog, "orders"@, 6),
        table_ok(*catalog, "lineitem"@, 15),
    ensures
        q12_result(*fpu, *catalog, r),
{
    let orders: &Table = match need(catalog, "orders") {
        Ok(t) => t,
        Err(e) => {
            return Err(e);
        },
    };
    let lineitem: &Table = match need(catalog, "lineitem") {
        Ok(t) => t,
        Err(e) => {
            return Err(e);
        },
    };
    q12_answer(orders, lineitem, fpu)
}

/// Evaluates the query on its tables.
pub fn q12_answer<F: Fn(FloatOp, u64, u64) -> u64>(
    orders: &Table,
    lineitem: &Table,
    fpu: &F,
) -> (r: Result<QueryResult, Error>)
    requires
        is_arith(*fpu),
        has_columns(*orders, 6),
        has_columns(*lineitem, 15),
    ensures
        q12_outcome(*fpu, *orders, *lineitem, r),
{
    let urgent: u64 = hash_text("1-URGENT");
    let high_hash: u64 = hash_text("2-HIGH");
    let mail: u64 = hash_text("MAIL");
    let ship: u64 = hash_text("SHIP");
    let mut order_marks: Vec<bool> = Vec::new();
    let mut j: usize = 0;
    while j < orders.row_count
        invariant
            has_columns(*orders, 6),
            urgent == text_hash("1-URGENT"@),
            high_hash == text_hash("2-HIGH"@),
            j <= orders.row_count,
            order_marks.len() == j,
            forall|k: int| 0 <= k < j ==> #[trigger] order_marks@[k] == high_orders(*orders)[k],
        decreases orders.row_count - j,
    {
        let p: u64 = orders.columns[5][j];
        order_marks.push(p == urgent || p == high_hash);
        j = j + 1;
    }
    proof {
        assert(order_marks@ =~= high_orders(*orders));
    }
    let high: RowIndex = RowIndex::build(&orders.columns[0], &order_marks);
    let first_day: u64 = date_to_days(1994, 1, 1);
    let end_day: u64 = date_to_days(1995, 1, 1);
    let mut high_mail: u64 = 0;
    let mut low_mail: u64 = 0;
    let mut high_ship: u64 = 0;
    let mut low_ship: u64 = 0;
    let n: usize = lineitem.row_count;
    let mut i: usize = 0;
    while i < n
        invariant
            has_columns(*lineitem, 15),
            high.wf(),
            high.keys() == col(*orders, 0),
            high.marks() == high_orders(*orders),
            mail == text_hash("MAIL"@),
            ship == text_hash("SHIP"@),
            first_day == date_cell(1994, 1, 1),
            end_day == date_cell(1995, 1, 1),
            n == lineitem.row_count,
            i <= n,
            high_mail <= i,
            low_mail <= i,
            high_ship <= i,
            low_ship <= i,
            high_mail == q12_count(*orders, *lineitem, 0, true, i as int),
            low_mail == q12_count(*orders, *lineitem, 0, false, i as int),
            high_ship == q12_count(*orders, *lineitem, 1, true, i as int),
            low_ship == q12_count(*orders, *lineitem, 1, false, i as int),
        decreases n - i,
    {
        let mode: u64 = lineitem.columns[14][i];
        let committed: u64 = lineitem.columns[11][i];
        let received: u64 = lineitem.columns[12][i];
        if committed < received && lineitem.columns[10][i] < committed && first_day <= received && received < end_day {
            let is_high: bool = high.holds(lineitem.columns[0][i]);
            if mode == mail {
                if is_high {
                    high_mail = high_mail + 1;
                } else {
                    low_mail = low_mail + 1;
                }
            } else if mode == ship {
                if is_high {
                    high_ship = high_ship + 1;
                } else {
                    low_ship = low_ship + 1;
                }
            }
        }
        i = i + 1;
    }
    let mut modes: Vec<u64> = Vec::new();
    modes.push(mail);
    modes.push(ship);
    let mut highs: Vec<u64> = Vec::new();
    highs.push(fpu(FloatOp::FromU64, high_mail, 0));
    highs.push(fpu(FloatOp::FromU64, high_ship, 0));
    let mut lows: Vec<u64> = Vec::new();
    lows.push(fpu(FloatOp::FromU64, low_mail, 0));
    lows.push(fpu(FloatOp::FromU64, low_ship, 0));
    proof {
        assert(modes@ =~= seq![text_hash("MAIL"@), text_hash("SHIP"@)]);
        assert(highs@ =~= seq![
            q12_cell(*fpu, *orders, *lineitem, 0, true),
            q12_cell(*fpu, *orders, *lineitem, 1, true),
        ]);
        assert(lows@ =~= seq![
            q12_cell(*fpu, *orders, *lineitem, 0, false),
            q12_cell(*fpu, *orders, *lineitem, 1, false),
        ]);
    }
    let mut columns: Vec<ResultColumn> = Vec::new();
    columns.push(column("l_shipmode", modes));
    columns.push(column("high_line_count", highs));
    columns.push(column("low_line_count", lows));
    proof {
        assert(columns@.map_values(|c: ResultColumn| column_view(c)) =~= seq![
            ("l_shipmode"@, modes@),
            ("high_line_count"@, highs@),
            ("low_line_count"@, lows@),
        ]);
    }
    result(columns, 2)
}

/// How many of the first `n` lines count for a ship mode, whatever their class.
pub open spec fn q12_mode_count(lineitem: Table, mode: int, n: int) -> int
    decreases n,
{
    if n <= 0 {
        0
    } else {
        q12_mode_count(lineitem, mode, n - 1) + (if ship_mode(col(lineitem, 14)[n - 1]) == Some(mode) && q12_counts(
            lineitem,
            n - 1,
        ) {
            1int
        } else {
            0
        })
    }
}

/// Every line that counts for a ship mode counts in one of the two classes.
pub proof fn classes_share_the_lines(orders: Table, lineitem: Table, mode: int, n: int)
    ensures
        q12_count(orders, lineitem, mode, true, n) + q12_count(orders, lineitem, mode, false, n) == q12_mode_count(
            lineitem,
            mode,
            n,
        ),
    decreases n,
{
    if n > 0 {
        classes_share_the_lines(orders, lineitem, mode, n - 1);
    }
}

} // verus!
