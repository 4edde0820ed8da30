//! The unshipped orders of one market segment that are worth most.

use crate::dates::{date_cell, date_to_days};
use crate::error::Error;
use crate::float_bits::{
    descending, discount_price, discounted, is_arith, reversed, sort_rank, total_rank, FloatOp,
};
use crate::group_index::{row_of_key, Key, RowIndex};
use crate::hashing::{hash_text, text_hash};
use crate::order::{is_stable_order, key_rows, stable_order};
use crate::table::{column_view, Catalog, QueryResult, ResultColumn, Table};
use crate::tpch::sums::{first_words, group_keys, split_keys, sum_groups, sums_of, Term};
use crate::tpch::support::{
    all_marked, answers, col, column, found, has_columns, has_part, lemma_order_bounds, limited, look_up, mark_all,
    mark_equal, marks_equal, need, no_table_text, not_found, pick, picked, result, table_cells, table_of, table_ok,
    text_has,
};
use vstd::prelude::*;

verus! {

/// Whether a query text is this query.
pub open spec fn q3_text(sql: Seq<char>) -> bool {
    has_part(sql, "revenue"@) && has_part(sql, "o_shippriority"@) && has_part(sql, "c_mktsegment = 'BUILDING'"@) && has_part(sql, "1995-03-15"@)
}

pub fn is_q3(sql: &str) -> (b: bool)
    ensures
        b == q3_text(sql@),
{
    text_has(sql, "revenue") && text_has(sql, "o_shippriority") && text_has(sql, "c_mktsegment = 'BUILDING'") && text_has(sql, "1995-03-15")
}

/// How many orders are listed.
pub const Q3_LIMIT: usize = 10;

/// The day that divides orders from shipments.
pub open spec fn q3_day() -> u64 {
    date_cell(1995, 3, 15)
}

/// An order counts if its customer is of the segment and it was placed before
/// the day.
pub open spec fn q3_order(customer: Table, orders: Table, key: u64) -> bool {
    match row_of_key(col(orders, 0), all_marked(orders.row_count as nat), key) {
        Some(o) => row_of_key(
            col(customer, 0),
            marks_equal(col(customer, 6), text_hash("BUILDING"@)),
            col(orders, 1)[o as int],
        ) is Some && col(orders, 4)[o as int] < q3_day(),
        None => false,
    }
}

/// What a line, shipped after the day, adds to the revenue of its order.
pub open spec fn q3_line<F: Fn(FloatOp, u64, u64) -> u64>(
    f: F,
    customer: Table,
    orders: Table,
    lineitem: Table,
    i: int,
) -> Term {
    if col(lineitem, 10)[i] > q3_day() && q3_order(customer, orders, col(lineitem, 0)[i]) {
        Some(((col(lineitem, 0)[i], 0u64, 0u64), discounted(f, col(lineitem, 5)[i], col(lineitem, 6)[i])))
    } else {
        None
    }
}

/// The lines.
pub open spec fn q3_lines<F: Fn(FloatOp, u64, u64) -> u64>(
    f: F,
    customer: Table,
    orders: Table,
    lineitem: Table,
) -> Seq<Term> {
    Seq::new(lineitem.row_count as nat, |i: int| q3_line(f, customer, orders, lineitem, i))
}

/// Sorting by revenue, the greatest first, then by date.
pub open spec fn q3_order_keys(revenues: Seq<u64>, dates: Seq<u64>) -> Seq<Seq<u64>> {
    Seq::new(revenues.len(), |i: int| seq![descending(total_rank(revenues[i])), dates[i]])
}

/// The answer.
pub open spec fn q3_outcome<F: Fn(FloatOp, u64, u64) -> u64>(
    f: F,
    customer: Table,
    orders: Table,
    lineitem: Table,
    r: Result<QueryResult, Error>,
) -> bool {
    let lines = q3_lines(f, customer, orders, lineitem);
    let groups = group_keys(lines);
    let which = first_words(groups);
    let revenues = sums_of(f, lines, groups);
    let dates = table_cells(orders, 4, which, 0);
    let n = limited(groups.len() as int, Q3_LIMIT as int);
    exists|order: Seq<usize>| #[trigger]
        is_stable_order(q3_order_keys(revenues, dates), order) && answers(
            r,
            seq![
                ("l_orderkey"@, picked(which, order, n)),
                ("revenue"@, picked(revenues, order, n)),
                ("o_orderdate"@, picked(dates, order, n)),
                ("o_shippriority"@, picked(table_cells(orders, 7, which, 0), order, n)),
            ],
            n,
        )
}

/// What the query comes to on the tables of a catalog.
pub open spec fn q3_result<F: Fn(FloatOp, u64, u64) -> u64>(f: F, catalog: Catalog, r: Result<QueryResult, Error>) -> bool {
    if !found(catalog, "customer"@) {
        not_found(r, no_table_text("customer"@))
    } else if !found(catalog, "orders"@) {
        not_found(r, no_table_text("orders"@))
    } else if !found(catalog, "lineitem"@) {
        not_found(r, no_table_text("lineitem"@))
    } else {
        q3_outcome(
            f,
            table_of(catalog, "customer"@),
            table_of(catalog, "orders"@),
            table_of(catalog, "lineitem"@),
            r,
        )
    }
}

/// Evaluates the query.
pub fn execute_q3_reformulated<F: Fn(FloatOp, u64, u64) -> u64>(catalog: &Catalog, fpu: &F) -> (r: Result<QueryResult, Error>)
    requires
        is_arith(*fpu),
        table_ok(*catalog, "customer"@, 7),
        table_ok(*catalog, "orders"@, 8),
        table_ok(*catalog, "lineitem"@, 11),
    ensures
        q3_result(*fpu, *catalog, r),
{
    let customer: &Table = match need(catalog, "customer") {
        Ok(t) => t,
        Err(e) => {
            return Err(e);
        },
    };
    let orders: &Table = match need(catalog, "orders") {
        Ok(t) => t,
        Err(e) => {
            return Err(e);
        },
    };
    let lineitem: &Table = match need(catalog, "lineitem") {
        Ok(t) => t,
        Err(e) => {
            return Err(e);
        },
    };
    q3_answer(customer, orders, lineitem, fpu)
}

/// Evaluates the query on its tables.
pub fn q3_answer<F: Fn(FloatOp, u64, u64) -> u64>(
    customer: &Table,
    orders: &Table,
    lineitem: &Table,
    fpu: &F,
) -> (r: Result<QueryResult, Error>)
    requires
        is_arith(*fpu),
        has_columns(*customer, 7),
        has_columns(*orders, 8),
        has_columns(*lineitem, 11),
    ensures
        q3_outcome(*fpu, *customer, *orders, *lineitem, r),
{
    let day: u64 = date_to_days(1995, 3, 15);
    let customers: RowIndex = RowIndex::build(
        &customer.columns[0],
        &mark_equal(&customer.columns[6], hash_text("BUILDING")),
    );
    let all_orders: RowIndex = RowIndex::build(&orders.columns[0], &mark_all(orders.row_count));
    let mut lines: Vec<Term> = Vec::new();
    let n: usize = lineitem.row_count;
    let mut i: usize = 0;
    while i < n
        invariant
            is_arith(*fpu),
            has_columns(*orders, 8),
            has_columns(*lineitem, 11),
            n == lineitem.row_count,
            i <= n,
            day == q3_day(),
            customers.wf(),
            customers.keys() == col(*customer, 0),
            customers.marks() == marks_equal(col(*customer, 6), text_hash("BUILDING"@)),
            all_orders.wf(),
            all_orders.keys() == col(*orders, 0),
            all_orders.marks() == all_marked(orders.row_count as nat),
            lines.len() == i,
            forall|k: int| 0 <= k < i ==> #[trigger] lines@[k] == q3_line(*fpu, *customer, *orders, *lineitem, k),
        decreases n - i,
    {
        let key: u64 = lineitem.columns[0][i];
        let counts: bool = lineitem.columns[10][i] > day && (match all_orders.find(key) {
            Some(o) => customers.holds(orders.columns[1][o]) && orders.columns[4][o] < day,
            None => false,
        });
        if counts {
            lines.push(Some(((key, 0, 0), discount_price(fpu, lineitem.columns[5][i], lineitem.columns[6][i]))));
        } else {
            lines.push(None);
        }
        i = i + 1;
    }
    proof {
        assert(lines@ =~= q3_lines(*fpu, *customer, *orders, *lineitem));
    }
    let (groups, revenues): (Vec<Key>, Vec<u64>) = sum_groups(&lines, fpu);
    proof {
        assert(revenues@ =~= sums_of(*fpu, lines@, groups@));
    }
    let (which, _, _): (Vec<u64>, Vec<u64>, Vec<u64>) = split_keys(&groups);
    let dates: Vec<u64> = look_up(&all_orders, &orders.columns[4], &which, 0);
    let priorities: Vec<u64> = look_up(&all_orders, &orders.columns[7], &which, 0);
    let mut keys: Vec<Vec<u64>> = Vec::new();
    let mut g: usize = 0;
    while g < revenues.len()
        invariant
            dates.len() == revenues.len(),
            g <= revenues.len(),
            keys.len() == g,
            forall|k: int| 0 <= k < g ==> (#[trigger] keys@[k])@ == q3_order_keys(revenues@, dates@)[k],
        decreases revenues.len() - g,
    {
        let mut key: Vec<u64> = Vec::new();
        key.push(reversed(sort_rank(revenues[g])));
        key.push(dates[g]);
        proof {
            assert(key@ =~= q3_order_keys(revenues@, dates@)[g as int]);
        }
        keys.push(key);
        g = g + 1;
    }
    proof {
        assert(key_rows(keys@) =~= q3_order_keys(revenues@, dates@));
    }
    let order: Vec<usize> = stable_order(&keys);
    proof {
        lemma_order_bounds(key_rows(keys@), order@);
    }
    let rows: usize = if order.len() < Q3_LIMIT {
        order.len()
    } else {
        Q3_LIMIT
    };
    let mut columns: Vec<ResultColumn> = Vec::new();
    columns.push(column("l_orderkey", pick(&which, &order, rows)));
    columns.push(column("revenue", pick(&revenues, &order, rows)));
    columns.push(column("o_orderdate", pick(&dates, &order, rows)));
    columns.push(column("o_shippriority", pick(&priorities, &order, rows)));
    proof {
        assert(columns@.map_values(|c: ResultColumn| column_view(c)) =~= seq![
            ("l_orderkey"@, picked(which@, order@, rows as int)),
            ("revenue"@, picked(revenues@, order@, rows as int)),
            ("o_orderdate"@, picked(dates@, order@, rows as int)),
            ("o_shippriority"@, picked(priorities@, order@, rows as int)),
        ]);
    }
    result(columns, rows)
}

} // verus!
