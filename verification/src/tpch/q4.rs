//! Orders of a quarter with a line received after its committed date, by
//! priority.

use crate::dates::{date_cell, date_to_days};
use crate::error::Error;
use crate::group_index::{keys_with_rows_are_held, row_of_key, Key, RowIndex};
use crate::order::{is_stable_order, key_rows, stable_order};
use crate::table::{column_view, Catalog, QueryResult, ResultColumn, Table};
use crate::tpch::sums::{count_groups, counts_of, first_words, group_keys, split_keys, Term};
use crate::tpch::support::{
    answers, col, column, found, has_columns, has_part, keys_least_first, least_first, lemma_order_bounds, need,
    no_table_text, not_found, pick, picked, result, table_of, table_ok, text_has,
};
use vstd::prelude::*;

verus! {

/// Whether a query text is this query.
pub open spec fn q4_text(sql: Seq<char>) -> bool {
    has_part(sql, "o_orderpriority"@) && has_part(sql, "order_count"@) && has_part(sql, "l_commitdate < l_receiptdate"@) && has_part(sql, "1993-07-01"@)
}

pub fn is_q4(sql: &str) -> (b: bool)
    ensures
        b == q4_text(sql@),
{
    text_has(sql, "o_orderpriority") && text_has(sql, "order_count") && text_has(sql, "l_commitdate < l_receiptdate") && text_has(sql, "1993-07-01")
}

/// Marks of the lines received after their committed date.
pub open spec fn late_lines(lineitem: Table) -> Seq<bool> {
    Seq::new(lineitem.row_count as nat, |i: int| col(lineitem, 12)[i] > col(lineitem, 11)[i])
}

/// The priority of an order that counts.
pub open spec fn q4_order(lineitem: Table, orders: Table, i: int) -> Term {
    if date_cell(1993, 7, 1) <= col(orders, 4)[i] < date_cell(1993, 10, 1) && row_of_key(
        col(lineitem, 0),
        late_lines(lineitem),
        col(orders, 0)[i],
    ) is Some {
        Some(((col(orders, 5)[i], 0u64, 0u64), 0u64))
    } else {
        None
    }
}

pub open spec fn q4_orders(lineitem: Table, orders: Table) -> Seq<Term> {
    Seq::new(orders.row_count as nat, |i: int| q4_order(lineitem, orders, i))
}

/// The answer.
pub open spec fn q4_outcome(lineitem: Table, orders: Table, r: Result<QueryResult, Error>) -> bool {
    let counted = q4_orders(lineitem, orders);
    let groups = group_keys(counted);
    let priorities = first_words(groups);
    let n = groups.len() as int;
    exists|order: Seq<usize>| #[trigger]
        is_stable_order(least_first(priorities), order) && answers(
            r,
            seq![
                ("o_orderpriority"@, picked(priorities, order, n)),
                ("order_count"@, picked(counts_of(counted, groups), order, n)),
            ],
            n,
        )
}

/// Marks the lines received after their committed date.
pub fn mark_late(lineitem: &Table) -> (m: Vec<bool>)
    requires
        has_columns(*lineitem, 13),
    ensures
        m@ == late_lines(*lineitem),
{
    let mut m: Vec<bool> = Vec::new();
    let mut i: usize = 0;
    while i < lineitem.row_count
        invariant
            has_columns(*lineitem, 13),
            i <= lineitem.row_count,
            m.len() == i,
            forall|k: int| 0 <= k < i ==> #[trigger] m@[k] == late_lines(*lineitem)[k],
        decreases lineitem.row_count - i,
    {
        m.push(lineitem.columns[12][i] > lineitem.columns[11][i]);
        i = i + 1;
    }
    proof {
        assert(m@ =~= late_lines(*lineitem));
    }
    m
}

/// What the query comes to on the tables of a catalog.
pub open spec fn q4_result(catalog: Catalog, r: Result<QueryResult, Error>) -> bool {
    if !found(catalog, "lineitem"@) {
        not_found(r, no_table_text("lineitem"@))
    } else if !found(catalog, "orders"@) {
        not_found(r, no_table_text("orders"@))
    } else {
        q4_outcome(
            table_of(catalog, "lineitem"@),
            table_of(catalog, "orders"@),
            r,
        )
    }
}

/// Evaluates the query.
pub fn execute_q4_reformulated(catalog: &Catalog) -> (r: Result<QueryResult, Error>)
    requires
        table_ok(*catalog, "lineitem"@, 13),
        table_ok(*catalog, "orders"@, 6),
    ensures
        q4_result(*catalog, r),
{
    let lineitem: &Table = match need(catalog, "lineitem") {
        Ok(t) => t,
        Err(e) => {
            return Err(e);
        },
    };
    let orders: &Table = match need(catalog, "orders") {
        Ok(t) => t,
        Err(e) => {
            return Err(e);
        },
    };
    q4_answer(lineitem, orders)
}

/// Evaluates the query on its tables.
pub fn q4_answer(
    lineitem: &Table,
    orders: &Table,
) -> (r: Result<QueryResult, Error>)
    requires
        has_columns(*lineitem, 13),
        has_columns(*orders, 6),
    ensures
        q4_outcome(*lineitem, *orders, r),
{
    let late: RowIndex = RowIndex::build(&lineitem.columns[0], &mark_late(lineitem));
    let first_day: u64 = date_to_days(1993, 7, 1);
    let end_day: u64 = date_to_days(1993, 10, 1);
    let mut counted: Vec<Term> = Vec::new();
    let mut i: usize = 0;
    while i < orders.row_count
        invariant
            has_columns(*orders, 6),
            late.wf(),
            late.keys() == col(*lineitem, 0),
            late.marks() == late_lines(*lineitem),
            first_day == date_cell(1993, 7, 1),
            end_day == date_cell(1993, 10, 1),
            i <= orders.row_count,
            counted.len() == i,
            forall|k: int| 0 <= k < i ==> #[trigger] counted@[k] == q4_order(*lineitem, *orders, k),
        decreases orders.row_count - i,
    {
        let day: u64 = orders.columns[4][i];
        if first_day <= day && day < end_day && late.holds(orders.columns[0][i]) {
            counted.push(Some(((orders.columns[5][i], 0, 0), 0)));
        } else {
            counted.push(None);
        }
        i = i + 1;
    }
    proof {
        assert(counted@ =~= q4_orders(*lineitem, *orders));
    }
    let (groups, counts): (Vec<Key>, Vec<u64>) = count_groups(&counted);
    proof {
        assert(counts@ =~= counts_of(counted@, groups@));
    }
    let (priorities, _, _): (Vec<u64>, Vec<u64>, Vec<u64>) = split_keys(&groups);
    let keys: Vec<Vec<u64>> = keys_least_first(&priorities);
    let order: Vec<usize> = stable_order(&keys);
    proof {
        lemma_order_bounds(key_rows(keys@), order@);
    }
    let rows: usize = order.len();
    let mut columns: Vec<ResultColumn> = Vec::new();
    columns.push(column("o_orderpriority", pick(&priorities, &order, rows)));
    columns.push(column("order_count", pick(&counts, &order, rows)));
    proof {
        assert(columns@.map_values(|c: ResultColumn| column_view(c)) =~= seq![
            ("o_orderpriority"@, picked(priorities@, order@, rows as int)),
            ("order_count"@, picked(counts@, order@, rows as int)),
        ]);
    }
    result(columns, rows)
}

/// An order counts exactly if it is of the quarter and has a line that was received
/// late.
pub proof fn counted_orders_have_a_late_line(lineitem: Table, orders: Table, i: int)
    ensures
        q4_order(lineitem, orders, i) is Some <==> (date_cell(1993, 7, 1) <= col(orders, 4)[i] < date_cell(1993, 10, 1)
            && exists|k: int|
            0 <= k < lineitem.row_count && #[trigger] late_lines(lineitem)[k] && col(lineitem, 0)[k] == col(orders, 0)[i]),
{
    let late = late_lines(lineitem);
    keys_with_rows_are_held(col(lineitem, 0), late, late.len() as int, col(orders, 0)[i]);
}

} // verus!
