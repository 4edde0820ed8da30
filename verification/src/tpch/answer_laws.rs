//! How the cells of the rows of the decision-support answers hang together.

use crate::error::Error;
use crate::float_bits::{arith, total_rank, FloatOp};
use crate::group_index::Key;
use crate::hashing::text_hash;
use crate::order::{is_stable_order, stable_order_rearranges, words_ascend_at_first_difference};
use crate::table::{QueryResult, Table};
use crate::tpch::laws::{holds_last, lemma_group_count, lemma_rise};
use crate::tpch::q10::{nation_names, q10_lines, q10_outcome};
use crate::tpch::q13::{customer_counts, customers_with, order_counts, q13_order_keys, q13_orders, q13_outcome};
use crate::tpch::q18::{great_orders, q18_order_keys, q18_outcome, q18_quantities};
use crate::tpch::q20::{q20_outcome, stocked_suppliers};
use crate::tpch::q21::{q21_lines, q21_order_keys, q21_outcome};
use crate::tpch::q3::{q3_lines, q3_order_keys, q3_outcome};
use crate::tpch::q4::{q4_orders, q4_outcome};
use crate::tpch::q7::{nation_pair, q7_lines, q7_order_keys, q7_outcome};
use crate::tpch::q9::{differences, name_then_year, nation_text, q9_costs, q9_order_keys, q9_outcome, q9_prices};
use crate::tpch::row_laws::{held_by, lemma_found_last};
use crate::tpch::sums::{
    counts_of, first_words, group_keys, group_sum, key_count, keys_seen_are_row_keys, or_zero,
    row_has, second_words, sums_of, third_words, Term,
};
use crate::tpch::support::{
    answers, cells_of_rows, col, first_key, greatest_first, has_columns, least_first, limited,
    marked_rows, marked_rows_are_marked, picked, table_cell, table_cells,
};
use crate::word::word_signed;
use vstd::prelude::*;

verus! {

proof fn lemma_group_row(rows: Seq<Term>, g: int)
    requires
        0 <= g < group_keys(rows).len(),
    ensures
        exists|r: int| 0 <= r < rows.len() && #[trigger] row_has(rows, r, group_keys(rows)[g]),
{
    keys_seen_are_row_keys(rows, rows.len() as int, group_keys(rows)[g]);
    assert(group_keys(rows).contains(group_keys(rows)[g]));
}

proof fn lemma_group_place(rows: Seq<Term>, keys: Seq<Seq<u64>>, order: Seq<usize>, k: Key, r: int)
    requires
        is_stable_order(keys, order),
        keys.len() == group_keys(rows).len(),
        rows.len() <= usize::MAX,
        0 <= r < rows.len(),
        row_has(rows, r, k),
    ensures
        exists|p: int| 0 <= p < order.len() && order.len() == keys.len() && group_keys(rows)[#[trigger] order[p] as int] == k,
{
    keys_seen_are_row_keys(rows, rows.len() as int, k);
    let g = choose|g: int| 0 <= g < group_keys(rows).len() && group_keys(rows)[g] == k;
    lemma_group_count(rows);
    stable_order_rearranges(keys, order);
    assert(order.contains(g as usize));
    let p = choose|p: int| 0 <= p < order.len() && order[p] == g as usize;
    assert(group_keys(rows)[order[p] as int] == k);
}

proof fn lemma_cell(t: Table, c: int, key: u64, other: u64)
    requires
        t.wf(),
        0 < t.columns.len(),
    ensures
        forall|r: int| #[trigger] holds_last(t, 0, key, r) ==> table_cell(t, c, key, other) == col(t, c)[r],
{
    lemma_found_last(t, 0, key);
    assert forall|r: int| #[trigger] holds_last(t, 0, key, r) implies table_cell(t, c, key, other) == col(t, c)[r] by {
        assert(held_by(t, 0, key, r));
    }
}

proof fn lemma_order_bounds_of(keys: Seq<Seq<u64>>, order: Seq<usize>)
    requires
        is_stable_order(keys, order),
    ensures
        order.len() == keys.len(),
        forall|i: int| 0 <= i < order.len() ==> #[trigger] order[i] < keys.len(),
{
    crate::tpch::support::lemma_order_bounds(keys, order);
}

/// Each row of the answer has an order, its revenue, its date and its priority.
pub proof fn unshipped_rows_are_of_one_order<F: Fn(FloatOp, u64, u64) -> u64>(
    f: F,
    customer: Table,
    orders: Table,
    lineitem: Table,
    q: QueryResult,
    i: int,
)
    requires
        has_columns(customer, 7),
        has_columns(orders, 8),
        has_columns(lineitem, 11),
        0 <= i < q.row_count,
        q3_outcome(f, customer, orders, lineitem, Ok::<QueryResult, Error>(q)),
    ensures
        q@[0].0 == "l_orderkey"@,
        q@[1].0 == "revenue"@,
        q@[2].0 == "o_orderdate"@,
        q@[3].0 == "o_shippriority"@,
        q@[1].1[i] == or_zero(group_sum(f, q3_lines(f, customer, orders, lineitem), (q@[0].1[i], 0u64, 0u64))),
        forall|o: int| #[trigger] holds_last(orders, 0, q@[0].1[i], o) ==> q@[2].1[i] == col(orders, 4)[o] && q@[3].1[i] == col(orders, 7)[o],
{
    let lines = q3_lines(f, customer, orders, lineitem);
    let groups = group_keys(lines);
    let which = first_words(groups);
    let revenues = sums_of(f, lines, groups);
    let dates = table_cells(orders, 4, which, 0);
    let keys = q3_order_keys(revenues, dates);
    let n = limited(groups.len() as int, 10);
    let order = choose|order: Seq<usize>| #[trigger]
        is_stable_order(keys, order) && answers(
        Ok::<QueryResult, Error>(q),
        seq![
            ("l_orderkey"@, picked(which, order, n)),
            ("revenue"@, picked(revenues, order, n)),
            ("o_orderdate"@, picked(dates, order, n)),
            ("o_shippriority"@, picked(table_cells(orders, 7, which, 0), order, n)),
        ],
        n,
    );
    lemma_order_bounds_of(keys, order);
    let a = order[i] as int;
    lemma_group_row(lines, a);
    lemma_cell(orders, 4, groups[a].0, 0);
    lemma_cell(orders, 7, groups[a].0, 0);
    assert(groups[a] == (groups[a].0, 0u64, 0u64));
}

/// Each row of the answer has a priority and the number of its orders; every priority with an order that counts has a row.
pub proof fn late_orders_are_counted_by_priority(
    lineitem: Table,
    orders: Table,
    q: QueryResult,
    i: int,
    r: int,
)
    requires
        orders.wf(),
        0 <= i < q.row_count,
        0 <= r < orders.row_count,
        q4_outcome(lineitem, orders, Ok::<QueryResult, Error>(q)),
    ensures
        q@[0].0 == "o_orderpriority"@,
        q@[1].0 == "order_count"@,
        q@[1].1[i] == key_count(q4_orders(lineitem, orders), (q@[0].1[i], 0u64, 0u64), orders.row_count as int) as u64,
        q4_orders(lineitem, orders)[r] matches Some((k, _)) ==> exists|p: int| 0 <= p < q.row_count && #[trigger] q@[0].1[p] == k.0,
{
    let lines = q4_orders(lineitem, orders);
    let groups = group_keys(lines);
    let which = first_words(groups);
    let counts = counts_of(lines, groups);
    let keys = least_first(which);
    let n = groups.len() as int;
    let order = choose|order: Seq<usize>| #[trigger]
        is_stable_order(keys, order) && answers(
        Ok::<QueryResult, Error>(q),
        seq![
            ("o_orderpriority"@, picked(which, order, n)),
            ("order_count"@, picked(counts, order, n)),
        ],
        n,
    );
    lemma_order_bounds_of(keys, order);
    let a = order[i] as int;
    lemma_group_row(lines, a);
    assert(groups[a] == (groups[a].0, 0u64, 0u64));
    if lines[r] is Some {
        let k = (lines[r]->Some_0).0;
        assert(row_has(lines, r, k));
        lemma_group_place(lines, keys, order, k, r);
        let p = choose|p: int| 0 <= p < order.len() && groups[#[trigger] order[p] as int] == k;
        assert(q@[0].1[p] == k.0);
    }
}

/// Each row of the answer has two nations, a year and their revenue; every key of a line that counts has a row.
pub proof fn trade_rows_are_of_one_key<F: Fn(FloatOp, u64, u64) -> u64>(
    f: F,
    supplier: Table,
    lineitem: Table,
    orders: Table,
    customer: Table,
    nation: Table,
    q: QueryResult,
    i: int,
    r: int,
)
    requires
        lineitem.wf(),
        0 <= i < q.row_count,
        0 <= r < lineitem.row_count,
        q7_outcome(f, supplier, lineitem, orders, customer, nation, Ok::<QueryResult, Error>(q)),
    ensures
        q@[0].0 == "supp_nation"@,
        q@[1].0 == "cust_nation"@,
        q@[2].0 == "l_year"@,
        q@[3].0 == "revenue"@,
        q@[3].1[i] == or_zero(group_sum(f, q7_lines(f, supplier, lineitem, orders, customer, nation_pair(nation)), (q@[0].1[i], q@[1].1[i], q@[2].1[i]))),
        q7_lines(f, supplier, lineitem, orders, customer, nation_pair(nation))[r] matches Some((k, _)) ==> exists|p: int| 0 <= p < q.row_count && #[trigger] q@[0].1[p] == k.0 && q@[1].1[p] == k.1 && q@[2].1[p] == k.2,
{
    let lines = q7_lines(f, supplier, lineitem, orders, customer, nation_pair(nation));
    let groups = group_keys(lines);
    let revenues = sums_of(f, lines, groups);
    let keys = q7_order_keys(groups, nation_pair(nation));
    let n = groups.len() as int;
    let order = choose|order: Seq<usize>| #[trigger]
        is_stable_order(keys, order) && answers(
        Ok::<QueryResult, Error>(q),
        seq![
            ("supp_nation"@, picked(first_words(groups), order, n)),
            ("cust_nation"@, picked(second_words(groups), order, n)),
            ("l_year"@, picked(third_words(groups), order, n)),
            ("revenue"@, picked(revenues, order, n)),
        ],
        n,
    );
    lemma_order_bounds_of(keys, order);
    let a = order[i] as int;
    assert(groups[a] == (groups[a].0, groups[a].1, groups[a].2));
    if lines[r] is Some {
        let k = (lines[r]->Some_0).0;
        assert(row_has(lines, r, k));
        lemma_group_place(lines, keys, order, k, r);
        let p = choose|p: int| 0 <= p < order.len() && groups[#[trigger] order[p] as int] == k;
        assert(q@[0].1[p] == k.0 && q@[1].1[p] == k.1 && q@[2].1[p] == k.2);
    }
}

/// Each row of the answer has a customer, the value of the returned goods, and the cells of the customer and of the customer's nation.
pub proof fn returned_rows_are_of_one_customer<F: Fn(FloatOp, u64, u64) -> u64>(
    f: F,
    customer: Table,
    orders: Table,
    lineitem: Table,
    nation: Table,
    q: QueryResult,
    i: int,
)
    requires
        has_columns(customer, 8),
        has_columns(orders, 5),
        has_columns(lineitem, 9),
        has_columns(nation, 2),
        0 <= i < q.row_count,
        q10_outcome(f, customer, orders, lineitem, nation, Ok::<QueryResult, Error>(q)),
    ensures
        q@[0].0 == "c_custkey"@,
        q@[1].0 == "c_name"@,
        q@[2].0 == "revenue"@,
        q@[3].0 == "c_acctbal"@,
        q@[4].0 == "n_name"@,
        q@[5].0 == "c_address"@,
        q@[6].0 == "c_phone"@,
        q@[7].0 == "c_comment"@,
        q@[2].1[i] == or_zero(group_sum(f, q10_lines(f, orders, lineitem), (q@[0].1[i], 0u64, 0u64))),
        forall|c: int| #[trigger] holds_last(customer, 0, q@[0].1[i], c) ==> q@[1].1[i] == col(customer, 1)[c] && q@[3].1[i] == col(customer, 5)[c] && q@[5].1[i] == col(customer, 2)[c] && q@[6].1[i] == col(customer, 4)[c] && q@[7].1[i] == col(customer, 7)[c],
        forall|c: int, m: int| #[trigger] holds_last(customer, 0, q@[0].1[i], c) && #[trigger] holds_last(nation, 0, col(customer, 3)[c], m) && col(customer, 3)[c] != u64::MAX ==> q@[4].1[i] == col(nation, 1)[m],
{
    let lines = q10_lines(f, orders, lineitem);
    let groups = group_keys(lines);
    let who = first_words(groups);
    let revenues = sums_of(f, lines, groups);
    let nations = nation_names(nation, table_cells(customer, 3, who, u64::MAX));
    let keys = greatest_first(revenues);
    let n = limited(groups.len() as int, 20);
    let order = choose|order: Seq<usize>| #[trigger]
        is_stable_order(keys, order) && answers(
        Ok::<QueryResult, Error>(q),
        seq![
            ("c_custkey"@, picked(who, order, n)),
            ("c_name"@, picked(table_cells(customer, 1, who, 0), order, n)),
            ("revenue"@, picked(revenues, order, n)),
            ("c_acctbal"@, picked(table_cells(customer, 5, who, 0), order, n)),
            ("n_name"@, picked(nations, order, n)),
            ("c_address"@, picked(table_cells(customer, 2, who, 0), order, n)),
            ("c_phone"@, picked(table_cells(customer, 4, who, 0), order, n)),
            ("c_comment"@, picked(table_cells(customer, 7, who, 0), order, n)),
        ],
        n,
    );
    lemma_order_bounds_of(keys, order);
    let a = order[i] as int;
    lemma_group_row(lines, a);
    let key = groups[a].0;
    assert(groups[a] == (key, 0u64, 0u64));
    lemma_cell(customer, 1, key, 0);
    lemma_cell(customer, 5, key, 0);
    lemma_cell(customer, 2, key, 0);
    lemma_cell(customer, 4, key, 0);
    lemma_cell(customer, 7, key, 0);
    lemma_cell(customer, 3, key, u64::MAX);
    lemma_cell(nation, 1, table_cell(customer, 3, key, u64::MAX), 0);
}

/// Every customer with a returned line that counts is listed with the value, unless twenty customers are listed whose values are
/// all at least as great.
pub proof fn no_greater_returned_value_is_left_out<F: Fn(FloatOp, u64, u64) -> u64>(
    f: F,
    customer: Table,
    orders: Table,
    lineitem: Table,
    nation: Table,
    q: QueryResult,
    r: int,
)
    requires
        has_columns(orders, 5),
        has_columns(lineitem, 9),
        0 <= r < lineitem.row_count,
        q10_lines(f, orders, lineitem)[r] is Some,
        q10_outcome(f, customer, orders, lineitem, nation, Ok::<QueryResult, Error>(q)),
    ensures
        ({ let k = (q10_lines(f, orders, lineitem)[r]->Some_0).0; let value = or_zero(group_sum(f, q10_lines(f, orders, lineitem), k)); ||| exists|i: int| 0 <= i < q.row_count && #[trigger] q@[0].1[i] == k.0 && q@[2].1[i] == value ||| q.row_count == 20 && forall|i: int| 0 <= i < 20 ==> total_rank(#[trigger] q@[2].1[i]) >= total_rank(value) }),
{
    let lines = q10_lines(f, orders, lineitem);
    let groups = group_keys(lines);
    let who = first_words(groups);
    let revenues = sums_of(f, lines, groups);
    let nations = nation_names(nation, table_cells(customer, 3, who, u64::MAX));
    let keys = greatest_first(revenues);
    let n = limited(groups.len() as int, 20);
    let order = choose|order: Seq<usize>| #[trigger]
        is_stable_order(keys, order) && answers(
        Ok::<QueryResult, Error>(q),
        seq![
            ("c_custkey"@, picked(who, order, n)),
            ("c_name"@, picked(table_cells(customer, 1, who, 0), order, n)),
            ("revenue"@, picked(revenues, order, n)),
            ("c_acctbal"@, picked(table_cells(customer, 5, who, 0), order, n)),
            ("n_name"@, picked(nations, order, n)),
            ("c_address"@, picked(table_cells(customer, 2, who, 0), order, n)),
            ("c_phone"@, picked(table_cells(customer, 4, who, 0), order, n)),
            ("c_comment"@, picked(table_cells(customer, 7, who, 0), order, n)),
        ],
        n,
    );
    let k = (lines[r]->Some_0).0;
    assert(row_has(lines, r, k));
    lemma_order_bounds_of(keys, order);
    lemma_group_place(lines, keys, order, k, r);
    let p = choose|p: int| 0 <= p < order.len() && groups[#[trigger] order[p] as int] == k;
    if p < q.row_count {
        assert(q@[0].1[p] == k.0 && q@[2].1[p] == or_zero(group_sum(f, lines, k)));
    } else {
        assert forall|i: int| 0 <= i < 20 implies total_rank(#[trigger] q@[2].1[i]) >= total_rank(
            or_zero(group_sum(f, lines, k)),
        ) by {
            lemma_rise(keys, 1, order, i, p);
            assert(keys[order[i] as int] == seq![(u64::MAX - total_rank(revenues[order[i] as int])) as u64]);
            assert(keys[order[p] as int] == seq![(u64::MAX - total_rank(revenues[order[p] as int])) as u64]);
        }
    }
}

/// Each row of the answer has a supplier's name and the number of lines that count against it.
pub proof fn waiting_rows_are_of_one_supplier(
    lineitem: Table,
    orders: Table,
    supplier: Table,
    nation: Table,
    q: QueryResult,
    i: int,
)
    requires
        lineitem.wf(),
        0 <= i < q.row_count,
        q21_outcome(lineitem, orders, supplier, nation, Ok::<QueryResult, Error>(q)),
    ensures
        q@[0].0 == "s_name"@,
        q@[1].0 == "numwait"@,
        first_key(col(nation, 1), col(nation, 0), nation.row_count as int, text_hash("SAUDI ARABIA"@)) matches Some(country) && q@[1].1[i] == key_count(q21_lines(lineitem, orders, supplier, country), (q@[0].1[i], 0u64, 0u64), lineitem.row_count as int) as u64,
{
    let country = first_key(col(nation, 1), col(nation, 0), nation.row_count as int, text_hash("SAUDI ARABIA"@))->0;
    let lines = q21_lines(lineitem, orders, supplier, country);
    let groups = group_keys(lines);
    let names = first_words(groups);
    let counts = counts_of(lines, groups);
    let keys = q21_order_keys(counts, names);
    let n = limited(groups.len() as int, 100);
    let order = choose|order: Seq<usize>| #[trigger]
        is_stable_order(keys, order) && answers(
        Ok::<QueryResult, Error>(q),
        seq![
            ("s_name"@, picked(names, order, n)),
            ("numwait"@, picked(counts, order, n)),
        ],
        n,
    );
    lemma_order_bounds_of(keys, order);
    let a = order[i] as int;
    lemma_group_row(lines, a);
    assert(groups[a] == (groups[a].0, 0u64, 0u64));
}

/// Every supplier with a line that counts is listed, unless a hundred suppliers are listed who have at least as many.
pub proof fn no_greater_wait_is_left_out(
    lineitem: Table,
    orders: Table,
    supplier: Table,
    nation: Table,
    country: u64,
    q: QueryResult,
    r: int,
)
    requires
        lineitem.wf(),
        0 <= r < lineitem.row_count,
        first_key(col(nation, 1), col(nation, 0), nation.row_count as int, text_hash("SAUDI ARABIA"@)) == Some(country),
        q21_lines(lineitem, orders, supplier, country)[r] is Some,
        q21_outcome(lineitem, orders, supplier, nation, Ok::<QueryResult, Error>(q)),
    ensures
        ({ let lines = q21_lines(lineitem, orders, supplier, country); let k = (lines[r]->Some_0).0; let count = key_count(lines, k, lineitem.row_count as int) as u64; ||| exists|i: int| 0 <= i < q.row_count && #[trigger] q@[0].1[i] == k.0 && q@[1].1[i] == count ||| q.row_count == 100 && forall|i: int| 0 <= i < 100 ==> #[trigger] q@[1].1[i] >= count }),
{
    let lines = q21_lines(lineitem, orders, supplier, country);
    let groups = group_keys(lines);
    let names = first_words(groups);
    let counts = counts_of(lines, groups);
    let keys = q21_order_keys(counts, names);
    let n = limited(groups.len() as int, 100);
    let order = choose|order: Seq<usize>| #[trigger]
        is_stable_order(keys, order) && answers(
        Ok::<QueryResult, Error>(q),
        seq![
            ("s_name"@, picked(names, order, n)),
            ("numwait"@, picked(counts, order, n)),
        ],
        n,
    );
    let k = (lines[r]->Some_0).0;
    let count = key_count(lines, k, lineitem.row_count as int) as u64;
    assert(row_has(lines, r, k));
    lemma_order_bounds_of(keys, order);
    lemma_group_place(lines, keys, order, k, r);
    let p = choose|p: int| 0 <= p < order.len() && groups[#[trigger] order[p] as int] == k;
    if p < q.row_count {
        assert(q@[0].1[p] == k.0 && q@[1].1[p] == count);
    } else {
        assert forall|i: int| 0 <= i < 100 implies #[trigger] q@[1].1[i] >= count by {
            lemma_rise(keys, 2, order, i, p);
            let b = order[i] as int;
            let c = order[p] as int;
            assert(keys[b] == seq![(u64::MAX - counts[b]) as u64, total_rank(names[b])]);
            assert(keys[c] == seq![(u64::MAX - counts[c]) as u64, total_rank(names[c])]);
        }
    }
}

/// Each row of the answer has a large order with its customer, date, price and quantity.
pub proof fn large_rows_are_of_one_order<F: Fn(FloatOp, u64, u64) -> u64>(
    f: F,
    customer: Table,
    orders: Table,
    lineitem: Table,
    q: QueryResult,
    i: int,
)
    requires
        has_columns(customer, 2),
        has_columns(orders, 5),
        has_columns(lineitem, 5),
        0 <= i < q.row_count,
        q18_outcome(f, customer, orders, lineitem, Ok::<QueryResult, Error>(q)),
    ensures
        q@[0].0 == "c_name"@,
        q@[1].0 == "c_custkey"@,
        q@[2].0 == "o_orderkey"@,
        q@[3].0 == "o_orderdate"@,
        q@[4].0 == "o_totalprice"@,
        q@[5].0 == "sum"@,
        exists|o: int| 0 <= o < orders.row_count && #[trigger] great_orders(q18_quantities(f, orders, lineitem))[o] && q@[1].1[i] == col(orders, 1)[o] && q@[2].1[i] == col(orders, 0)[o] && q@[3].1[i] == col(orders, 4)[o] && q@[4].1[i] == col(orders, 3)[o] && q@[5].1[i] == q18_quantities(f, orders, lineitem)[o],
        forall|c: int| #[trigger] holds_last(customer, 0, q@[1].1[i], c) ==> q@[0].1[i] == col(customer, 1)[c],
{
    let quantities = q18_quantities(f, orders, lineitem);
    let marks = great_orders(quantities);
    let listed = marked_rows(marks, marks.len() as int);
    let who = cells_of_rows(col(orders, 1), listed);
    let dates = cells_of_rows(col(orders, 4), listed);
    let prices = cells_of_rows(col(orders, 3), listed);
    let keys = q18_order_keys(prices, dates);
    let n = limited(listed.len() as int, 100);
    let order = choose|order: Seq<usize>| #[trigger]
        is_stable_order(keys, order) && answers(
        Ok::<QueryResult, Error>(q),
        seq![
            ("c_name"@, picked(table_cells(customer, 1, who, 0), order, n)),
            ("c_custkey"@, picked(who, order, n)),
            ("o_orderkey"@, picked(cells_of_rows(col(orders, 0), listed), order, n)),
            ("o_orderdate"@, picked(dates, order, n)),
            ("o_totalprice"@, picked(prices, order, n)),
            ("sum"@, picked(cells_of_rows(quantities, listed), order, n)),
        ],
        n,
    );
    lemma_order_bounds_of(keys, order);
    let a = order[i] as int;
    marked_rows_are_marked(marks, marks.len() as int);
    let o = listed[a] as int;
    lemma_cell(customer, 1, col(orders, 1)[o], 0);
    assert(great_orders(q18_quantities(f, orders, lineitem))[o]);
}

/// Every large order is listed, unless a hundred orders are listed whose prices are all at least as great.
pub proof fn no_greater_large_order_is_left_out<F: Fn(FloatOp, u64, u64) -> u64>(
    f: F,
    customer: Table,
    orders: Table,
    lineitem: Table,
    q: QueryResult,
    o: int,
)
    requires
        has_columns(orders, 5),
        0 <= o < orders.row_count,
        great_orders(q18_quantities(f, orders, lineitem))[o],
        q18_outcome(f, customer, orders, lineitem, Ok::<QueryResult, Error>(q)),
    ensures
        ({ ||| exists|i: int| 0 <= i < q.row_count && #[trigger] q@[2].1[i] == col(orders, 0)[o] && q@[4].1[i] == col(orders, 3)[o] ||| q.row_count == 100 && forall|i: int| 0 <= i < 100 ==> total_rank(#[trigger] q@[4].1[i]) >= total_rank(col(orders, 3)[o]) }),
{
    let quantities = q18_quantities(f, orders, lineitem);
    let marks = great_orders(quantities);
    let listed = marked_rows(marks, marks.len() as int);
    let who = cells_of_rows(col(orders, 1), listed);
    let dates = cells_of_rows(col(orders, 4), listed);
    let prices = cells_of_rows(col(orders, 3), listed);
    let keys = q18_order_keys(prices, dates);
    let n = limited(listed.len() as int, 100);
    let order = choose|order: Seq<usize>| #[trigger]
        is_stable_order(keys, order) && answers(
        Ok::<QueryResult, Error>(q),
        seq![
            ("c_name"@, picked(table_cells(customer, 1, who, 0), order, n)),
            ("c_custkey"@, picked(who, order, n)),
            ("o_orderkey"@, picked(cells_of_rows(col(orders, 0), listed), order, n)),
            ("o_orderdate"@, picked(dates, order, n)),
            ("o_totalprice"@, picked(prices, order, n)),
            ("sum"@, picked(cells_of_rows(quantities, listed), order, n)),
        ],
        n,
    );
    marked_rows_are_marked(marks, marks.len() as int);
    lemma_listed_count(marks, marks.len() as int);
    let at = o as usize;
    assert(marks[at as int]);
    assert(listed.contains(at));
    let g = choose|g: int| 0 <= g < listed.len() && listed[g] == at;
    stable_order_rearranges(keys, order);
    assert(order.contains(g as usize));
    let p = choose|p: int| 0 <= p < order.len() && order[p] == g as usize;
    if p < q.row_count {
        assert(q@[2].1[p] == col(orders, 0)[o] && q@[4].1[p] == col(orders, 3)[o]);
    } else {
        assert forall|i: int| 0 <= i < 100 implies total_rank(#[trigger] q@[4].1[i]) >= total_rank(col(orders, 3)[o]) by {
            lemma_rise(keys, 2, order, i, p);
            let b = order[i] as int;
            assert(keys[b] == seq![(u64::MAX - total_rank(prices[b])) as u64, dates[b]]);
            assert(keys[g] == seq![(u64::MAX - total_rank(prices[g])) as u64, dates[g]]);
        }
    }
}

proof fn lemma_listed_count(marks: Seq<bool>, n: int)
    requires
        0 <= n <= marks.len(),
    ensures
        marked_rows(marks, n).len() <= n,
    decreases n,
{
    if n > 0 {
        lemma_listed_count(marks, n - 1);
    }
}

/// Each row of the answer has the name and the address of a supplier that is listed, and every such supplier has a row.
pub proof fn stocked_rows_are_of_one_supplier<F: Fn(FloatOp, u64, u64) -> u64>(
    f: F,
    part: Table,
    lineitem: Table,
    partsupp: Table,
    supplier: Table,
    nation: Table,
    country: u64,
    q: QueryResult,
    i: int,
    s: int,
)
    requires
        has_columns(supplier, 4),
        0 <= i < q.row_count,
        0 <= s < supplier.row_count,
        first_key(col(nation, 1), col(nation, 0), nation.row_count as int, text_hash("CANADA"@)) == Some(country),
        q20_outcome(f, part, lineitem, partsupp, supplier, nation, Ok::<QueryResult, Error>(q)),
    ensures
        q@[0].0 == "s_name"@,
        q@[1].0 == "s_address"@,
        exists|r: int| 0 <= r < supplier.row_count && #[trigger] stocked_suppliers(f, part, lineitem, partsupp, supplier, country)[r] && q@[0].1[i] == col(supplier, 1)[r] && q@[1].1[i] == col(supplier, 2)[r],
        stocked_suppliers(f, part, lineitem, partsupp, supplier, country)[s] ==> exists|p: int| 0 <= p < q.row_count && #[trigger] q@[0].1[p] == col(supplier, 1)[s] && q@[1].1[p] == col(supplier, 2)[s],
{
    let marks = stocked_suppliers(f, part, lineitem, partsupp, supplier, country);
    let listed = marked_rows(marks, marks.len() as int);
    let names = cells_of_rows(col(supplier, 1), listed);
    let keys = least_first(names);
    let n = listed.len() as int;
    let order = choose|order: Seq<usize>| #[trigger]
        is_stable_order(keys, order) && answers(
        Ok::<QueryResult, Error>(q),
        seq![
            ("s_name"@, picked(names, order, n)),
            ("s_address"@, picked(cells_of_rows(col(supplier, 2), listed), order, n)),
        ],
        n,
    );
    lemma_order_bounds_of(keys, order);
    let a = order[i] as int;
    marked_rows_are_marked(marks, marks.len() as int);
    lemma_listed_count(marks, marks.len() as int);
    let r = listed[a] as int;
    assert(stocked_suppliers(f, part, lineitem, partsupp, supplier, country)[r]);
    if marks[s] {
        let at = s as usize;
        assert(marks[at as int]);
        assert(listed.contains(at));
        let g = choose|g: int| 0 <= g < listed.len() && listed[g] == at;
        stable_order_rearranges(keys, order);
        assert(order.contains(g as usize));
        let p = choose|p: int| 0 <= p < order.len() && order[p] == g as usize;
        assert(q@[0].1[p] == col(supplier, 1)[s] && q@[1].1[p] == col(supplier, 2)[s]);
    }
}

/// Each row of the answer has a number of orders and the number of customers who have so many.
pub proof fn order_counts_have_their_customers(
    customer: Table,
    orders: Table,
    q: QueryResult,
    i: int,
)
    requires
        0 <= i < q.row_count,
        q13_outcome(customer, orders, Ok::<QueryResult, Error>(q)),
    ensures
        q@[0].0 == "c_count"@,
        q@[1].0 == "custdist"@,
        q@[1].1[i] == customers_with(q13_orders(orders, orders.string_columns@[8]->0), customer, q@[0].1[i] as int, customer.row_count as int) as u64,
{
    let counted = q13_orders(orders, orders.string_columns@[8]->0);
    let numbers = order_counts(counted, customer, counted.len() as int + 1);
    let customers = customer_counts(counted, customer, numbers);
    let keys = q13_order_keys(numbers, customers);
    let n = numbers.len() as int;
    let order = choose|order: Seq<usize>| #[trigger]
        is_stable_order(keys, order) && answers(
        Ok::<QueryResult, Error>(q),
        seq![
            ("c_count"@, picked(numbers, order, n)),
            ("custdist"@, picked(customers, order, n)),
        ],
        n,
    );
    lemma_order_bounds_of(keys, order);
    let a = order[i] as int;
}

/// The answer lists nations by name and, for one nation, the latest years first: at the first place where the names of two
/// rows differ, or where one of them ends, the earlier row is less; where the names are equal, its year is not less.
pub proof fn profits_are_listed_by_nation_and_year<F: Fn(FloatOp, u64, u64) -> u64>(
    f: F,
    part: Table,
    partsupp: Table,
    lineitem: Table,
    orders: Table,
    supplier: Table,
    nation: Table,
    q: QueryResult,
    i: int,
    j: int,
)
    requires
        lineitem.wf(),
        0 <= i < j < q.row_count,
        q9_outcome(f, part, partsupp, lineitem, orders, supplier, nation, Ok::<QueryResult, Error>(q)),
    ensures
        q@[0].0 == "nation"@,
        q@[1].0 == "o_year"@,
        q@[2].0 == "sum_profit"@,
        exists|a: Key, b: Key| #[trigger] profit_row(f, part, partsupp, lineitem, orders, supplier, nation, q, i, a) && #[trigger] profit_row(f, part, partsupp, lineitem, orders, supplier, nation, q, j, b) && by_name_and_year(nation_text(nation, a.0), word_signed(a.1) as int, nation_text(nation, b.0), word_signed(b.1) as int),
{
    let prices = q9_prices(f, part, partsupp, lineitem, orders, supplier);
    let costs = q9_costs(f, part, partsupp, lineitem, orders, supplier);
    let groups = group_keys(prices);
    let profits = differences(f, sums_of(f, prices, groups), sums_of(f, costs, groups));
    let keys = q9_order_keys(nation, groups);
    let n = groups.len() as int;
    let order = choose|order: Seq<usize>| #[trigger]
        is_stable_order(keys, order) && answers(
        Ok::<QueryResult, Error>(q),
        seq![
            ("nation"@, picked(table_cells(nation, 1, first_words(groups), 0), order, n)),
            ("o_year"@, picked(second_words(groups), order, n)),
            ("sum_profit"@, picked(profits, order, n)),
        ],
        n,
    );
    lemma_order_bounds_of(keys, order);
    let a = groups[order[i] as int];
    let b = groups[order[j] as int];
    assert(profit_row(f, part, partsupp, lineitem, orders, supplier, nation, q, i, a));
    assert(profit_row(f, part, partsupp, lineitem, orders, supplier, nation, q, j, b));
    words_ascend_at_first_difference(keys, order, i, j);
    let x = nation_text(nation, a.0);
    let y = nation_text(nation, b.0);
    let u = keys[order[i] as int];
    let v = keys[order[j] as int];
    assert(u == name_then_year(x, a.1));
    assert(v == name_then_year(y, b.1));
    lemma_name_order(x, a.1, y, b.1);
}

/// A row of the answer on profits: the name of a nation, a year, and what the prices exceed the costs by.
pub open spec fn profit_row<F: Fn(FloatOp, u64, u64) -> u64>(
    f: F,
    part: Table,
    partsupp: Table,
    lineitem: Table,
    orders: Table,
    supplier: Table,
    nation: Table,
    q: QueryResult,
    i: int,
    k: Key,
) -> bool {
    &&& q@[0].1[i] == table_cell(nation, 1, k.0, 0)
    &&& q@[1].1[i] == k.1
    &&& q@[2].1[i] == arith(
        f,
        FloatOp::Sub,
        or_zero(group_sum(f, q9_prices(f, part, partsupp, lineitem, orders, supplier), k)),
        or_zero(group_sum(f, q9_costs(f, part, partsupp, lineitem, orders, supplier), k)),
    )
}

/// One name comes before another by its letters, or they are equal and the first year is not less.
pub open spec fn by_name_and_year(x: Seq<char>, xy: int, y: Seq<char>, yy: int) -> bool {
    ||| x == y && xy >= yy
    ||| exists|p: int| #[trigger] first_differs(x, y, p) && (p == x.len() || p < y.len() && x[p] < y[p])
}

/// Two texts agree up to a place, where they differ or one of them ends.
pub open spec fn first_differs(x: Seq<char>, y: Seq<char>, p: int) -> bool {
    &&& 0 <= p <= x.len() && p <= y.len() && x != y
    &&& x.take(p) == y.take(p)
    &&& p < x.len() && p < y.len() ==> x[p] != y[p]
    &&& p == x.len() || p == y.len() || x[p] != y[p]
}

proof fn lemma_first_differs(x: Seq<char>, y: Seq<char>, n: int)
    requires
        x != y,
        0 <= n <= x.len(),
        n <= y.len(),
        x.take(n) == y.take(n),
    ensures
        exists|p: int| #[trigger] first_differs(x, y, p),
    decreases x.len() - n,
{
    if n < x.len() && n < y.len() && x[n] == y[n] {
        assert(x.take(n + 1) =~= y.take(n + 1)) by {
            assert forall|h: int| 0 <= h < n + 1 implies x[h] == y[h] by {
                if h < n {
                    assert(x.take(n)[h] == y.take(n)[h]);
                    assert(x.take(n)[h] == x[h]);
                    assert(y.take(n)[h] == y[h]);
                } else {
                    assert(h == n);
                }
            }
        }
        lemma_first_differs(x, y, n + 1);
    } else {
        assert(first_differs(x, y, n));
    }
}

proof fn lemma_letters(a: char, b: char)
    ensures
        (a as u32 + 1) as u64 == a as int + 1,
        (b as u32 + 1) as u64 == b as int + 1,
        a as int == b as int <==> a == b,
{
}

proof fn lemma_name_order(x: Seq<char>, xy: u64, y: Seq<char>, yy: u64)
    requires
        ({
            let u = name_then_year(x, xy);
            let v = name_then_year(y, yy);
            forall|k: int|
                0 <= k < u.len() && k < v.len() && (forall|h: int| 0 <= h < k ==> #[trigger] u[h] == v[h])
                    && #[trigger] u[k] != v[k] ==> u[k] < v[k]
        }),
    ensures
        by_name_and_year(x, word_signed(xy) as int, y, word_signed(yy) as int),
{
    let u = name_then_year(x, xy);
    let v = name_then_year(y, yy);
    if x == y {
        let k = x.len() as int;
        assert forall|h: int| 0 <= h < k + 1 implies #[trigger] u[h] == v[h] by {}
        assert(u[k + 1] != v[k + 1] ==> u[k + 1] < v[k + 1]);
        assert(u[k + 1] == (u64::MAX - crate::word::signed_rank(xy)) as u64);
        assert(v[k + 1] == (u64::MAX - crate::word::signed_rank(yy)) as u64);
        crate::word::signed_rank_orders(xy, yy);
    } else {
        assert(x.take(0) =~= y.take(0));
        lemma_first_differs(x, y, 0);
        let p = choose|p: int| #[trigger] first_differs(x, y, p);
        assert forall|h: int| 0 <= h < p implies #[trigger] u[h] == v[h] by {
            assert(x.take(p)[h] == y.take(p)[h]);
        }
        if p < x.len() && p < y.len() {
            lemma_letters(x[p], y[p]);
            assert(u[p] == (x[p] as u32 + 1) as u64 && v[p] == (y[p] as u32 + 1) as u64);
            assert(u[p] != v[p]);
        } else if p < x.len() {
            lemma_letters(x[p], x[p]);
            assert(u[p] == (x[p] as u32 + 1) as u64 && v[p] == 0);
            assert(u[p] != v[p]);
        } else {
            if p == y.len() {
                assert(x =~= x.take(p));
                assert(y =~= y.take(p));
            }
        }
    }
}

} // verus!
