//! In what order the decision-support queries list their rows.

use crate::error::Error;
use crate::float_bits::{total_rank, FloatOp};
use crate::hashing::text_hash;
use crate::order::is_stable_order;
use crate::table::{QueryResult, Table};
use crate::tpch::laws::lemma_rise;
use crate::tpch::q10::{nation_names, q10_lines, q10_outcome};
use crate::tpch::q13::{customer_counts, order_counts, q13_order_keys, q13_orders, q13_outcome};
use crate::tpch::q16::{q16_order_keys, q16_outcome, supplier_counts, supply_groups};
use crate::tpch::q18::{great_orders, q18_order_keys, q18_outcome, q18_quantities};
use crate::tpch::q2::{best_supply, brass_parts, q2_order_keys, q2_outcome, supplier_cells, supplier_nations};
use crate::tpch::q20::{q20_outcome, stocked_suppliers};
use crate::tpch::q21::{q21_lines, q21_order_keys, q21_outcome};
use crate::tpch::q4::{q4_orders, q4_outcome};
use crate::tpch::q5::{nations_of, q5_lines, q5_outcome, q5_revenues};
use crate::tpch::q7::{nation_pair, q7_lines, q7_order_keys, q7_outcome};
use crate::tpch::sums::{counts_of, first_words, group_keys, second_words, sums_of, third_words};
use crate::tpch::support::{
    answers, cells_by_key, cells_of_rows, col, first_key, greatest_first, least_first, limited, marked_cells,
    marked_rows, picked, table_cells,
};
use vstd::prelude::*;

verus! {

/// The answer lists at most a hundred supply rows, by the balance of the supplier, the greatest first,
/// then by nation, supplier and part.
pub proof fn brass_suppliers_are_listed_by_balance(
    region: Table,
    nation: Table,
    supplier: Table,
    part: Table,
    partsupp: Table,
    q: QueryResult,
    i: int,
    j: int,
)
    requires
        q2_outcome(region, nation, supplier, part, partsupp, Ok::<QueryResult, Error>(q)),
        0 <= i < j < q.row_count,
    ensures
        q.row_count <= 100,
        q@[0].0 == "s_acctbal"@,
        total_rank(q@[0].1[i]) >= total_rank(q@[0].1[j]),
        q@[0].1[i] == q@[0].1[j] ==> total_rank(q@[2].1[i]) <= total_rank(q@[2].1[j]),
        q@[0].1[i] == q@[0].1[j] && q@[2].1[i] == q@[2].1[j] ==> total_rank(q@[1].1[i]) <= total_rank(q@[1].1[j]),
        q@[0].1[i] == q@[0].1[j] && q@[2].1[i] == q@[2].1[j] && q@[1].1[i] == q@[1].1[j] ==> total_rank(q@[3].1[i]) <= total_rank(q@[3].1[j]),
{
    let key = first_key(col(region, 1), col(region, 0), region.row_count as int, text_hash("EUROPE"@))->0;
    let marks = best_supply(nation, supplier, part, partsupp, key);
    let listed = marked_rows(marks, marks.len() as int);
    let which = cells_of_rows(col(partsupp, 0), listed);
    let who = cells_of_rows(col(partsupp, 1), listed);
    let balance = supplier_cells(nation, supplier, key, 5, who);
    let name = supplier_cells(nation, supplier, key, 1, who);
    let country = supplier_nations(nation, supplier, key, who);
    let maker = cells_by_key(col(part, 0), brass_parts(part), col(part, 2), which, 0);
    let keys = q2_order_keys(balance, country, name, which);
    let n = limited(listed.len() as int, 100);
    let order = choose|order: Seq<usize>| #[trigger]
        is_stable_order(keys, order) && answers(
        Ok::<QueryResult, Error>(q),
        seq![
            ("s_acctbal"@, picked(balance, order, n)),
            ("s_name"@, picked(name, order, n)),
            ("n_name"@, picked(country, order, n)),
            ("p_partkey"@, picked(which, order, n)),
            ("p_mfgr"@, picked(maker, order, n)),
            ("s_address"@, picked(supplier_cells(nation, supplier, key, 2, who), order, n)),
            ("s_phone"@, picked(supplier_cells(nation, supplier, key, 4, who), order, n)),
            ("s_comment"@, picked(supplier_cells(nation, supplier, key, 6, who), order, n)),
        ],
        n,
    );
    lemma_rise(keys, 4, order, i, j);
    let a = order[i] as int;
    let b = order[j] as int;
    assert(keys[a] == seq![(u64::MAX - total_rank(balance[a])) as u64, total_rank(country[a]), total_rank(name[a]), total_rank(which[a])]);
    assert(keys[b] == seq![(u64::MAX - total_rank(balance[b])) as u64, total_rank(country[b]), total_rank(name[b]), total_rank(which[b])]);
}

/// The answer lists priorities in ascending order.
pub proof fn late_order_priorities_ascend(
    lineitem: Table,
    orders: Table,
    q: QueryResult,
    i: int,
    j: int,
)
    requires
        q4_outcome(lineitem, orders, Ok::<QueryResult, Error>(q)),
        0 <= i < j < q.row_count,
    ensures
        q@[0].0 == "o_orderpriority"@,
        total_rank(q@[0].1[i]) <= total_rank(q@[0].1[j]),
{
    let counted = q4_orders(lineitem, orders);
    let groups = group_keys(counted);
    let priorities = first_words(groups);
    let keys = least_first(priorities);
    let n = groups.len() as int;
    let order = choose|order: Seq<usize>| #[trigger]
        is_stable_order(keys, order) && answers(
        Ok::<QueryResult, Error>(q),
        seq![
            ("o_orderpriority"@, picked(priorities, order, n)),
            ("order_count"@, picked(counts_of(counted, groups), order, n)),
        ],
        n,
    );
    lemma_rise(keys, 1, order, i, j);
    let a = order[i] as int;
    let b = order[j] as int;
    assert(keys[a] == seq![total_rank(priorities[a])]);
    assert(keys[b] == seq![total_rank(priorities[b])]);
}

/// The answer lists nations by revenue, the greatest first.
pub proof fn local_revenues_fall<F: Fn(FloatOp, u64, u64) -> u64>(
    f: F,
    region: Table,
    nation: Table,
    supplier: Table,
    customer: Table,
    orders: Table,
    lineitem: Table,
    q: QueryResult,
    i: int,
    j: int,
)
    requires
        q5_outcome(f, region, nation, supplier, customer, orders, lineitem, Ok::<QueryResult, Error>(q)),
        0 <= i < j < q.row_count,
    ensures
        q@[1].0 == "revenue"@,
        total_rank(q@[1].1[i]) >= total_rank(q@[1].1[j]),
{
    let asia = first_key(col(region, 1), col(region, 0), region.row_count as int, text_hash("ASIA"@));
    let marks = nations_of(nation, asia->0);
    let names = marked_cells(col(nation, 1), marks, marks.len() as int);
    let revenues = q5_revenues(f, q5_lines(f, nation, supplier, customer, orders, lineitem, asia->0), names.len());
    let keys = greatest_first(revenues);
    let n = names.len() as int;
    let order = choose|order: Seq<usize>| #[trigger]
        is_stable_order(keys, order) && answers(
        Ok::<QueryResult, Error>(q),
        seq![
            ("n_name"@, picked(names, order, n)),
            ("revenue"@, picked(revenues, order, n)),
        ],
        n,
    );
    lemma_rise(keys, 1, order, i, j);
    let a = order[i] as int;
    let b = order[j] as int;
    assert(keys[a] == seq![(u64::MAX - total_rank(revenues[a])) as u64]);
    assert(keys[b] == seq![(u64::MAX - total_rank(revenues[b])) as u64]);
}

/// The answer lists at most twenty customers, by the value of what they returned, the greatest first.
pub proof fn returned_goods_are_listed_by_value<F: Fn(FloatOp, u64, u64) -> u64>(
    f: F,
    customer: Table,
    orders: Table,
    lineitem: Table,
    nation: Table,
    q: QueryResult,
    i: int,
    j: int,
)
    requires
        q10_outcome(f, customer, orders, lineitem, nation, Ok::<QueryResult, Error>(q)),
        0 <= i < j < q.row_count,
    ensures
        q.row_count <= 20,
        q@[2].0 == "revenue"@,
        total_rank(q@[2].1[i]) >= total_rank(q@[2].1[j]),
{
    let lines = q10_lines(f, orders, lineitem);
    let groups = group_keys(lines);
    let who = first_words(groups);
    let revenues = sums_of(f, lines, groups);
    let nations = nation_names(nation, table_cells(customer, 3, who, u64::MAX));
    let keys = greatest_first(revenues);
    let n = limited(groups.len() as int, 20);
    let order = choose|order: Seq<usize>| #[trigger]
        is_stable_order(keys, order) && answers(
        Ok::<QueryResult, Error>(q),
        seq![
            ("c_custkey"@, picked(who, order, n)),
            ("c_name"@, picked(table_cells(customer, 1, who, 0), order, n)),
            ("revenue"@, picked(revenues, order, n)),
            ("c_acctbal"@, picked(table_cells(customer, 5, who, 0), order, n)),
            ("n_name"@, picked(nations, order, n)),
            ("c_address"@, picked(table_cells(customer, 2, who, 0), order, n)),
            ("c_phone"@, picked(table_cells(customer, 4, who, 0), order, n)),
            ("c_comment"@, picked(table_cells(customer, 7, who, 0), order, n)),
        ],
        n,
    );
    lemma_rise(keys, 1, order, i, j);
    let a = order[i] as int;
    let b = order[j] as int;
    assert(keys[a] == seq![(u64::MAX - total_rank(revenues[a])) as u64]);
    assert(keys[b] == seq![(u64::MAX - total_rank(revenues[b])) as u64]);
}

/// The answer lists numbers of orders by how many customers have them, then by the number itself, the
/// greatest first.
pub proof fn order_counts_are_listed_by_customers(
    customer: Table,
    orders: Table,
    q: QueryResult,
    i: int,
    j: int,
)
    requires
        q13_outcome(customer, orders, Ok::<QueryResult, Error>(q)),
        0 <= i < j < q.row_count,
    ensures
        q@[0].0 == "c_count"@,
        q@[1].0 == "custdist"@,
        q@[1].1[i] >= q@[1].1[j],
        q@[1].1[i] == q@[1].1[j] ==> q@[0].1[i] >= q@[0].1[j],
{
    let counted = q13_orders(orders, orders.string_columns@[8]->0);
    let numbers = order_counts(counted, customer, counted.len() as int + 1);
    let customers = customer_counts(counted, customer, numbers);
    let keys = q13_order_keys(numbers, customers);
    let n = numbers.len() as int;
    let order = choose|order: Seq<usize>| #[trigger]
        is_stable_order(keys, order) && answers(
        Ok::<QueryResult, Error>(q),
        seq![
            ("c_count"@, picked(numbers, order, n)),
            ("custdist"@, picked(customers, order, n)),
        ],
        n,
    );
    lemma_rise(keys, 2, order, i, j);
    let a = order[i] as int;
    let b = order[j] as int;
    assert(keys[a] == seq![(u64::MAX - customers[a]) as u64, (u64::MAX - numbers[a]) as u64]);
    assert(keys[b] == seq![(u64::MAX - customers[b]) as u64, (u64::MAX - numbers[b]) as u64]);
}

/// The answer lists kinds of parts by how many suppliers they have, the greatest first, then by brand, kind
/// and size.
pub proof fn kinds_of_parts_are_listed_by_suppliers(
    part: Table,
    partsupp: Table,
    q: QueryResult,
    i: int,
    j: int,
)
    requires
        q16_outcome(part, partsupp, Ok::<QueryResult, Error>(q)),
        0 <= i < j < q.row_count,
    ensures
        q@[3].0 == "supplier_cnt"@,
        q@[3].1[i] >= q@[3].1[j],
        q@[3].1[i] == q@[3].1[j] ==> total_rank(q@[0].1[i]) <= total_rank(q@[0].1[j]),
        q@[3].1[i] == q@[3].1[j] && q@[0].1[i] == q@[0].1[j] ==> total_rank(q@[1].1[i]) <= total_rank(q@[1].1[j]),
        q@[3].1[i] == q@[3].1[j] && q@[0].1[i] == q@[0].1[j] && q@[1].1[i] == q@[1].1[j] ==> q@[2].1[i] <= q@[2].1[j],
{
    let groups = group_keys(supply_groups(part, partsupp));
    let counts = supplier_counts(part, partsupp);
    let first = first_words(groups);
    let second = second_words(groups);
    let third = third_words(groups);
    let keys = q16_order_keys(groups, counts);
    let n = groups.len() as int;
    let order = choose|order: Seq<usize>| #[trigger]
        is_stable_order(keys, order) && answers(
        Ok::<QueryResult, Error>(q),
        seq![
            ("p_brand"@, picked(first_words(groups), order, n)),
            ("p_type"@, picked(second_words(groups), order, n)),
            ("p_size"@, picked(third_words(groups), order, n)),
            ("supplier_cnt"@, picked(counts, order, n)),
        ],
        n,
    );
    lemma_rise(keys, 4, order, i, j);
    let a = order[i] as int;
    let b = order[j] as int;
    assert(keys[a] == seq![(u64::MAX - counts[a]) as u64, total_rank(first[a]), total_rank(second[a]), third[a]]);
    assert(keys[b] == seq![(u64::MAX - counts[b]) as u64, total_rank(first[b]), total_rank(second[b]), third[b]]);
}

/// The answer lists at most a hundred orders, by price, the greatest first, then by date.
pub proof fn large_orders_are_listed_by_price<F: Fn(FloatOp, u64, u64) -> u64>(
    f: F,
    customer: Table,
    orders: Table,
    lineitem: Table,
    q: QueryResult,
    i: int,
    j: int,
)
    requires
        q18_outcome(f, customer, orders, lineitem, Ok::<QueryResult, Error>(q)),
        0 <= i < j < q.row_count,
    ensures
        q.row_count <= 100,
        q@[4].0 == "o_totalprice"@,
        total_rank(q@[4].1[i]) >= total_rank(q@[4].1[j]),
        q@[4].1[i] == q@[4].1[j] ==> q@[3].1[i] <= q@[3].1[j],
{
    let quantities = q18_quantities(f, orders, lineitem);
    let marks = great_orders(quantities);
    let listed = marked_rows(marks, marks.len() as int);
    let who = cells_of_rows(col(orders, 1), listed);
    let dates = cells_of_rows(col(orders, 4), listed);
    let prices = cells_of_rows(col(orders, 3), listed);
    let keys = q18_order_keys(prices, dates);
    let n = limited(listed.len() as int, 100);
    let order = choose|order: Seq<usize>| #[trigger]
        is_stable_order(keys, order) && answers(
        Ok::<QueryResult, Error>(q),
        seq![
            ("c_name"@, picked(table_cells(customer, 1, who, 0), order, n)),
            ("c_custkey"@, picked(who, order, n)),
            ("o_orderkey"@, picked(cells_of_rows(col(orders, 0), listed), order, n)),
            ("o_orderdate"@, picked(dates, order, n)),
            ("o_totalprice"@, picked(prices, order, n)),
            ("sum"@, picked(cells_of_rows(quantities, listed), order, n)),
        ],
        n,
    );
    lemma_rise(keys, 2, order, i, j);
    let a = order[i] as int;
    let b = order[j] as int;
    assert(keys[a] == seq![(u64::MAX - total_rank(prices[a])) as u64, dates[a]]);
    assert(keys[b] == seq![(u64::MAX - total_rank(prices[b])) as u64, dates[b]]);
}

/// The answer lists suppliers by name.
pub proof fn stocked_suppliers_ascend<F: Fn(FloatOp, u64, u64) -> u64>(
    f: F,
    part: Table,
    lineitem: Table,
    partsupp: Table,
    supplier: Table,
    nation: Table,
    q: QueryResult,
    i: int,
    j: int,
)
    requires
        q20_outcome(f, part, lineitem, partsupp, supplier, nation, Ok::<QueryResult, Error>(q)),
        0 <= i < j < q.row_count,
    ensures
        q@[0].0 == "s_name"@,
        total_rank(q@[0].1[i]) <= total_rank(q@[0].1[j]),
{
    let canada = first_key(col(nation, 1), col(nation, 0), nation.row_count as int, text_hash("CANADA"@));
    let marks = stocked_suppliers(f, part, lineitem, partsupp, supplier, canada->0);
    let listed = marked_rows(marks, marks.len() as int);
    let names = cells_of_rows(col(supplier, 1), listed);
    let keys = least_first(names);
    let n = listed.len() as int;
    let order = choose|order: Seq<usize>| #[trigger]
        is_stable_order(keys, order) && answers(
        Ok::<QueryResult, Error>(q),
        seq![
            ("s_name"@, picked(names, order, n)),
            ("s_address"@, picked(cells_of_rows(col(supplier, 2), listed), order, n)),
        ],
        n,
    );
    lemma_rise(keys, 1, order, i, j);
    let a = order[i] as int;
    let b = order[j] as int;
    assert(keys[a] == seq![total_rank(names[a])]);
    assert(keys[b] == seq![total_rank(names[b])]);
}

/// The answer lists at most a hundred suppliers, by how many orders waited for them alone, the greatest
/// first, then by name.
pub proof fn waiting_suppliers_are_listed_by_count(
    lineitem: Table,
    orders: Table,
    supplier: Table,
    nation: Table,
    q: QueryResult,
    i: int,
    j: int,
)
    requires
        q21_outcome(lineitem, orders, supplier, nation, Ok::<QueryResult, Error>(q)),
        0 <= i < j < q.row_count,
    ensures
        q.row_count <= 100,
        q@[1].0 == "numwait"@,
        q@[1].1[i] >= q@[1].1[j],
        q@[1].1[i] == q@[1].1[j] ==> total_rank(q@[0].1[i]) <= total_rank(q@[0].1[j]),
{
    let country = first_key(col(nation, 1), col(nation, 0), nation.row_count as int, text_hash("SAUDI ARABIA"@))->0;
    let lines = q21_lines(lineitem, orders, supplier, country);
    let groups = group_keys(lines);
    let names = first_words(groups);
    let counts = counts_of(lines, groups);
    let keys = q21_order_keys(counts, names);
    let n = limited(groups.len() as int, 100);
    let order = choose|order: Seq<usize>| #[trigger]
        is_stable_order(keys, order) && answers(
        Ok::<QueryResult, Error>(q),
        seq![
            ("s_name"@, picked(names, order, n)),
            ("numwait"@, picked(counts, order, n)),
        ],
        n,
    );
    lemma_rise(keys, 2, order, i, j);
    let a = order[i] as int;
    let b = order[j] as int;
    assert(keys[a] == seq![(u64::MAX - counts[a]) as u64, total_rank(names[a])]);
    assert(keys[b] == seq![(u64::MAX - counts[b]) as u64, total_rank(names[b])]);
}

/// The answer lists the trade of the one nation before that of the other, by seller and then by buyer, and
/// the years ascend.
pub proof fn trade_is_listed_by_nations_and_year<F: Fn(FloatOp, u64, u64) -> u64>(
    f: F,
    supplier: Table,
    lineitem: Table,
    orders: Table,
    customer: Table,
    nation: Table,
    q: QueryResult,
    i: int,
    j: int,
)
    requires
        q7_outcome(f, supplier, lineitem, orders, customer, nation, Ok::<QueryResult, Error>(q)),
        0 <= i < j < q.row_count,
    ensures
        q@[0].1[j] == text_hash("FRANCE"@) ==> q@[0].1[i] == text_hash("FRANCE"@),
        q@[0].1[i] == q@[0].1[j] && q@[1].1[j] == text_hash("FRANCE"@) ==> q@[1].1[i] == text_hash("FRANCE"@),
        q@[0].1[i] == q@[0].1[j] && q@[1].1[i] == q@[1].1[j] ==> q@[2].1[i] <= q@[2].1[j],
{
    let p = nation_pair(nation);
    let lines = q7_lines(f, supplier, lineitem, orders, customer, p);
    let groups = group_keys(lines);
    let first = first_words(groups);
    let second = second_words(groups);
    let third = third_words(groups);
    let keys = q7_order_keys(groups, p);
    let n = groups.len() as int;
    let order = choose|order: Seq<usize>| #[trigger]
        is_stable_order(keys, order) && answers(
        Ok::<QueryResult, Error>(q),
        seq![
            ("supp_nation"@, picked(first_words(groups), order, n)),
            ("cust_nation"@, picked(second_words(groups), order, n)),
            ("l_year"@, picked(third_words(groups), order, n)),
            ("revenue"@, picked(sums_of(f, lines, groups), order, n)),
        ],
        n,
    );
    lemma_rise(keys, 3, order, i, j);
    let a = order[i] as int;
    let b = order[j] as int;
    assert(keys[a] == seq![if first[a] == text_hash("FRANCE"@) { 0u64 } else { 1u64 }, if second[a] == text_hash("FRANCE"@) { 0u64 } else { 1u64 }, third[a]]);
    assert(keys[b] == seq![if first[b] == text_hash("FRANCE"@) { 0u64 } else { 1u64 }, if second[b] == text_hash("FRANCE"@) { 0u64 } else { 1u64 }, third[b]]);
}

} // verus!
