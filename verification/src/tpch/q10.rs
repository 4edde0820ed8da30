//! The customers whose returned goods of one quarter were worth most.

use crate::dates::{date_cell, date_to_days};
use crate::error::Error;
use crate::float_bits::{discount_price, discounted, is_arith, FloatOp};
use crate::group_index::{row_of_key, Key, RowIndex};
use crate::hashing::{hash_text, text_hash};
use crate::order::{is_stable_order, key_rows, stable_order};
use crate::table::{column_view, Catalog, QueryResult, ResultColumn, Table};
use crate::tpch::sums::{first_words, group_keys, split_keys, sum_groups, sums_of, Term};
use crate::tpch::support::{
    all_marked, answers, col, column, found, greatest_first, has_columns, has_part, keys_greatest_first,
    lemma_order_bounds, limited, look_up, mark_all, mark_between, marks_between, need, no_table_text, not_found, pick,
    picked, result, table_cell, table_cells, table_of, table_ok, text_has,
};
use vstd::prelude::*;

verus! {

/// Whether a query text is this query.
pub open spec fn q10_text(sql: Seq<char>) -> bool {
    has_part(sql, "c_comment"@) && has_part(sql, "l_returnflag = 'R'"@) && has_part(sql, "c_acctbal, n_name"@) && has_part(sql, "1993-10-01"@)
}

pub fn is_q10(sql: &str) -> (b: bool)
    ensures
        b == q10_text(sql@),
{
    text_has(sql, "c_comment") && text_has(sql, "l_returnflag = 'R'") && text_has(sql, "c_acctbal, n_name") && text_has(sql, "1993-10-01")
}

/// How many customers are listed.
pub const Q10_LIMIT: usize = 20;

/// Marks of the orders of the quarter.
pub open spec fn q10_orders(orders: Table) -> Seq<bool> {
    marks_between(col(orders, 4), date_cell(1993, 10, 1), date_cell(1994, 1, 1))
}

/// What a line adds to the value of the goods that a customer returned.
pub open spec fn q10_line<F: Fn(FloatOp, u64, u64) -> u64>(f: F, orders: Table, lineitem: Table, i: int) -> Term {
    if col(lineitem, 8)[i] != text_hash("R"@) {
        None
    } else {
        match row_of_key(col(orders, 0), q10_orders(orders), col(lineitem, 0)[i]) {
            Some(o) => Some(
                (
                    (col(orders, 1)[o as int], 0u64, 0u64),
                    discounted(f, col(lineitem, 5)[i], col(lineitem, 6)[i]),
                ),
            ),
            None => None,
        }
    }
}

/// The lines.
pub open spec fn q10_lines<F: Fn(FloatOp, u64, u64) -> u64>(f: F, orders: Table, lineitem: Table) -> Seq<Term> {
    Seq::new(lineitem.row_count as nat, |i: int| q10_line(f, orders, lineitem, i))
}

/// The nation of a customer; the greatest word where the customer is not known.
pub open spec fn nation_name(nation: Table, key: u64) -> u64 {
    if key == u64::MAX {
        0
    } else {
        table_cell(nation, 1, key, 0)
    }
}

/// The names of nations.
pub open spec fn nation_names(nation: Table, keys: Seq<u64>) -> Seq<u64> {
    Seq::new(keys.len(), |i: int| nation_name(nation, keys[i]))
}

/// The answer.
pub open spec fn q10_outcome<F: Fn(FloatOp, u64, u64) -> u64>(
    f: F,
    customer: Table,
    orders: Table,
    lineitem: Table,
    nation: Table,
    r: Result<QueryResult, Error>,
) -> bool {
    let lines = q10_lines(f, orders, lineitem);
    let groups = group_keys(lines);
    let who = first_words(groups);
    let revenues = sums_of(f, lines, groups);
    let nations = nation_names(nation, table_cells(customer, 3, who, u64::MAX));
    let n = limited(groups.len() as int, Q10_LIMIT as int);
    exists|order: Seq<usize>| #[trigger]
        is_stable_order(greatest_first(revenues), order) && answers(
            r,
            seq![
                ("c_custkey"@, picked(who, order, n)),
                ("c_name"@, picked(table_cells(customer, 1, who, 0), order, n)),
                ("revenue"@, picked(revenues, order, n)),
                ("c_acctbal"@, picked(table_cells(customer, 5, who, 0), order, n)),
                ("n_name"@, picked(nations, order, n)),
                ("c_address"@, picked(table_cells(customer, 2, who, 0), order, n)),
                ("c_phone"@, picked(table_cells(customer, 4, who, 0), order, n)),
                ("c_comment"@, picked(table_cells(customer, 7, who, 0), order, n)),
            ],
            n,
        )
}

/// What the query comes to on the tables of a catalog.
pub open spec fn q10_result<F: Fn(FloatOp, u64, u64) -> u64>(f: F, catalog: Catalog, r: Result<QueryResult, Error>) -> bool {
    if !found(catalog, "customer"@) {
        not_found(r, no_table_text("customer"@))
    } else if !found(catalog, "orders"@) {
        not_found(r, no_table_text("orders"@))
    } else if !found(catalog, "lineitem"@) {
        not_found(r, no_table_text("lineitem"@))
    } else if !found(catalog, "nation"@) {
        not_found(r, no_table_text("nation"@))
    } else {
        q10_outcome(
            f,
            table_of(catalog, "customer"@),
            table_of(catalog, "orders"@),
            table_of(catalog, "lineitem"@),
            table_of(catalog, "nation"@),
            r,
        )
    }
}

/// Evaluates the query.
pub fn execute_q10_reformulated<F: Fn(FloatOp, u64, u64) -> u64>(catalog: &Catalog, fpu: &F) -> (r: Result<QueryResult, Error>)
    requires
        is_arith(*fpu),
        table_ok(*catalog, "customer"@, 8),
        table_ok(*catalog, "orders"@, 5),
        table_ok(*catalog, "lineitem"@, 9),
        table_ok(*catalog, "nation"@, 2),
    ensures
        q10_result(*fpu, *catalog, r),
{
    let customer: &Table = match need(catalog, "customer") {
        Ok(t) => t,
        Err(e) => {
            return Err(e);
        },
    };
    let orders: &Table = match need(catalog, "orders") {
        Ok(t) => t,
        Err(e) => {
            return Err(e);
        },
    };
    let lineitem: &Table = match need(catalog, "lineitem") {
        Ok(t) => t,
        Err(e) => {
            return Err(e);
        },
    };
    let nation: &Table = match need(catalog, "nation") {
        Ok(t) => t,
        Err(e) => {
            return Err(e);
        },
    };
    q10_answer(customer, orders, lineitem, nation, fpu)
}

/// Evaluates the query on its tables.
pub fn q10_answer<F: Fn(FloatOp, u64, u64) -> u64>(
    customer: &Table,
    orders: &Table,
    lineitem: &Table,
    nation: &Table,
    fpu: &F,
) -> (r: Result<QueryResult, Error>)
    requires
        is_arith(*fpu),
        has_columns(*customer, 8),
        has_columns(*orders, 5),
        has_columns(*lineitem, 9),
        has_columns(*nation, 2),
    ensures
        q10_outcome(*fpu, *customer, *orders, *lineitem, *nation, r),
{
    let returned: u64 = hash_text("R");
    let quarter: Vec<bool> = mark_between(&orders.columns[4], date_to_days(1993, 10, 1), date_to_days(1994, 1, 1));
    let quarter_orders: RowIndex = RowIndex::build(&orders.columns[0], &quarter);
    let mut lines: Vec<Term> = Vec::new();
    let n: usize = lineitem.row_count;
    let mut i: usize = 0;
    while i < n
        invariant
            is_arith(*fpu),
            has_columns(*orders, 5),
            has_columns(*lineitem, 9),
            n == lineitem.row_count,
            i <= n,
            returned == text_hash("R"@),
            quarter_orders.wf(),
            quarter_orders.keys() == col(*orders, 0),
            quarter_orders.marks() == q10_orders(*orders),
            lines.len() == i,
            forall|k: int| 0 <= k < i ==> #[trigger] lines@[k] == q10_line(*fpu, *orders, *lineitem, k),
        decreases n - i,
    {
        let line: Term = if lineitem.columns[8][i] != returned {
            None
        } else {
            match quarter_orders.find(lineitem.columns[0][i]) {
                Some(o) => Some(
                    (
                        (orders.columns[1][o], 0, 0),
                        discount_price(fpu, lineitem.columns[5][i], lineitem.columns[6][i]),
                    ),
                ),
                None => None,
            }
        };
        lines.push(line);
        i = i + 1;
    }
    proof {
        assert(lines@ =~= q10_lines(*fpu, *orders, *lineitem));
    }
    let (groups, revenues): (Vec<Key>, Vec<u64>) = sum_groups(&lines, fpu);
    proof {
        assert(revenues@ =~= sums_of(*fpu, lines@, groups@));
    }
    let (who, _, _): (Vec<u64>, Vec<u64>, Vec<u64>) = split_keys(&groups);
    let customers: RowIndex = RowIndex::build(&customer.columns[0], &mark_all(customer.row_count));
    let name: Vec<u64> = look_up(&customers, &customer.columns[1], &who, 0);
    let acctbal: Vec<u64> = look_up(&customers, &customer.columns[5], &who, 0);
    let address: Vec<u64> = look_up(&customers, &customer.columns[2], &who, 0);
    let phone: Vec<u64> = look_up(&customers, &customer.columns[4], &who, 0);
    let comment: Vec<u64> = look_up(&customers, &customer.columns[7], &who, 0);
    let nation_keys: Vec<u64> = look_up(&customers, &customer.columns[3], &who, 0xFFFF_FFFF_FFFF_FFFF);
    let nations: RowIndex = RowIndex::build(&nation.columns[0], &mark_all(nation.row_count));
    let mut names: Vec<u64> = Vec::new();
    let mut j: usize = 0;
    while j < nation_keys.len()
        invariant
            has_columns(*nation, 2),
            nations.wf(),
            nations.keys() == col(*nation, 0),
            nations.marks() == all_marked(nation.row_count as nat),
            j <= nation_keys.len(),
            names.len() == j,
            forall|k: int| 0 <= k < j ==> #[trigger] names@[k] == nation_name(*nation, nation_keys@[k]),
        decreases nation_keys.len() - j,
    {
        let key: u64 = nation_keys[j];
        let found_name: u64 = if key == 0xFFFF_FFFF_FFFF_FFFF {
            0
        } else {
            match nations.find(key) {
                Some(q) => nation.columns[1][q],
                None => 0,
            }
        };
        names.push(found_name);
        j = j + 1;
    }
    proof {
        assert(names@ =~= nation_names(*nation, nation_keys@));
    }
    let keys: Vec<Vec<u64>> = keys_greatest_first(&revenues);
    let order: Vec<usize> = stable_order(&keys);
    proof {
        lemma_order_bounds(key_rows(keys@), order@);
    }
    let rows: usize = if order.len() < Q10_LIMIT {
        order.len()
    } else {
        Q10_LIMIT
    };
    let mut columns: Vec<ResultColumn> = Vec::new();
    columns.push(column("c_custkey", pick(&who, &order, rows)));
    columns.push(column("c_name", pick(&name, &order, rows)));
    columns.push(column("revenue", pick(&revenues, &order, rows)));
    columns.push(column("c_acctbal", pick(&acctbal, &order, rows)));
    columns.push(column("n_name", pick(&names, &order, rows)));
    columns.push(column("c_address", pick(&address, &order, rows)));
    columns.push(column("c_phone", pick(&phone, &order, rows)));
    columns.push(column("c_comment", pick(&comment, &order, rows)));
    proof {
        assert(columns@.map_values(|c: ResultColumn| column_view(c)) =~= seq![
            ("c_custkey"@, picked(who@, order@, rows as int)),
            ("c_name"@, picked(name@, order@, rows as int)),
            ("revenue"@, picked(revenues@, order@, rows as int)),
            ("c_acctbal"@, picked(acctbal@, order@, rows as int)),
            ("n_name"@, picked(names@, order@, rows as int)),
            ("c_address"@, picked(address@, order@, rows as int)),
            ("c_phone"@, picked(phone@, order@, rows as int)),
            ("c_comment"@, picked(comment@, order@, rows as int)),
        ]);
    }
    result(columns, rows)
}

} // verus!
