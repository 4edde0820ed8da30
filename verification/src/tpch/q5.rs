//! Revenue by nation of a region, from orders of one year that customers placed
//! with suppliers of their own nation.

use crate::dates::{date_cell, date_to_days};
use crate::error::Error;
use crate::float_bits::{discount_price, discounted, is_arith, FloatOp};
use crate::group_index::{row_of_key, RowIndex};
use crate::hashing::{hash_text, text_hash};
use crate::order::{is_stable_order, key_rows, stable_order};
use crate::table::{column_view, Catalog, QueryResult, ResultColumn, Table};
use crate::tpch::sums::{slot_key, slot_sum, sum_slots, Term, BLOCK};
use crate::tpch::support::{
    all_marked, answers, col, column, find_key, first_key, found, greatest_first, has_columns, has_part, is_known,
    keys_greatest_first, lemma_order_bounds, mark_all, mark_between, mark_equal, marked_before, marked_cells,
    marks_between, marks_equal, missing, need, no_table_text, not_found, pick, picked, result, table_of, table_ok,
    take_marked, text_has,
};

use vstd::prelude::*;

verus! {

/// Whether a query text is this query.
pub open spec fn q5_text(sql: Seq<char>) -> bool {
    has_part(sql, "n_name, sum(l_extendedprice"@) && has_part(sql, "r_name = 'ASIA'"@) && has_part(
        sql,
        "o_orderdate >= date '1994-01-01'"@,
    )
}

pub fn is_q5(sql: &str) -> (b: bool)
    ensures
        b == q5_text(sql@),
{
    text_has(sql, "n_name, sum(l_extendedprice") && text_has(sql, "r_name = 'ASIA'") && text_has(
        sql,
        "o_orderdate >= date '1994-01-01'",
    )
}

/// Marks of the nations of a region.
pub open spec fn nations_of(nation: Table, region: u64) -> Seq<bool> {
    marks_equal(col(nation, 2), region)
}

/// The number of a nation among those of the region; nothing where it is none
/// of them.
pub open spec fn nation_slot(nation: Table, region: u64, key: u64) -> Option<u64> {
    match row_of_key(col(nation, 0), nations_of(nation, region), key) {
        Some(r) => Some(marked_before(nations_of(nation, region), r as int) as u64),
        None => None,
    }
}

/// The number of the nation of a supplier or a customer.
pub open spec fn party_slot(party: Table, nation: Table, region: u64, key: u64) -> Option<u64> {
    match row_of_key(col(party, 0), all_marked(party.row_count as nat), key) {
        Some(r) => nation_slot(nation, region, col(party, 3)[r as int]),
        None => None,
    }
}

/// Marks of the orders of the year.
pub open spec fn q5_orders(orders: Table) -> Seq<bool> {
    marks_between(col(orders, 4), date_cell(1994, 1, 1), date_cell(1995, 1, 1))
}

/// The number of the nation of the customer of an order of the year.
pub open spec fn order_slot(orders: Table, customer: Table, nation: Table, region: u64, key: u64) -> Option<u64> {
    match row_of_key(col(orders, 0), q5_orders(orders), key) {
        Some(r) => party_slot(customer, nation, region, col(orders, 1)[r as int]),
        None => None,
    }
}

/// What a line adds to the revenue of a nation.
pub open spec fn q5_line<F: Fn(FloatOp, u64, u64) -> u64>(
    f: F,
    nation: Table,
    supplier: Table,
    customer: Table,
    orders: Table,
    lineitem: Table,
    region: u64,
    i: int,
) -> Term {
    match order_slot(orders, customer, nation, region, col(lineitem, 0)[i]) {
        Some(c) => if party_slot(supplier, nation, region, col(lineitem, 2)[i]) == Some(c) {
            Some((slot_key(c as int), discounted(f, col(lineitem, 5)[i], col(lineitem, 6)[i])))
        } else {
            None
        },
        None => None,
    }
}

/// The lines.
pub open spec fn q5_lines<F: Fn(FloatOp, u64, u64) -> u64>(
    f: F,
    nation: Table,
    supplier: Table,
    customer: Table,
    orders: Table,
    lineitem: Table,
    region: u64,
) -> Seq<Term> {
    Seq::new(
        lineitem.row_count as nat,
        |i: int| q5_line(f, nation, supplier, customer, orders, lineitem, region, i),
    )
}

/// The revenue of each nation of the region.
pub open spec fn q5_revenues<F: Fn(FloatOp, u64, u64) -> u64>(f: F, lines: Seq<Term>, nations: nat) -> Seq<u64> {
    Seq::new(nations, |g: int| slot_sum(f, lines, g, BLOCK as int))
}

/// The answer.
pub open spec fn q5_outcome<F: Fn(FloatOp, u64, u64) -> u64>(
    f: F,
    region: Table,
    nation: Table,
    supplier: Table,
    customer: Table,
    orders: Table,
    lineitem: Table,
    r: Result<QueryResult, Error>,
) -> bool {
    let asia = first_key(col(region, 1), col(region, 0), region.row_count as int, text_hash("ASIA"@));
    if !is_known(asia) {
        not_found(r, "ASIA region not found in region table"@)
    } else {
        let marks = nations_of(nation, asia->0);
        let names = marked_cells(col(nation, 1), marks, marks.len() as int);
        if names.len() == 0 {
            not_found(r, "No nations found for ASIA region"@)
        } else {
            let revenues = q5_revenues(
                f,
                q5_lines(f, nation, supplier, customer, orders, lineitem, asia->0),
                names.len(),
            );
            let n = names.len() as int;
            exists|order: Seq<usize>| #[trigger]
                is_stable_order(greatest_first(revenues), order) && answers(
                    r,
                    seq![("n_name"@, picked(names, order, n)), ("revenue"@, picked(revenues, order, n))],
                    n,
                )
        }
    }
}

/// The number of every nation row among those of the region, where it is one.
fn slot_at(row: Option<usize>, before: &Vec<usize>) -> (s: Option<u64>)
    requires
        row matches Some(r) ==> r < before.len(),
    ensures
        s == (match row {
            Some(r) => Some(before@[r as int] as u64),
            None => None::<u64>,
        }),
{
    match row {
        Some(r) => Some(before[r] as u64),
        None => None,
    }
}

/// What the query comes to on the tables of a catalog.
pub open spec fn q5_result<F: Fn(FloatOp, u64, u64) -> u64>(f: F, catalog: Catalog, r: Result<QueryResult, Error>) -> bool {
    if !found(catalog, "region"@) {
        not_found(r, no_table_text("region"@))
    } else if !found(catalog, "nation"@) {
        not_found(r, no_table_text("nation"@))
    } else if !found(catalog, "supplier"@) {
        not_found(r, no_table_text("supplier"@))
    } else if !found(catalog, "customer"@) {
        not_found(r, no_table_text("customer"@))
    } else if !found(catalog, "orders"@) {
        not_found(r, no_table_text("orders"@))
    } else if !found(catalog, "lineitem"@) {
        not_found(r, no_table_text("lineitem"@))
    } else {
        q5_outcome(
            f,
            table_of(catalog, "region"@),
            table_of(catalog, "nation"@),
            table_of(catalog, "supplier"@),
            table_of(catalog, "customer"@),
            table_of(catalog, "orders"@),
            table_of(catalog, "lineitem"@),
            r,
        )
    }
}

/// Evaluates the query.
pub fn execute_q5_reformulated<F: Fn(FloatOp, u64, u64) -> u64>(catalog: &Catalog, fpu: &F) -> (r: Result<QueryResult, Error>)
    requires
        is_arith(*fpu),
        table_ok(*catalog, "region"@, 2),
        table_ok(*catalog, "nation"@, 3),
        table_ok(*catalog, "supplier"@, 4),
        table_ok(*catalog, "customer"@, 4),
        table_ok(*catalog, "orders"@, 5),
        table_ok(*catalog, "lineitem"@, 7),
    ensures
        q5_result(*fpu, *catalog, r),
{
    let region: &Table = match need(catalog, "region") {
        Ok(t) => t,
        Err(e) => {
            return Err(e);
        },
    };
    let nation: &Table = match need(catalog, "nation") {
        Ok(t) => t,
        Err(e) => {
            return Err(e);
        },
    };
    let supplier: &Table = match need(catalog, "supplier") {
        Ok(t) => t,
        Err(e) => {
            return Err(e);
        },
    };
    let customer: &Table = match need(catalog, "customer") {
        Ok(t) => t,
        Err(e) => {
            return Err(e);
        },
    };
    let orders: &Table = match need(catalog, "orders") {
        Ok(t) => t,
        Err(e) => {
            return Err(e);
        },
    };
    let lineitem: &Table = match need(catalog, "lineitem") {
        Ok(t) => t,
        Err(e) => {
            return Err(e);
        },
    };
    q5_answer(region, nation, supplier, customer, orders, lineitem, fpu)
}

/// Evaluates the query on its tables.
pub fn q5_answer<F: Fn(FloatOp, u64, u64) -> u64>(
    region: &Table,
    nation: &Table,
    supplier: &Table,
    customer: &Table,
    orders: &Table,
    lineitem: &Table,
    fpu: &F,
) -> (r: Result<QueryResult, Error>)
    requires
        is_arith(*fpu),
        has_columns(*region, 2),
        has_columns(*nation, 3),
        has_columns(*supplier, 4),
        has_columns(*customer, 4),
        has_columns(*orders, 5),
        has_columns(*lineitem, 7),
    ensures
        q5_outcome(*fpu, *region, *nation, *supplier, *customer, *orders, *lineitem, r),
{
    let asia: u64 = match find_key(&region.columns[1], &region.columns[0], hash_text("ASIA")) {
        Some(k) => {
            if k == 0xFFFF_FFFF_FFFF_FFFF {
                return Err(missing("ASIA region not found in region table"));
            }
            k
        },
        None => {
            return Err(missing("ASIA region not found in region table"));
        },
    };
    let nation_marks: Vec<bool> = mark_equal(&nation.columns[2], asia);
    let (names, before): (Vec<u64>, Vec<usize>) = take_marked(&nation.columns[1], &nation_marks);
    if names.len() == 0 {
        return Err(missing("No nations found for ASIA region"));
    }
    let nations: RowIndex = RowIndex::build(&nation.columns[0], &nation_marks);
    let suppliers: RowIndex = RowIndex::build(&supplier.columns[0], &mark_all(supplier.row_count));
    let customers: RowIndex = RowIndex::build(&customer.columns[0], &mark_all(customer.row_count));
    let year: Vec<bool> = mark_between(&orders.columns[4], date_to_days(1994, 1, 1), date_to_days(1995, 1, 1));
    let year_orders: RowIndex = RowIndex::build(&orders.columns[0], &year);
    let mut lines: Vec<Term> = Vec::new();
    let n: usize = lineitem.row_count;
    let mut i: usize = 0;
    while i < n
        invariant
            is_arith(*fpu),
            has_columns(*nation, 3),
            has_columns(*supplier, 4),
            has_columns(*customer, 4),
            has_columns(*orders, 5),
            has_columns(*lineitem, 7),
            n == lineitem.row_count,
            i <= n,
            nations.wf(),
            nations.keys() == col(*nation, 0),
            nations.marks() == nations_of(*nation, asia),
            before.len() == nation.row_count,
            forall|k: int|
                0 <= k < before.len() ==> #[trigger] before@[k] == marked_before(nations_of(*nation, asia), k),
            suppliers.wf(),
            suppliers.keys() == col(*supplier, 0),
            suppliers.marks() == all_marked(supplier.row_count as nat),
            customers.wf(),
            customers.keys() == col(*customer, 0),
            customers.marks() == all_marked(customer.row_count as nat),
            year_orders.wf(),
            year_orders.keys() == col(*orders, 0),
            year_orders.marks() == q5_orders(*orders),
            lines.len() == i,
            forall|k: int|
                0 <= k < i ==> #[trigger] lines@[k] == q5_line(
                    *fpu,
                    *nation,
                    *supplier,
                    *customer,
                    *orders,
                    *lineitem,
                    asia,
                    k,
                ),
        decreases n - i,
    {
        let buyer: Option<u64> = match year_orders.find(lineitem.columns[0][i]) {
            Some(o) => match customers.find(orders.columns[1][o]) {
                Some(c) => slot_at(nations.find(customer.columns[3][c]), &before),
                None => None,
            },
            None => None,
        };
        let line: Term = match buyer {
            Some(c) => {
                let seller: Option<u64> = match suppliers.find(lineitem.columns[2][i]) {
                    Some(s) => slot_at(nations.find(supplier.columns[3][s]), &before),
                    None => None,
                };
                match seller {
                    Some(s) => if s == c {
                        Some(((c, 0, 0), discount_price(fpu, lineitem.columns[5][i], lineitem.columns[6][i])))
                    } else {
                        None
                    },
                    None => None,
                }
            },
            None => None,
        };
        lines.push(line);
        i = i + 1;
    }
    proof {
        assert(lines@ =~= q5_lines(*fpu, *nation, *supplier, *customer, *orders, *lineitem, asia));
    }
    let revenues: Vec<u64> = sum_slots(&lines, names.len(), BLOCK, fpu);
    proof {
        assert(revenues@ =~= q5_revenues(*fpu, lines@, names@.len()));
    }
    let keys: Vec<Vec<u64>> = keys_greatest_first(&revenues);
    let order: Vec<usize> = stable_order(&keys);
    proof {
        lemma_order_bounds(key_rows(keys@), order@);
    }
    let rows: usize = order.len();
    let mut columns: Vec<ResultColumn> = Vec::new();
    columns.push(column("n_name", pick(&names, &order, rows)));
    columns.push(column("revenue", pick(&revenues, &order, rows)));
    proof {
        assert(columns@.map_values(|c: ResultColumn| column_view(c)) =~= seq![
            ("n_name"@, picked(names@, order@, rows as int)),
            ("revenue"@, picked(revenues@, order@, rows as int)),
        ]);
    }
    result(columns, rows)
}

} // verus!
