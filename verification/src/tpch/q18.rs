//! The orders of great quantity.

use crate::error::Error;
use crate::float_bits::{
    arith, descending, float_lt, is_arith, less, reversed, sort_rank, total_rank, FloatOp,
};
use crate::group_index::{GroupIndex, Key, RowIndex};
use crate::order::{is_stable_order, key_rows, stable_order};
use crate::table::{column_view, Catalog, QueryResult, ResultColumn, Table};
use crate::tpch::sums::{group_sum, index_sums, or_zero, sum_at, Term, BLOCK};
use crate::tpch::support::{
    answers, cells_of_rows, col, column, found, has_columns, has_part, lemma_order_bounds, limited, list_marked,
    look_up, mark_all, marked_rows, need, no_table_text, not_found, pick, picked, result, table_cells, table_of,
    table_ok, take_rows, text_has,
};
use vstd::prelude::*;

verus! {

/// Whether a query text is this query.
pub open spec fn q18_text(sql: Seq<char>) -> bool {
    has_part(sql, "sum(l_quantity) > 300"@) && has_part(sql, "o_totalprice DESC"@) && has_part(sql, "GROUP BY c_name, c_custkey, o_orderkey"@)
}

pub fn is_q18(sql: &str) -> (b: bool)
    ensures
        b == q18_text(sql@),
{
    text_has(sql, "sum(l_quantity) > 300") && text_has(sql, "o_totalprice DESC") && text_has(sql, "GROUP BY c_name, c_custkey, o_orderkey")
}

/// How many orders are listed.
pub const Q18_LIMIT: usize = 100;

/// The bit pattern of `300`: the quantity that an order must exceed.
pub const GREAT_QUANTITY: u64 = 0x4072_C000_0000_0000;

/// Row `i` begins a run of lines of one order; runs do not cross blocks.
pub open spec fn run_begins(keys: Seq<u64>, i: int) -> bool {
    i <= 0 || i % BLOCK as int == 0 || keys[i - 1] != keys[i]
}

/// The quantity of a run up to row `i`.
pub open spec fn run_sum<F: Fn(FloatOp, u64, u64) -> u64>(f: F, keys: Seq<u64>, quantities: Seq<u64>, i: int) -> u64
    decreases i,
{
    if run_begins(keys, i) {
        quantities[i]
    } else {
        arith(f, FloatOp::Add, run_sum(f, keys, quantities, i - 1), quantities[i])
    }
}

/// A run adds its quantity to that of its order at its last row. The greatest
/// word is no order.
pub open spec fn q18_line<F: Fn(FloatOp, u64, u64) -> u64>(f: F, lineitem: Table, i: int) -> Term {
    let keys = col(lineitem, 0);
    if keys[i] != u64::MAX && (i + 1 >= lineitem.row_count || run_begins(keys, i + 1)) {
        Some(((keys[i], 0u64, 0u64), run_sum(f, keys, col(lineitem, 4), i)))
    } else {
        None
    }
}

/// The runs.
pub open spec fn q18_lines<F: Fn(FloatOp, u64, u64) -> u64>(f: F, lineitem: Table) -> Seq<Term> {
    Seq::new(lineitem.row_count as nat, |i: int| q18_line(f, lineitem, i))
}

/// The quantity of each order.
pub open spec fn q18_quantities<F: Fn(FloatOp, u64, u64) -> u64>(f: F, orders: Table, lineitem: Table) -> Seq<u64> {
    Seq::new(
        orders.row_count as nat,
        |i: int| or_zero(group_sum(f, q18_lines(f, lineitem), (col(orders, 0)[i], 0u64, 0u64))),
    )
}

/// Marks of the orders of great quantity.
pub open spec fn great_orders(quantities: Seq<u64>) -> Seq<bool> {
    Seq::new(quantities.len(), |i: int| float_lt(GREAT_QUANTITY, quantities[i]))
}

/// Sorting by price, the greatest first, then by date.
pub open spec fn q18_order_keys(prices: Seq<u64>, dates: Seq<u64>) -> Seq<Seq<u64>> {
    Seq::new(prices.len(), |i: int| seq![descending(total_rank(prices[i])), dates[i]])
}

/// The answer.
pub open spec fn q18_outcome<F: Fn(FloatOp, u64, u64) -> u64>(
    f: F,
    customer: Table,
    orders: Table,
    lineitem: Table,
    r: Result<QueryResult, Error>,
) -> bool {
    let quantities = q18_quantities(f, orders, lineitem);
    let marks = great_orders(quantities);
    let listed = marked_rows(marks, marks.len() as int);
    let who = cells_of_rows(col(orders, 1), listed);
    let dates = cells_of_rows(col(orders, 4), listed);
    let prices = cells_of_rows(col(orders, 3), listed);
    let n = limited(listed.len() as int, Q18_LIMIT as int);
    exists|order: Seq<usize>| #[trigger]
        is_stable_order(q18_order_keys(prices, dates), order) && answers(
            r,
            seq![
                ("c_name"@, picked(table_cells(customer, 1, who, 0), order, n)),
                ("c_custkey"@, picked(who, order, n)),
                ("o_orderkey"@, picked(cells_of_rows(col(orders, 0), listed), order, n)),
                ("o_orderdate"@, picked(dates, order, n)),
                ("o_totalprice"@, picked(prices, order, n)),
                ("sum"@, picked(cells_of_rows(quantities, listed), order, n)),
            ],
            n,
        )
}

/// What the query comes to on the tables of a catalog.
pub open spec fn q18_result<F: Fn(FloatOp, u64, u64) -> u64>(f: F, catalog: Catalog, r: Result<QueryResult, Error>) -> bool {
    if !found(catalog, "customer"@) {
        not_found(r, no_table_text("customer"@))
    } else if !found(catalog, "orders"@) {
        not_found(r, no_table_text("orders"@))
    } else if !found(catalog, "lineitem"@) {
        not_found(r, no_table_text("lineitem"@))
    } else {
        q18_outcome(
            f,
            table_of(catalog, "customer"@),
            table_of(catalog, "orders"@),
            table_of(catalog, "lineitem"@),
            r,
        )
    }
}

/// Evaluates the query.
pub fn execute_q18_reformulated<F: Fn(FloatOp, u64, u64) -> u64>(catalog: &Catalog, fpu: &F) -> (r: Result<QueryResult, Error>)
    requires
        is_arith(*fpu),
        table_ok(*catalog, "customer"@, 2),
        table_ok(*catalog, "orders"@, 5),
        table_ok(*catalog, "lineitem"@, 5),
    ensures
        q18_result(*fpu, *catalog, r),
{
    let customer: &Table = match need(catalog, "customer") {
        Ok(t) => t,
        Err(e) => {
            return Err(e);
        },
    };
    let orders: &Table = match need(catalog, "orders") {
        Ok(t) => t,
        Err(e) => {
            return Err(e);
        },
    };
    let lineitem: &Table = match need(catalog, "lineitem") {
        Ok(t) => t,
        Err(e) => {
            return Err(e);
        },
    };
    q18_answer(customer, orders, lineitem, fpu)
}

/// Evaluates the query on its tables.
pub fn q18_answer<F: Fn(FloatOp, u64, u64) -> u64>(
    customer: &Table,
    orders: &Table,
    lineitem: &Table,
    fpu: &F,
) -> (r: Result<QueryResult, Error>)
    requires
        is_arith(*fpu),
        has_columns(*customer, 2),
        has_columns(*orders, 5),
        has_columns(*lineitem, 5),
    ensures
        q18_outcome(*fpu, *customer, *orders, *lineitem, r),
{
    let mut lines: Vec<Term> = Vec::new();
    let n: usize = lineitem.row_count;
    let mut run: u64 = 0;
    let mut i: usize = 0;
    while i < n
        invariant
            is_arith(*fpu),
            has_columns(*lineitem, 5),
            n == lineitem.row_count,
            i <= n,
            i > 0 ==> run == run_sum(*fpu, col(*lineitem, 0), col(*lineitem, 4), i - 1),
            lines.len() == i,
            forall|k: int| 0 <= k < i ==> #[trigger] lines@[k] == q18_line(*fpu, *lineitem, k),
        decreases n - i,
    {
        let key: u64 = lineitem.columns[0][i];
        let quantity: u64 = lineitem.columns[4][i];
        if i == 0 || i % BLOCK == 0 || lineitem.columns[0][i - 1] != key {
            run = quantity;
        } else {
            run = fpu(FloatOp::Add, run, quantity);
        }
        let last: bool = i + 1 >= n || (i + 1) % BLOCK == 0 || lineitem.columns[0][i + 1] != key;
        if key != 0xFFFF_FFFF_FFFF_FFFF && last {
            lines.push(Some(((key, 0, 0), run)));
        } else {
            lines.push(None);
        }
        i = i + 1;
    }
    proof {
        assert(lines@ =~= q18_lines(*fpu, *lineitem));
    }
    let (groups, sums): (GroupIndex, Vec<u64>) = index_sums(&lines, fpu);
    let mut quantities: Vec<u64> = Vec::new();
    let mut marks: Vec<bool> = Vec::new();
    let mut j: usize = 0;
    while j < orders.row_count
        invariant
            has_columns(*orders, 5),
            groups.wf(),
            sums.len() == groups@.len(),
            lines@ == q18_lines(*fpu, *lineitem),
            forall|k: Key| #[trigger] groups@.contains(k) <==> group_sum(*fpu, lines@, k) is Some,
            forall|g: int| 0 <= g < groups@.len() ==> group_sum(*fpu, lines@, #[trigger] groups@[g]) == Some(sums@[g]),
            j <= orders.row_count,
            quantities.len() == j,
            marks.len() == j,
            forall|k: int| 0 <= k < j ==> #[trigger] quantities@[k] == q18_quantities(*fpu, *orders, *lineitem)[k],
            forall|k: int| 0 <= k < j ==> #[trigger] marks@[k] == float_lt(GREAT_QUANTITY, quantities@[k]),
        decreases orders.row_count - j,
    {
        let quantity: u64 = match sum_at(&groups, &sums, (orders.columns[0][j], 0, 0), fpu, Ghost(lines@)) {
            Some(q) => q,
            None => 0,
        };
        quantities.push(quantity);
        marks.push(less(GREAT_QUANTITY, quantity));
        j = j + 1;
    }
    proof {
        assert(quantities@ =~= q18_quantities(*fpu, *orders, *lineitem));
        assert(marks@ =~= great_orders(quantities@));
    }
    let listed: Vec<usize> = list_marked(&marks);
    let which: Vec<u64> = take_rows(&orders.columns[0], &listed);
    let who: Vec<u64> = take_rows(&orders.columns[1], &listed);
    let prices: Vec<u64> = take_rows(&orders.columns[3], &listed);
    let dates: Vec<u64> = take_rows(&orders.columns[4], &listed);
    let amounts: Vec<u64> = take_rows(&quantities, &listed);
    let customers: RowIndex = RowIndex::build(&customer.columns[0], &mark_all(customer.row_count));
    let names: Vec<u64> = look_up(&customers, &customer.columns[1], &who, 0);
    let mut keys: Vec<Vec<u64>> = Vec::new();
    let mut g: usize = 0;
    while g < prices.len()
        invariant
            dates.len() == prices.len(),
            g <= prices.len(),
            keys.len() == g,
            forall|k: int| 0 <= k < g ==> (#[trigger] keys@[k])@ == q18_order_keys(prices@, dates@)[k],
        decreases prices.len() - g,
    {
        let mut key: Vec<u64> = Vec::new();
        key.push(reversed(sort_rank(prices[g])));
        key.push(dates[g]);
        proof {
            assert(key@ =~= q18_order_keys(prices@, dates@)[g as int]);
        }
        keys.push(key);
        g = g + 1;
    }
    proof {
        assert(key_rows(keys@) =~= q18_order_keys(prices@, dates@));
    }
    let order: Vec<usize> = stable_order(&keys);
    proof {
        lemma_order_bounds(key_rows(keys@), order@);
    }
    let rows: usize = if order.len() < Q18_LIMIT {
        order.len()
    } else {
        Q18_LIMIT
    };
    let mut columns: Vec<ResultColumn> = Vec::new();
    columns.push(column("c_name", pick(&names, &order, rows)));
    columns.push(column("c_custkey", pick(&who, &order, rows)));
    columns.push(column("o_orderkey", pick(&which, &order, rows)));
    columns.push(column("o_orderdate", pick(&dates, &order, rows)));
    columns.push(column("o_totalprice", pick(&prices, &order, rows)));
    columns.push(column("sum", pick(&amounts, &order, rows)));
    proof {
        assert(columns@.map_values(|c: ResultColumn| column_view(c)) =~= seq![
            ("c_name"@, picked(names@, order@, rows as int)),
            ("c_custkey"@, picked(who@, order@, rows as int)),
            ("o_orderkey"@, picked(which@, order@, rows as int)),
            ("o_orderdate"@, picked(dates@, order@, rows as int)),
            ("o_totalprice"@, picked(prices@, order@, rows as int)),
            ("sum"@, picked(amounts@, order@, rows as int)),
        ]);
    }
    result(columns, rows)
}

} // verus!
