//! Shipping volume between two nations, by direction and year.

use crate::dates::{date_cell, date_to_days, year_cell, year_of_day};
use crate::error::Error;
use crate::float_bits::{discount_price, discounted, is_arith, FloatOp};
use crate::group_index::{row_of_key, Key, RowIndex};
use crate::hashing::{hash_text, text_hash};
use crate::order::{is_stable_order, key_rows, stable_order};
use crate::table::{column_view, Catalog, QueryResult, ResultColumn, Table};
use crate::tpch::sums::{
    first_words, group_keys, second_words, split_keys, sum_groups, sums_of, third_words, Term,
};
use crate::tpch::support::{
    all_marked, answers, col, column, found, has_columns, has_part, lemma_order_bounds, mark_all, missing, need,
    no_table_text, not_found, pick, picked, result, table_of, table_ok, text_has,
};
use vstd::prelude::*;

verus! {

/// Whether a query text is this query.
pub open spec fn q7_text(sql: Seq<char>) -> bool {
    has_part(sql, "supp_nation"@) && has_part(sql, "cust_nation"@) && has_part(sql, "l_year"@) && has_part(sql, "FRANCE"@) && has_part(sql, "GERMANY"@)
}

pub fn is_q7(sql: &str) -> (b: bool)
    ensures
        b == q7_text(sql@),
{
    text_has(sql, "supp_nation") && text_has(sql, "cust_nation") && text_has(sql, "l_year") && text_has(sql, "FRANCE") && text_has(sql, "GERMANY")
}

/// The key of a nation by the hash of its name: the last one of that name. The
/// second nation is looked for only in rows that do not name the first.
pub open spec fn last_named(names: Seq<u64>, keys: Seq<u64>, n: int, name: u64, other: u64) -> u64
    decreases n,
{
    if n <= 0 {
        u64::MAX
    } else if names[n - 1] == name && names[n - 1] != other {
        keys[n - 1]
    } else {
        last_named(names, keys, n - 1, name, other)
    }
}

/// The key of the first of the two nations.
pub open spec fn last_first_named(names: Seq<u64>, keys: Seq<u64>, n: int, name: u64) -> u64
    decreases n,
{
    if n <= 0 {
        u64::MAX
    } else if names[n - 1] == name {
        keys[n - 1]
    } else {
        last_first_named(names, keys, n - 1, name)
    }
}

/// The two nations: the hashes of their names and their keys.
pub struct NationPair {
    pub france: u64,
    pub germany: u64,
    pub france_key: u64,
    pub germany_key: u64,
}

/// The two nations as the nation table has them.
pub open spec fn nation_pair(nation: Table) -> NationPair {
    let france = text_hash("FRANCE"@);
    let germany = text_hash("GERMANY"@);
    NationPair {
        france,
        germany,
        france_key: last_first_named(col(nation, 1), col(nation, 0), nation.row_count as int, france),
        germany_key: last_named(col(nation, 1), col(nation, 0), nation.row_count as int, germany, france),
    }
}

/// Marks of the suppliers or customers of either nation.
pub open spec fn of_pair(party: Table, p: NationPair) -> Seq<bool> {
    Seq::new(
        party.row_count as nat,
        |i: int| col(party, 3)[i] == p.france_key || col(party, 3)[i] == p.germany_key,
    )
}

/// The hash of the name of the nation of a supplier or customer; zero where it
/// is neither.
pub open spec fn party_nation(party: Table, p: NationPair, key: u64) -> u64 {
    match row_of_key(col(party, 0), of_pair(party, p), key) {
        Some(r) => if col(party, 3)[r as int] == p.france_key {
            p.france
        } else {
            p.germany
        },
        None => 0,
    }
}

/// The customer of an order; zero where there is no such order.
pub open spec fn order_customer(orders: Table, key: u64) -> u64 {
    match row_of_key(col(orders, 0), all_marked(orders.row_count as nat), key) {
        Some(r) => col(orders, 1)[r as int],
        None => 0,
    }
}

/// What a line adds to the volume between two nations in a year.
pub open spec fn q7_line<F: Fn(FloatOp, u64, u64) -> u64>(
    f: F,
    supplier: Table,
    lineitem: Table,
    orders: Table,
    customer: Table,
    p: NationPair,
    i: int,
) -> Term {
    let day = col(lineitem, 10)[i];
    let seller = party_nation(supplier, p, col(lineitem, 2)[i]);
    let buyer = party_nation(customer, p, order_customer(orders, col(lineitem, 0)[i]));
    if date_cell(1995, 1, 1) <= day <= date_cell(1996, 12, 31) && seller != 0 && buyer != 0 && buyer != seller {
        Some(((seller, buyer, year_cell(day)), discounted(f, col(lineitem, 5)[i], col(lineitem, 6)[i])))
    } else {
        None
    }
}

/// The lines.
pub open spec fn q7_lines<F: Fn(FloatOp, u64, u64) -> u64>(
    f: F,
    supplier: Table,
    lineitem: Table,
    orders: Table,
    customer: Table,
    p: NationPair,
) -> Seq<Term> {
    Seq::new(lineitem.row_count as nat, |i: int| q7_line(f, supplier, lineitem, orders, customer, p, i))
}

/// The place of a nation by name: the first of the two, then the other.
pub open spec fn name_place(hash: u64, p: NationPair) -> u64 {
    if hash == p.france {
        0
    } else {
        1
    }
}

/// Sorting by seller, buyer and year.
pub open spec fn q7_order_keys(groups: Seq<Key>, p: NationPair) -> Seq<Seq<u64>> {
    Seq::new(
        groups.len(),
        |g: int| seq![name_place(groups[g].0, p), name_place(groups[g].1, p), groups[g].2],
    )
}

/// The answer.
pub open spec fn q7_outcome<F: Fn(FloatOp, u64, u64) -> u64>(
    f: F,
    supplier: Table,
    lineitem: Table,
    orders: Table,
    customer: Table,
    nation: Table,
    r: Result<QueryResult, Error>,
) -> bool {
    let p = nation_pair(nation);
    if p.france_key == u64::MAX || p.germany_key == u64::MAX {
        not_found(r, "FRANCE or GERMANY nation not found in nation table"@)
    } else {
        let lines = q7_lines(f, supplier, lineitem, orders, customer, p);
        let groups = group_keys(lines);
        let n = groups.len() as int;
        exists|order: Seq<usize>| #[trigger]
            is_stable_order(q7_order_keys(groups, p), order) && answers(
                r,
                seq![
                    ("supp_nation"@, picked(first_words(groups), order, n)),
                    ("cust_nation"@, picked(second_words(groups), order, n)),
                    ("l_year"@, picked(third_words(groups), order, n)),
                    ("revenue"@, picked(sums_of(f, lines, groups), order, n)),
                ],
                n,
            )
    }
}

fn mark_pair(party: &Table, france_key: u64, germany_key: u64) -> (m: Vec<bool>)
    requires
        has_columns(*party, 4),
    ensures
        m.len() == party.row_count,
        forall|i: int|
            0 <= i < m.len() ==> #[trigger] m@[i] == (col(*party, 3)[i] == france_key || col(*party, 3)[i]
                == germany_key),
{
    let mut m: Vec<bool> = Vec::new();
    let mut i: usize = 0;
    while i < party.row_count
        invariant
            has_columns(*party, 4),
            i <= party.row_count,
            m.len() == i,
            forall|k: int|
                0 <= k < i ==> #[trigger] m@[k] == (col(*party, 3)[k] == france_key || col(*party, 3)[k]
                    == germany_key),
        decreases party.row_count - i,
    {
        let k: u64 = party.columns[3][i];
        m.push(k == france_key || k == germany_key);
        i = i + 1;
    }
    m
}

/// What the query comes to on the tables of a catalog.
pub open spec fn q7_result<F: Fn(FloatOp, u64, u64) -> u64>(f: F, catalog: Catalog, r: Result<QueryResult, Error>) -> bool {
    if !found(catalog, "supplier"@) {
        not_found(r, no_table_text("supplier"@))
    } else if !found(catalog, "lineitem"@) {
        not_found(r, no_table_text("lineitem"@))
    } else if !found(catalog, "orders"@) {
        not_found(r, no_table_text("orders"@))
    } else if !found(catalog, "customer"@) {
        not_found(r, no_table_text("customer"@))
    } else if !found(catalog, "nation"@) {
        not_found(r, no_table_text("nation"@))
    } else {
        q7_outcome(
            f,
            table_of(catalog, "supplier"@),
            table_of(catalog, "lineitem"@),
            table_of(catalog, "orders"@),
            table_of(catalog, "customer"@),
            table_of(catalog, "nation"@),
            r,
        )
    }
}

/// Evaluates the query.
pub fn execute_q7_reformulated<F: Fn(FloatOp, u64, u64) -> u64>(catalog: &Catalog, fpu: &F) -> (r: Result<QueryResult, Error>)
    requires
        is_arith(*fpu),
        table_ok(*catalog, "supplier"@, 4),
        table_ok(*catalog, "lineitem"@, 11),
        table_ok(*catalog, "orders"@, 2),
        table_ok(*catalog, "customer"@, 4),
        table_ok(*catalog, "nation"@, 2),
    ensures
        q7_result(*fpu, *catalog, r),
{
    let supplier: &Table = match need(catalog, "supplier") {
        Ok(t) => t,
        Err(e) => {
            return Err(e);
        },
    };
    let lineitem: &Table = match need(catalog, "lineitem") {
        Ok(t) => t,
        Err(e) => {
            return Err(e);
        },
    };
    let orders: &Table = match need(catalog, "orders") {
        Ok(t) => t,
        Err(e) => {
            return Err(e);
        },
    };
    let customer: &Table = match need(catalog, "customer") {
        Ok(t) => t,
        Err(e) => {
            return Err(e);
        },
    };
    let nation: &Table = match need(catalog, "nation") {
        Ok(t) => t,
        Err(e) => {
            return Err(e);
        },
    };
    q7_answer(supplier, lineitem, orders, customer, nation, fpu)
}

/// Evaluates the query on its tables.
pub fn q7_answer<F: Fn(FloatOp, u64, u64) -> u64>(
    supplier: &Table,
    lineitem: &Table,
    orders: &Table,
    customer: &Table,
    nation: &Table,
    fpu: &F,
) -> (r: Result<QueryResult, Error>)
    requires
        is_arith(*fpu),
        has_columns(*supplier, 4),
        has_columns(*lineitem, 11),
        has_columns(*orders, 2),
        has_columns(*customer, 4),
        has_columns(*nation, 2),
    ensures
        q7_outcome(*fpu, *supplier, *lineitem, *orders, *customer, *nation, r),
{
    let france: u64 = hash_text("FRANCE");
    let germany: u64 = hash_text("GERMANY");
    let mut france_key: u64 = 0xFFFF_FFFF_FFFF_FFFF;
    let mut germany_key: u64 = 0xFFFF_FFFF_FFFF_FFFF;
    let mut j: usize = 0;
    while j < nation.row_count
        invariant
            has_columns(*nation, 2),
            j <= nation.row_count,
            france_key == last_first_named(col(*nation, 1), col(*nation, 0), j as int, france),
            germany_key == last_named(col(*nation, 1), col(*nation, 0), j as int, germany, france),
        decreases nation.row_count - j,
    {
        let name: u64 = nation.columns[1][j];
        if name == france {
            france_key = nation.columns[0][j];
        } else if name == germany {
            germany_key = nation.columns[0][j];
        }
        j = j + 1;
    }
    if france_key == 0xFFFF_FFFF_FFFF_FFFF || germany_key == 0xFFFF_FFFF_FFFF_FFFF {
        return Err(missing("FRANCE or GERMANY nation not found in nation table"));
    }
    let ghost p = nation_pair(*nation);
    let supplier_marks: Vec<bool> = mark_pair(supplier, france_key, germany_key);
    let customer_marks: Vec<bool> = mark_pair(customer, france_key, germany_key);
    proof {
        assert(supplier_marks@ =~= of_pair(*supplier, p));
        assert(customer_marks@ =~= of_pair(*customer, p));
    }
    let suppliers: RowIndex = RowIndex::build(&supplier.columns[0], &supplier_marks);
    let customers: RowIndex = RowIndex::build(&customer.columns[0], &customer_marks);
    let all_orders: RowIndex = RowIndex::build(&orders.columns[0], &mark_all(orders.row_count));
    let first_day: u64 = date_to_days(1995, 1, 1);
    let last_day: u64 = date_to_days(1996, 12, 31);
    let mut lines: Vec<Term> = Vec::new();
    let n: usize = lineitem.row_count;
    let mut i: usize = 0;
    while i < n
        invariant
            is_arith(*fpu),
            has_columns(*supplier, 4),
            has_columns(*customer, 4),
            has_columns(*orders, 2),
            has_columns(*lineitem, 11),
            n == lineitem.row_count,
            i <= n,
            p == (NationPair { france, germany, france_key, germany_key }),
            suppliers.wf(),
            suppliers.keys() == col(*supplier, 0),
            suppliers.marks() == of_pair(*supplier, p),
            customers.wf(),
            customers.keys() == col(*customer, 0),
            customers.marks() == of_pair(*customer, p),
            all_orders.wf(),
            all_orders.keys() == col(*orders, 0),
            all_orders.marks() == all_marked(orders.row_count as nat),
            first_day == date_cell(1995, 1, 1),
            last_day == date_cell(1996, 12, 31),
            lines.len() == i,
            forall|k: int|
                0 <= k < i ==> #[trigger] lines@[k] == q7_line(*fpu, *supplier, *lineitem, *orders, *customer, p, k),
        decreases n - i,
    {
        let day: u64 = lineitem.columns[10][i];
        let seller: u64 = match suppliers.find(lineitem.columns[2][i]) {
            Some(s) => if supplier.columns[3][s] == france_key {
                france
            } else {
                germany
            },
            None => 0,
        };
        let buyer_key: u64 = match all_orders.find(lineitem.columns[0][i]) {
            Some(o) => orders.columns[1][o],
            None => 0,
        };
        let buyer: u64 = match customers.find(buyer_key) {
            Some(c) => if customer.columns[3][c] == france_key {
                france
            } else {
                germany
            },
            None => 0,
        };
        let line: Term = if first_day <= day && day <= last_day && seller != 0 && buyer != 0 && buyer != seller {
            Some(
                (
                    (seller, buyer, year_of_day(day)),
                    discount_price(fpu, lineitem.columns[5][i], lineitem.columns[6][i]),
                ),
            )
        } else {
            None
        };
        lines.push(line);
        i = i + 1;
    }
    proof {
        assert(lines@ =~= q7_lines(*fpu, *supplier, *lineitem, *orders, *customer, p));
    }
    let (groups, sums): (Vec<Key>, Vec<u64>) = sum_groups(&lines, fpu);
    proof {
        assert(sums@ =~= sums_of(*fpu, lines@, groups@));
    }
    let (sellers, buyers, years): (Vec<u64>, Vec<u64>, Vec<u64>) = split_keys(&groups);
    let mut keys: Vec<Vec<u64>> = Vec::new();
    let mut g: usize = 0;
    while g < groups.len()
        invariant
            g <= groups.len(),
            keys.len() == g,
            p.france == france,
            forall|k: int|
                0 <= k < g ==> (#[trigger] keys@[k])@ == seq![
                    name_place(groups@[k].0, p),
                    name_place(groups@[k].1, p),
                    groups@[k].2,
                ],
        decreases groups.len() - g,
    {
        let mut key: Vec<u64> = Vec::new();
        key.push(if groups[g].0 == france { 0 } else { 1 });
        key.push(if groups[g].1 == france { 0 } else { 1 });
        key.push(groups[g].2);
        proof {
            assert(key@ =~= seq![
                name_place(groups@[g as int].0, p),
                name_place(groups@[g as int].1, p),
                groups@[g as int].2,
            ]);
        }
        keys.push(key);
        g = g + 1;
    }
    proof {
        assert(key_rows(keys@) =~= q7_order_keys(groups@, p));
    }
    let order: Vec<usize> = stable_order(&keys);
    proof {
        lemma_order_bounds(key_rows(keys@), order@);
    }
    let rows: usize = order.len();
    let mut columns: Vec<ResultColumn> = Vec::new();
    columns.push(column("supp_nation", pick(&sellers, &order, rows)));
    columns.push(column("cust_nation", pick(&buyers, &order, rows)));
    columns.push(column("l_year", pick(&years, &order, rows)));
    columns.push(column("revenue", pick(&sums, &order, rows)));
    proof {
        assert(columns@.map_values(|c: ResultColumn| column_view(c)) =~= seq![
            ("supp_nation"@, picked(sellers@, order@, rows as int)),
            ("cust_nation"@, picked(buyers@, order@, rows as int)),
            ("l_year"@, picked(years@, order@, rows as int)),
            ("revenue"@, picked(sums@, order@, rows as int)),
        ]);
    }
    result(columns, rows)
}

/// A line is never counted in both directions: its seller and buyer are of
/// different nations, and each is one of the two.
pub proof fn lines_go_one_way<F: Fn(FloatOp, u64, u64) -> u64>(
    f: F,
    supplier: Table,
    lineitem: Table,
    orders: Table,
    customer: Table,
    p: NationPair,
    i: int,
)
    ensures
        q7_line(f, supplier, lineitem, orders, customer, p, i) matches Some((k, _)) ==> k.0 != k.1 && (k.0 == p.france
            || k.0 == p.germany) && (k.1 == p.france || k.1 == p.germany),
{
}

} // verus!
