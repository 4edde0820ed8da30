//! The share of one nation's suppliers in the trade of a region with one kind of
//! part, for two years.

use crate::dates::{date_cell, date_to_days};
use crate::error::Error;
use crate::float_bits::{arith, float_lt, is_arith, less, FloatOp};
use crate::group_index::{row_of_key, RowIndex};
use crate::hashing::{hash_text, text_hash};
use crate::table::{column_view, Catalog, QueryResult, ResultColumn, Table};
use crate::tpch::sums::{slot_key, slot_sum, sum_slots, Term, BLOCK};
use crate::tpch::support::{
    answers, col, column, find_key, first_key, found, has_columns, has_part, is_known, mark_equal, marks_equal, missing,
    need, no_table_text, not_found, result, table_of, table_ok, text_has,
};
use vstd::prelude::*;

verus! {

/// Whether a query text is this query.
pub open spec fn q8_text(sql: Seq<char>) -> bool {
    has_part(sql, "mkt_share"@) && has_part(sql, "ECONOMY ANODIZED STEEL"@) && has_part(sql, "r_name = 'AMERICA'"@) && has_part(sql, "BRAZIL"@)
}

pub fn is_q8(sql: &str) -> (b: bool)
    ensures
        b == q8_text(sql@),
{
    text_has(sql, "mkt_share") && text_has(sql, "ECONOMY ANODIZED STEEL") && text_has(sql, "r_name = 'AMERICA'") && text_has(sql, "BRAZIL")
}

/// Whether a nation belongs to the region.
pub open spec fn in_region(nation: Table, region: u64, key: u64) -> bool {
    row_of_key(col(nation, 0), marks_equal(col(nation, 2), region), key) is Some
}

/// Marks of the customers of the region.
pub open spec fn region_customers(nation: Table, customer: Table, region: u64) -> Seq<bool> {
    Seq::new(customer.row_count as nat, |i: int| in_region(nation, region, col(customer, 3)[i]))
}

/// Marks of the orders of the two years that customers of the region placed.
pub open spec fn q8_orders(nation: Table, customer: Table, orders: Table, region: u64) -> Seq<bool> {
    Seq::new(
        orders.row_count as nat,
        |i: int|
            date_cell(1995, 1, 1) <= col(orders, 4)[i] <= date_cell(1996, 12, 31) && row_of_key(
                col(customer, 0),
                region_customers(nation, customer, region),
                col(orders, 1)[i],
            ) is Some,
    )
}

/// The year of an order: the first of the two or the second; nothing where the
/// order does not count.
pub open spec fn order_year(nation: Table, customer: Table, orders: Table, region: u64, key: u64) -> Option<u64> {
    match row_of_key(col(orders, 0), q8_orders(nation, customer, orders, region), key) {
        Some(o) => Some(
            if col(orders, 4)[o as int] < date_cell(1996, 1, 1) {
                0u64
            } else {
                1u64
            },
        ),
        None => None,
    }
}

/// What a line adds to the trade of a year.
pub open spec fn q8_line<F: Fn(FloatOp, u64, u64) -> u64>(
    f: F,
    nation: Table,
    part: Table,
    customer: Table,
    orders: Table,
    lineitem: Table,
    region: u64,
    i: int,
) -> Term {
    match order_year(nation, customer, orders, region, col(lineitem, 0)[i]) {
        Some(y) => if row_of_key(
            col(part, 0),
            marks_equal(col(part, 4), text_hash("ECONOMY ANODIZED STEEL"@)),
            col(lineitem, 1)[i],
        ) is Some {
            Some((slot_key(y as int), arith(f, FloatOp::FusedDiscount, col(lineitem, 5)[i], col(lineitem, 6)[i])))
        } else {
            None
        },
        None => None,
    }
}

/// What a line adds to the trade of the nation's suppliers.
pub open spec fn q8_nation_line<F: Fn(FloatOp, u64, u64) -> u64>(
    f: F,
    nation: Table,
    part: Table,
    supplier: Table,
    customer: Table,
    orders: Table,
    lineitem: Table,
    region: u64,
    seller: u64,
    i: int,
) -> Term {
    if row_of_key(col(supplier, 0), marks_equal(col(supplier, 3), seller), col(lineitem, 2)[i]) is Some {
        q8_line(f, nation, part, customer, orders, lineitem, region, i)
    } else {
        None
    }
}

pub open spec fn q8_lines<F: Fn(FloatOp, u64, u64) -> u64>(
    f: F,
    nation: Table,
    part: Table,
    customer: Table,
    orders: Table,
    lineitem: Table,
    region: u64,
) -> Seq<Term> {
    Seq::new(
        lineitem.row_count as nat,
        |i: int| q8_line(f, nation, part, customer, orders, lineitem, region, i),
    )
}

pub open spec fn q8_nation_lines<F: Fn(FloatOp, u64, u64) -> u64>(
    f: F,
    nation: Table,
    part: Table,
    supplier: Table,
    customer: Table,
    orders: Table,
    lineitem: Table,
    region: u64,
    seller: u64,
) -> Seq<Term> {
    Seq::new(
        lineitem.row_count as nat,
        |i: int| q8_nation_line(f, nation, part, supplier, customer, orders, lineitem, region, seller, i),
    )
}

/// A share of a total; zero where the total is not positive.
pub open spec fn share<F: Fn(FloatOp, u64, u64) -> u64>(f: F, some: u64, total: u64) -> u64 {
    if float_lt(0, total) {
        arith(f, FloatOp::Div, some, total)
    } else {
        0
    }
}

/// The share of the nation in a year.
pub open spec fn year_share<F: Fn(FloatOp, u64, u64) -> u64>(f: F, some: Seq<Term>, all: Seq<Term>, y: int) -> u64 {
    share(f, slot_sum(f, some, y, BLOCK as int), slot_sum(f, all, y, BLOCK as int))
}

/// The answer.
pub open spec fn q8_outcome<F: Fn(FloatOp, u64, u64) -> u64>(
    f: F,
    region: Table,
    nation: Table,
    part: Table,
    supplier: Table,
    customer: Table,
    orders: Table,
    lineitem: Table,
    r: Result<QueryResult, Error>,
) -> bool {
    let america = first_key(col(region, 1), col(region, 0), region.row_count as int, text_hash("AMERICA"@));
    let brazil = first_key(col(nation, 1), col(nation, 0), nation.row_count as int, text_hash("BRAZIL"@));
    if !is_known(america) {
        not_found(r, "AMERICA region not found"@)
    } else if !is_known(brazil) {
        not_found(r, "BRAZIL nation not found"@)
    } else {
        let all = q8_lines(f, nation, part, customer, orders, lineitem, america->0);
        let some = q8_nation_lines(
            f,
            nation,
            part,
            supplier,
            customer,
            orders,
            lineitem,
            america->0,
            brazil->0,
        );
        answers(
            r,
            seq![
                ("o_year"@, seq![1995u64, 1996u64]),
                ("mkt_share"@, seq![year_share(f, some, all, 0), year_share(f, some, all, 1)]),
            ],
            2,
        )
    }
}

/// A key that was found, if it is not the one that stands for none.
fn known(key: Option<u64>) -> (k: Option<u64>)
    ensures
        k is Some <==> is_known(key),
        k is Some ==> k == key,
{
    match key {
        Some(v) => if v == 0xFFFF_FFFF_FFFF_FFFF {
            None
        } else {
            Some(v)
        },
        None => None,
    }
}

fn share_of<F: Fn(FloatOp, u64, u64) -> u64>(some: u64, total: u64, fpu: &F) -> (s: u64)
    requires
        is_arith(*fpu),
    ensures
        s == share(*fpu, some, total),
{
    if less(0, total) {
        fpu(FloatOp::Div, some, total)
    } else {
        0
    }
}

fn mark_region_customers(nations: &RowIndex, nation: &Table, customer: &Table, Ghost(region): Ghost<u64>) -> (m: Vec<bool>)
    requires
        has_columns(*nation, 3),
        has_columns(*customer, 4),
        nations.wf(),
        nations.keys() == col(*nation, 0),
        nations.marks() == marks_equal(col(*nation, 2), region),
    ensures
        m@ == region_customers(*nation, *customer, region),
{
    let mut m: Vec<bool> = Vec::new();
    let mut i: usize = 0;
    while i < customer.row_count
        invariant
            has_columns(*customer, 4),
            nations.wf(),
            nations.keys() == col(*nation, 0),
            nations.marks() == marks_equal(col(*nation, 2), region),
            i <= customer.row_count,
            m.len() == i,
            forall|k: int| 0 <= k < i ==> #[trigger] m@[k] == in_region(*nation, region, col(*customer, 3)[k]),
        decreases customer.row_count - i,
    {
        m.push(nations.holds(customer.columns[3][i]));
        i = i + 1;
    }
    proof {
        assert(m@ =~= region_customers(*nation, *customer, region));
    }
    m
}

fn mark_orders(customers: &RowIndex, nation: &Table, customer: &Table, orders: &Table, Ghost(region): Ghost<u64>) -> (m: Vec<bool>)
    requires
        has_columns(*customer, 4),
        has_columns(*orders, 5),
        customers.wf(),
        customers.keys() == col(*customer, 0),
        customers.marks() == region_customers(*nation, *customer, region),
    ensures
        m@ == q8_orders(*nation, *customer, *orders, region),
{
    let first_day: u64 = date_to_days(1995, 1, 1);
    let last_day: u64 = date_to_days(1996, 12, 31);
    let mut m: Vec<bool> = Vec::new();
    let mut i: usize = 0;
    while i < orders.row_count
        invariant
            has_columns(*orders, 5),
            customers.wf(),
            customers.keys() == col(*customer, 0),
            customers.marks() == region_customers(*nation, *customer, region),
            first_day == date_cell(1995, 1, 1),
            last_day == date_cell(1996, 12, 31),
            i <= orders.row_count,
            m.len() == i,
            forall|k: int| 0 <= k < i ==> #[trigger] m@[k] == q8_orders(*nation, *customer, *orders, region)[k],
        decreases orders.row_count - i,
    {
        let day: u64 = orders.columns[4][i];
        let counts: bool = first_day <= day && day <= last_day && customers.holds(orders.columns[1][i]);
        m.push(counts);
        i = i + 1;
    }
    proof {
        assert(m@ =~= q8_orders(*nation, *customer, *orders, region));
    }
    m
}

/// What the query comes to on the tables of a catalog.
pub open spec fn q8_result<F: Fn(FloatOp, u64, u64) -> u64>(f: F, catalog: Catalog, r: Result<QueryResult, Error>) -> bool {
    if !found(catalog, "region"@) {
        not_found(r, no_table_text("region"@))
    } else if !found(catalog, "nation"@) {
        not_found(r, no_table_text("nation"@))
    } else if !found(catalog, "part"@) {
        not_found(r, no_table_text("part"@))
    } else if !found(catalog, "supplier"@) {
        not_found(r, no_table_text("supplier"@))
    } else if !found(catalog, "customer"@) {
        not_found(r, no_table_text("customer"@))
    } else if !found(catalog, "orders"@) {
        not_found(r, no_table_text("orders"@))
    } else if !found(catalog, "lineitem"@) {
        not_found(r, no_table_text("lineitem"@))
    } else {
        q8_outcome(
            f,
            table_of(catalog, "region"@),
            table_of(catalog, "nation"@),
            table_of(catalog, "part"@),
            table_of(catalog, "supplier"@),
            table_of(catalog, "customer"@),
            table_of(catalog, "orders"@),
            table_of(catalog, "lineitem"@),
            r,
        )
    }
}

/// Evaluates the query.
pub fn execute_q8_reformulated<F: Fn(FloatOp, u64, u64) -> u64>(catalog: &Catalog, fpu: &F) -> (r: Result<QueryResult, Error>)
    requires
        is_arith(*fpu),
        table_ok(*catalog, "region"@, 2),
        table_ok(*catalog, "nation"@, 3),
        table_ok(*catalog, "part"@, 5),
        table_ok(*catalog, "supplier"@, 4),
        table_ok(*catalog, "customer"@, 4),
        table_ok(*catalog, "orders"@, 5),
        table_ok(*catalog, "lineitem"@, 7),
    ensures
        q8_result(*fpu, *catalog, r),
{
    let region: &Table = match need(catalog, "region") {
        Ok(t) => t,
        Err(e) => {
            return Err(e);
        },
    };
    let nation: &Table = match need(catalog, "nation") {
        Ok(t) => t,
        Err(e) => {
            return Err(e);
        },
    };
    let part: &Table = match need(catalog, "part") {
        Ok(t) => t,
        Err(e) => {
            return Err(e);
        },
    };
    let supplier: &Table = match need(catalog, "supplier") {
        Ok(t) => t,
        Err(e) => {
            return Err(e);
        },
    };
    let customer: &Table = match need(catalog, "customer") {
        Ok(t) => t,
        Err(e) => {
            return Err(e);
        },
    };
    let orders: &Table = match need(catalog, "orders") {
        Ok(t) => t,
        Err(e) => {
            return Err(e);
        },
    };
    let lineitem: &Table = match need(catalog, "lineitem") {
        Ok(t) => t,
        Err(e) => {
            return Err(e);
        },
    };
    q8_answer(region, nation, part, supplier, customer, orders, lineitem, fpu)
}

/// Evaluates the query on its tables.
pub fn q8_answer<F: Fn(FloatOp, u64, u64) -> u64>(
    region: &Table,
    nation: &Table,
    part: &Table,
    supplier: &Table,
    customer: &Table,
    orders: &Table,
    lineitem: &Table,
    fpu: &F,
) -> (r: Result<QueryResult, Error>)
    requires
        is_arith(*fpu),
        has_columns(*region, 2),
        has_columns(*nation, 3),
        has_columns(*part, 5),
        has_columns(*supplier, 4),
        has_columns(*customer, 4),
        has_columns(*orders, 5),
        has_columns(*lineitem, 7),
    ensures
        q8_outcome(*fpu, *region, *nation, *part, *supplier, *customer, *orders, *lineitem, r),
{
    let america: u64 = match known(find_key(&region.columns[1], &region.columns[0], hash_text("AMERICA"))) {
        Some(k) => k,
        None => {
            return Err(missing("AMERICA region not found"));
        },
    };
    let brazil: u64 = match known(find_key(&nation.columns[1], &nation.columns[0], hash_text("BRAZIL"))) {
        Some(k) => k,
        None => {
            return Err(missing("BRAZIL nation not found"));
        },
    };
    let nations: RowIndex = RowIndex::build(&nation.columns[0], &mark_equal(&nation.columns[2], america));
    let customer_marks: Vec<bool> = mark_region_customers(&nations, nation, customer, Ghost(america));
    let customers: RowIndex = RowIndex::build(&customer.columns[0], &customer_marks);
    let order_marks: Vec<bool> = mark_orders(&customers, nation, customer, orders, Ghost(america));
    let trade: RowIndex = RowIndex::build(&orders.columns[0], &order_marks);
    let parts: RowIndex = RowIndex::build(
        &part.columns[0],
        &mark_equal(&part.columns[4], hash_text("ECONOMY ANODIZED STEEL")),
    );
    let sellers: RowIndex = RowIndex::build(&supplier.columns[0], &mark_equal(&supplier.columns[3], brazil));
    let second_year: u64 = date_to_days(1996, 1, 1);
    let mut all: Vec<Term> = Vec::new();
    let mut some: Vec<Term> = Vec::new();
    let n: usize = lineitem.row_count;
    let mut i: usize = 0;
    while i < n
        invariant
            is_arith(*fpu),
            has_columns(*orders, 5),
            has_columns(*lineitem, 7),
            n == lineitem.row_count,
            i <= n,
            second_year == date_cell(1996, 1, 1),
            trade.wf(),
            trade.keys() == col(*orders, 0),
            trade.marks() == q8_orders(*nation, *customer, *orders, america),
            parts.wf(),
            parts.keys() == col(*part, 0),
            parts.marks() == marks_equal(col(*part, 4), text_hash("ECONOMY ANODIZED STEEL"@)),
            sellers.wf(),
            sellers.keys() == col(*supplier, 0),
            sellers.marks() == marks_equal(col(*supplier, 3), brazil),
            all.len() == i,
            some.len() == i,
            forall|k: int|
                0 <= k < i ==> #[trigger] all@[k] == q8_line(
                    *fpu,
                    *nation,
                    *part,
                    *customer,
                    *orders,
                    *lineitem,
                    america,
                    k,
                ),
            forall|k: int|
                0 <= k < i ==> #[trigger] some@[k] == q8_nation_line(
                    *fpu,
                    *nation,
                    *part,
                    *supplier,
                    *customer,
                    *orders,
                    *lineitem,
                    america,
                    brazil,
                    k,
                ),
        decreases n - i,
    {
        let line: Term = match trade.find(lineitem.columns[0][i]) {
            Some(o) => {
                let year: u64 = if orders.columns[4][o] < second_year {
                    0
                } else {
                    1
                };
                if parts.holds(lineitem.columns[1][i]) {
                    Some(
                        (
                            (year, 0, 0),
                            fpu(FloatOp::FusedDiscount, lineitem.columns[5][i], lineitem.columns[6][i]),
                        ),
                    )
                } else {
                    None
                }
            },
            None => None,
        };
        all.push(line);
        if sellers.holds(lineitem.columns[2][i]) {
            some.push(line);
        } else {
            some.push(None);
        }
        i = i + 1;
    }
    proof {
        assert(all@ =~= q8_lines(*fpu, *nation, *part, *customer, *orders, *lineitem, america));
        assert(some@ =~= q8_nation_lines(
            *fpu,
            *nation,
            *part,
            *supplier,
            *customer,
            *orders,
            *lineitem,
            america,
            brazil,
        ));
    }
    let totals: Vec<u64> = sum_slots(&all, 2, BLOCK, fpu);
    let parts_of: Vec<u64> = sum_slots(&some, 2, BLOCK, fpu);
    let mut years: Vec<u64> = Vec::new();
    years.push(1995);
    years.push(1996);
    let mut shares: Vec<u64> = Vec::new();
    shares.push(share_of(parts_of[0], totals[0], fpu));
    shares.push(share_of(parts_of[1], totals[1], fpu));
    proof {
        assert(years@ =~= seq![1995u64, 1996u64]);
        assert(shares@ =~= seq![year_share(*fpu, some@, all@, 0), year_share(*fpu, some@, all@, 1)]);
    }
    let mut columns: Vec<ResultColumn> = Vec::new();
    columns.push(column("o_year", years));
    columns.push(column("mkt_share", shares));
    proof {
        assert(columns@.map_values(|c: ResultColumn| column_view(c)) =~= seq![
            ("o_year"@, years@),
            ("mkt_share"@, shares@),
        ]);
    }
    result(columns, 2)
}

} // verus!
