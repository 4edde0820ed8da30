//! Suppliers of one nation with more than half a year's sales in stock of some
//! part of a family.

use crate::dates::{date_cell, date_to_days};
use crate::error::Error;
use crate::float_bits::{arith, float_lt, is_arith, less, FloatOp};
use crate::group_index::{row_of_key, GroupIndex, Key, RowIndex};
use crate::hashing::{hash_text, text_hash};
use crate::order::{is_stable_order, key_rows, stable_order};
use crate::table::{column_view, Catalog, QueryResult, ResultColumn, StringSearchColumn, Table};
use crate::tpch::sums::{group_sum, index_sums, sum_at, Term};
use crate::tpch::support::{
    answers, begins_with, cells_of_rows, col, column, find_key, first_key, found, has_columns, has_part, is_known,
    keys_least_first, least_first, lemma_order_bounds, list_marked, marked_rows, missing, need, no_table_text,
    not_found, pick, picked, result, string_at, table_of, table_ok, take_rows, text_begins_with, text_has,
};
use vstd::prelude::*;

verus! {

/// Whether a query text is this query.
pub open spec fn q20_text(sql: Seq<char>) -> bool {
    has_part(sql, "s_name, s_address"@) && has_part(sql, "forest%"@) && has_part(sql, "CANADA"@) && has_part(sql, "0.5 * sum(l_quantity)"@)
}

pub fn is_q20(sql: &str) -> (b: bool)
    ensures
        b == q20_text(sql@),
{
    text_has(sql, "s_name, s_address") && text_has(sql, "forest%") && text_has(sql, "CANADA") && text_has(sql, "0.5 * sum(l_quantity)")
}

/// The bit pattern of one half.
pub const HALF_BITS: u64 = 0x3FE0_0000_0000_0000;

/// Marks of the parts of the family.
pub open spec fn forest_parts(part: Table) -> Seq<bool> {
    Seq::new(part.row_count as nat, |i: int| begins_with(string_at(part, 1, i), "forest"@))
}

pub open spec fn is_forest(part: Table, key: u64) -> bool {
    row_of_key(col(part, 0), forest_parts(part), key) is Some
}

/// What a line of the year adds to the sales of a part by a supplier.
pub open spec fn q20_line(part: Table, lineitem: Table, i: int) -> Term {
    if date_cell(1994, 1, 1) <= col(lineitem, 10)[i] < date_cell(1995, 1, 1) && is_forest(part, col(lineitem, 1)[i]) {
        Some(((col(lineitem, 1)[i], col(lineitem, 2)[i], 0u64), col(lineitem, 4)[i]))
    } else {
        None
    }
}

pub open spec fn q20_lines(part: Table, lineitem: Table) -> Seq<Term> {
    Seq::new(lineitem.row_count as nat, |i: int| q20_line(part, lineitem, i))
}

/// The stock exceeds half of the sales. Without sales nothing is exceeded.
pub open spec fn well_stocked<F: Fn(FloatOp, u64, u64) -> u64>(f: F, stock: u64, sales: Option<u64>) -> bool {
    match sales {
        Some(s) => float_lt(arith(f, FloatOp::Mul, HALF_BITS, s), arith(f, FloatOp::FromU64, stock, 0)),
        None => false,
    }
}

/// Marks of the supply rows with enough stock.
pub open spec fn stocked_supply<F: Fn(FloatOp, u64, u64) -> u64>(
    f: F,
    part: Table,
    lineitem: Table,
    partsupp: Table,
) -> Seq<bool> {
    Seq::new(
        partsupp.row_count as nat,
        |j: int|
            is_forest(part, col(partsupp, 0)[j]) && well_stocked(
                f,
                col(partsupp, 2)[j],
                group_sum(f, q20_lines(part, lineitem), (col(partsupp, 0)[j], col(partsupp, 1)[j], 0u64)),
            ),
    )
}

/// Marks of the suppliers that are listed.
pub open spec fn stocked_suppliers<F: Fn(FloatOp, u64, u64) -> u64>(
    f: F,
    part: Table,
    lineitem: Table,
    partsupp: Table,
    supplier: Table,
    country: u64,
) -> Seq<bool> {
    Seq::new(
        supplier.row_count as nat,
        |i: int|
            row_of_key(col(partsupp, 1), stocked_supply(f, part, lineitem, partsupp), col(supplier, 0)[i]) is Some
                && col(supplier, 3)[i] == country,
    )
}

/// The answer.
pub open spec fn q20_outcome<F: Fn(FloatOp, u64, u64) -> u64>(
    f: F,
    part: Table,
    lineitem: Table,
    partsupp: Table,
    supplier: Table,
    nation: Table,
    r: Result<QueryResult, Error>,
) -> bool {
    let canada = first_key(col(nation, 1), col(nation, 0), nation.row_count as int, text_hash("CANADA"@));
    if part.string_columns@[1] is None {
        not_found(r, "p_name StringSearchColumn"@)
    } else if !is_known(canada) {
        not_found(r, "CANADA nation not found"@)
    } else {
        let marks = stocked_suppliers(f, part, lineitem, partsupp, supplier, canada->0);
        let listed = marked_rows(marks, marks.len() as int);
        let names = cells_of_rows(col(supplier, 1), listed);
        let n = listed.len() as int;
        exists|order: Seq<usize>| #[trigger]
            is_stable_order(least_first(names), order) && answers(
                r,
                seq![
                    ("s_name"@, picked(names, order, n)),
                    ("s_address"@, picked(cells_of_rows(col(supplier, 2), listed), order, n)),
                ],
                n,
            )
    }
}

fn mark_forest(part: &Table, names: &StringSearchColumn) -> (m: Vec<bool>)
    requires
        has_columns(*part, 2),
        part.string_columns@[1] == Some(*names),
    ensures
        m@ == forest_parts(*part),
{
    let mut m: Vec<bool> = Vec::new();
    let mut i: usize = 0;
    while i < part.row_count
        invariant
            has_columns(*part, 2),
            part.string_columns@[1] == Some(*names),
            i <= part.row_count,
            m.len() == i,
            forall|k: int| 0 <= k < i ==> #[trigger] m@[k] == forest_parts(*part)[k],
        decreases part.row_count - i,
    {
        m.push(text_begins_with(names.get(i), "forest"));
        i = i + 1;
    }
    proof {
        assert(m@ =~= forest_parts(*part));
    }
    m
}

fn stock_suffices<F: Fn(FloatOp, u64, u64) -> u64>(stock: u64, sales: Option<u64>, fpu: &F) -> (b: bool)
    requires
        is_arith(*fpu),
    ensures
        b == well_stocked(*fpu, stock, sales),
{
    match sales {
        Some(s) => {
            let half: u64 = fpu(FloatOp::Mul, HALF_BITS, s);
            let held: u64 = fpu(FloatOp::FromU64, stock, 0);
            less(half, held)
        },
        None => false,
    }
}

/// What the query comes to on the tables of a catalog.
pub open spec fn q20_result<F: Fn(FloatOp, u64, u64) -> u64>(f: F, catalog: Catalog, r: Result<QueryResult, Error>) -> bool {
    if !found(catalog, "part"@) {
        not_found(r, no_table_text("part"@))
    } else if !found(catalog, "lineitem"@) {
        not_found(r, no_table_text("lineitem"@))
    } else if !found(catalog, "partsupp"@) {
        not_found(r, no_table_text("partsupp"@))
    } else if !found(catalog, "supplier"@) {
        not_found(r, no_table_text("supplier"@))
    } else if !found(catalog, "nation"@) {
        not_found(r, no_table_text("nation"@))
    } else {
        q20_outcome(
            f,
            table_of(catalog, "part"@),
            table_of(catalog, "lineitem"@),
            table_of(catalog, "partsupp"@),
            table_of(catalog, "supplier"@),
            table_of(catalog, "nation"@),
            r,
        )
    }
}

/// Evaluates the query.
pub fn execute_q20_reformulated<F: Fn(FloatOp, u64, u64) -> u64>(catalog: &Catalog, fpu: &F) -> (r: Result<QueryResult, Error>)
    requires
        is_arith(*fpu),
        table_ok(*catalog, "part"@, 2),
        table_ok(*catalog, "lineitem"@, 11),
        table_ok(*catalog, "partsupp"@, 3),
        table_ok(*catalog, "supplier"@, 4),
        table_ok(*catalog, "nation"@, 2),
    ensures
        q20_result(*fpu, *catalog, r),
{
    let part: &Table = match need(catalog, "part") {
        Ok(t) => t,
        Err(e) => {
            return Err(e);
        },
    };
    let lineitem: &Table = match need(catalog, "lineitem") {
        Ok(t) => t,
        Err(e) => {
            return Err(e);
        },
    };
    let partsupp: &Table = match need(catalog, "partsupp") {
        Ok(t) => t,
        Err(e) => {
            return Err(e);
        },
    };
    let supplier: &Table = match need(catalog, "supplier") {
        Ok(t) => t,
        Err(e) => {
            return Err(e);
        },
    };
    let nation: &Table = match need(catalog, "nation") {
        Ok(t) => t,
        Err(e) => {
            return Err(e);
        },
    };
    q20_answer(part, lineitem, partsupp, supplier, nation, fpu)
}

/// Evaluates the query on its tables.
pub fn q20_answer<F: Fn(FloatOp, u64, u64) -> u64>(
    part: &Table,
    lineitem: &Table,
    partsupp: &Table,
    supplier: &Table,
    nation: &Table,
    fpu: &F,
) -> (r: Result<QueryResult, Error>)
    requires
        is_arith(*fpu),
        has_columns(*part, 2),
        has_columns(*lineitem, 11),
        has_columns(*partsupp, 3),
        has_columns(*supplier, 4),
        has_columns(*nation, 2),
    ensures
        q20_outcome(*fpu, *part, *lineitem, *partsupp, *supplier, *nation, r),
{
    let names_of: &StringSearchColumn = match &part.string_columns[1] {
        Some(s) => s,
        None => {
            return Err(missing("p_name StringSearchColumn"));
        },
    };
    let parts: RowIndex = RowIndex::build(&part.columns[0], &mark_forest(part, names_of));
    let first_day: u64 = date_to_days(1994, 1, 1);
    let end_day: u64 = date_to_days(1995, 1, 1);
    let mut lines: Vec<Term> = Vec::new();
    let n: usize = lineitem.row_count;
    let mut i: usize = 0;
    while i < n
        invariant
            has_columns(*lineitem, 11),
            n == lineitem.row_count,
            i <= n,
            first_day == date_cell(1994, 1, 1),
            end_day == date_cell(1995, 1, 1),
            parts.wf(),
            parts.keys() == col(*part, 0),
            parts.marks() == forest_parts(*part),
            lines.len() == i,
            forall|k: int| 0 <= k < i ==> #[trigger] lines@[k] == q20_line(*part, *lineitem, k),
        decreases n - i,
    {
        let day: u64 = lineitem.columns[10][i];
        let pk: u64 = lineitem.columns[1][i];
        if first_day <= day && day < end_day && parts.holds(pk) {
            lines.push(Some(((pk, lineitem.columns[2][i], 0), lineitem.columns[4][i])));
        } else {
            lines.push(None);
        }
        i = i + 1;
    }
    proof {
        assert(lines@ =~= q20_lines(*part, *lineitem));
    }
    let (groups, sums): (GroupIndex, Vec<u64>) = index_sums(&lines, fpu);
    let ghost stocked = stocked_supply(*fpu, *part, *lineitem, *partsupp);
    let mut supply_marks: Vec<bool> = Vec::new();
    let mut j: usize = 0;
    while j < partsupp.row_count
        invariant
            is_arith(*fpu),
            has_columns(*partsupp, 3),
            parts.wf(),
            parts.keys() == col(*part, 0),
            parts.marks() == forest_parts(*part),
            groups.wf(),
            sums.len() == groups@.len(),
            lines@ == q20_lines(*part, *lineitem),
            forall|k: Key| #[trigger] groups@.contains(k) <==> group_sum(*fpu, lines@, k) is Some,
            forall|g: int| 0 <= g < groups@.len() ==> group_sum(*fpu, lines@, #[trigger] groups@[g]) == Some(sums@[g]),
            stocked == stocked_supply(*fpu, *part, *lineitem, *partsupp),
            j <= partsupp.row_count,
            supply_marks.len() == j,
            forall|k: int| 0 <= k < j ==> #[trigger] supply_marks@[k] == stocked[k],
        decreases partsupp.row_count - j,
    {
        let pk: u64 = partsupp.columns[0][j];
        let sales: Option<u64> = sum_at(
            &groups,
            &sums,
            (pk, partsupp.columns[1][j], 0),
            fpu,
            Ghost(lines@),
        );
        let enough: bool = parts.holds(pk) && stock_suffices(partsupp.columns[2][j], sales, fpu);
        supply_marks.push(enough);
        j = j + 1;
    }
    proof {
        assert(supply_marks@ =~= stocked);
    }
    let supply: RowIndex = RowIndex::build(&partsupp.columns[1], &supply_marks);
    let canada: u64 = match find_key(&nation.columns[1], &nation.columns[0], hash_text("CANADA")) {
        Some(k) => {
            if k == 0xFFFF_FFFF_FFFF_FFFF {
                return Err(missing("CANADA nation not found"));
            }
            k
        },
        None => {
            return Err(missing("CANADA nation not found"));
        },
    };
    let ghost wanted = stocked_suppliers(*fpu, *part, *lineitem, *partsupp, *supplier, canada);
    let mut marks: Vec<bool> = Vec::new();
    let mut q: usize = 0;
    while q < supplier.row_count
        invariant
            has_columns(*supplier, 4),
            supply.wf(),
            supply.keys() == col(*partsupp, 1),
            supply.marks() == stocked_supply(*fpu, *part, *lineitem, *partsupp),
            wanted == stocked_suppliers(*fpu, *part, *lineitem, *partsupp, *supplier, canada),
            q <= supplier.row_count,
            marks.len() == q,
            forall|k: int| 0 <= k < q ==> #[trigger] marks@[k] == wanted[k],
        decreases supplier.row_count - q,
    {
        let take: bool = supply.holds(supplier.columns[0][q]) && supplier.columns[3][q] == canada;
        marks.push(take);
        q = q + 1;
    }
    proof {
        assert(marks@ =~= wanted);
    }
    let listed: Vec<usize> = list_marked(&marks);
    let names: Vec<u64> = take_rows(&supplier.columns[1], &listed);
    let addresses: Vec<u64> = take_rows(&supplier.columns[2], &listed);
    let keys: Vec<Vec<u64>> = keys_least_first(&names);
    let order: Vec<usize> = stable_order(&keys);
    proof {
        lemma_order_bounds(key_rows(keys@), order@);
    }
    let rows: usize = order.len();
    let mut columns: Vec<ResultColumn> = Vec::new();
    columns.push(column("s_name", pick(&names, &order, rows)));
    columns.push(column("s_address", pick(&addresses, &order, rows)));
    proof {
        assert(columns@.map_values(|c: ResultColumn| column_view(c)) =~= seq![
            ("s_name"@, picked(names@, order@, rows as int)),
            ("s_address"@, picked(addresses@, order@, rows as int)),
        ]);
    }
    result(columns, rows)
}

} // verus!
