//! Profit on parts of one colour, by the nation of the supplier and the year of
//! the order.

use crate::dates::{year_cell, year_of_day};
use crate::error::Error;
use crate::float_bits::{
    arith, descending, discount_price, discounted, is_arith, reversed, FloatOp,
};
use crate::group_index::{row_of_key, Key, PairIndex, RowIndex};
use crate::order::{is_stable_order, key_rows, stable_order};
use crate::table::{column_view, Catalog, QueryResult, ResultColumn, Table};
use crate::text::{append_text, chars_of, decimal, decimal_chars};
use crate::tpch::sums::{
    first_words, group_keys, lemma_same_keys, row_key, second_words, split_keys, sum_groups, sums_of, Term,
};
use crate::tpch::support::{
    all_marked, answers, col, column, found, has_columns, has_part, lemma_order_bounds, look_up,
    mark_all, need, no_table_text, not_found, pick, picked, result, table_cell, table_cells,
    table_of, table_ok, text_has,
};
use crate::word::{rank_signed, signed_rank};
use vstd::prelude::*;

verus! {

/// Whether a query text is this query.
pub open spec fn q9_text(sql: Seq<char>) -> bool {
    has_part(sql, "sum_profit"@) && has_part(sql, "o_year"@) && has_part(sql, "p_name LIKE '%green%'"@) && has_part(sql, "ps_supplycost * l_quantity"@)
}

pub fn is_q9(sql: &str) -> (b: bool)
    ensures
        b == q9_text(sql@),
{
    text_has(sql, "sum_profit") && text_has(sql, "o_year") && text_has(sql, "p_name LIKE '%green%'") && text_has(sql, "ps_supplycost * l_quantity")
}

/// Marks of the parts whose name has the colour in it.
pub open spec fn green_parts(part: Table) -> Seq<bool> {
    Seq::new(
        part.row_count as nat,
        |i: int| part.string_columns@[1] matches Some(s) && has_part(s.strings@[i]@, "green"@),
    )
}

pub open spec fn is_green(part: Table, key: u64) -> bool {
    row_of_key(col(part, 0), green_parts(part), key) is Some
}

/// The part and the supplier of each supply row.
pub open spec fn supply_pairs(partsupp: Table) -> Seq<(u64, u64)> {
    Seq::new(partsupp.row_count as nat, |j: int| (col(partsupp, 0)[j], col(partsupp, 1)[j]))
}

/// Marks of the supply rows of parts of the colour.
pub open spec fn green_supply(part: Table, partsupp: Table) -> Seq<bool> {
    Seq::new(partsupp.row_count as nat, |j: int| is_green(part, col(partsupp, 0)[j]))
}

/// What a line adds to the two sums of a nation and a year: its price after
/// discount, and the cost of its goods.
pub open spec fn q9_line<F: Fn(FloatOp, u64, u64) -> u64>(
    f: F,
    part: Table,
    partsupp: Table,
    lineitem: Table,
    orders: Table,
    supplier: Table,
    i: int,
) -> Option<(Key, u64, u64)> {
    let pk = col(lineitem, 1)[i];
    let sk = col(lineitem, 2)[i];
    if !is_green(part, pk) {
        None
    } else {
        match row_of_key(supply_pairs(partsupp), green_supply(part, partsupp), (pk, sk)) {
            None => None,
            Some(j) => {
                let nk = table_cell(supplier, 3, sk, u64::MAX);
                if nk == u64::MAX {
                    None
                } else {
                    let day = table_cell(orders, 4, col(lineitem, 0)[i], 0);
                    Some(
                        (
                            (nk, year_cell(day), 0u64),
                            discounted(f, col(lineitem, 5)[i], col(lineitem, 6)[i]),
                            arith(f, FloatOp::Mul, col(partsupp, 3)[j as int], col(lineitem, 4)[i]),
                        ),
                    )
                }
            },
        }
    }
}

/// The first or the second sum's part in a line.
pub open spec fn price_term(line: Option<(Key, u64, u64)>) -> Term {
    match line {
        Some((k, a, _)) => Some((k, a)),
        None => None,
    }
}

pub open spec fn cost_term(line: Option<(Key, u64, u64)>) -> Term {
    match line {
        Some((k, _, b)) => Some((k, b)),
        None => None,
    }
}

pub open spec fn q9_prices<F: Fn(FloatOp, u64, u64) -> u64>(
    f: F,
    part: Table,
    partsupp: Table,
    lineitem: Table,
    orders: Table,
    supplier: Table,
) -> Seq<Term> {
    Seq::new(
        lineitem.row_count as nat,
        |i: int| price_term(q9_line(f, part, partsupp, lineitem, orders, supplier, i)),
    )
}

pub open spec fn q9_costs<F: Fn(FloatOp, u64, u64) -> u64>(
    f: F,
    part: Table,
    partsupp: Table,
    lineitem: Table,
    orders: Table,
    supplier: Table,
) -> Seq<Term> {
    Seq::new(
        lineitem.row_count as nat,
        |i: int| cost_term(q9_line(f, part, partsupp, lineitem, orders, supplier, i)),
    )
}

/// Differences of doubles.
pub open spec fn differences<F: Fn(FloatOp, u64, u64) -> u64>(f: F, a: Seq<u64>, b: Seq<u64>) -> Seq<u64> {
    Seq::new(a.len(), |i: int| arith(f, FloatOp::Sub, a[i], b[i]))
}

/// The name of a nation: the string of its row, or a name made of its key where
/// no strings are kept; nothing where there is no such nation.
pub open spec fn nation_text(nation: Table, key: u64) -> Seq<char> {
    match row_of_key(col(nation, 0), all_marked(nation.row_count as nat), key) {
        Some(q) => match nation.string_columns@[1] {
            Some(s) => s.strings@[q as int]@,
            None => "nation_"@ + decimal(key as nat),
        },
        None => Seq::empty(),
    }
}

/// A key that sorts by a text and then by a year, the latest first.
pub open spec fn name_then_year(name: Seq<char>, year: u64) -> Seq<u64> {
    Seq::new(name.len(), |i: int| (name[i] as u32 + 1) as u64) + seq![0u64, descending(signed_rank(year))]
}

/// Sorting by the name of the nation and then by year, the latest first.
pub open spec fn q9_order_keys(nation: Table, groups: Seq<Key>) -> Seq<Seq<u64>> {
    Seq::new(groups.len(), |g: int| name_then_year(nation_text(nation, groups[g].0), groups[g].1))
}

/// The answer.
pub open spec fn q9_outcome<F: Fn(FloatOp, u64, u64) -> u64>(
    f: F,
    part: Table,
    partsupp: Table,
    lineitem: Table,
    orders: Table,
    supplier: Table,
    nation: Table,
    r: Result<QueryResult, Error>,
) -> bool {
    let prices = q9_prices(f, part, partsupp, lineitem, orders, supplier);
    let costs = q9_costs(f, part, partsupp, lineitem, orders, supplier);
    let groups = group_keys(prices);
    let profits = differences(f, sums_of(f, prices, groups), sums_of(f, costs, groups));
    let n = groups.len() as int;
    exists|order: Seq<usize>| #[trigger]
        is_stable_order(q9_order_keys(nation, groups), order) && answers(
            r,
            seq![
                ("nation"@, picked(table_cells(nation, 1, first_words(groups), 0), order, n)),
                ("o_year"@, picked(second_words(groups), order, n)),
                ("sum_profit"@, picked(profits, order, n)),
            ],
            n,
        )
}

fn mark_green(part: &Table) -> (m: Vec<bool>)
    requires
        has_columns(*part, 2),
    ensures
        m@ == green_parts(*part),
{
    let mut m: Vec<bool> = Vec::new();
    let mut i: usize = 0;
    while i < part.row_count
        invariant
            has_columns(*part, 2),
            i <= part.row_count,
            m.len() == i,
            forall|k: int| 0 <= k < i ==> #[trigger] m@[k] == green_parts(*part)[k],
        decreases part.row_count - i,
    {
        let green: bool = match &part.string_columns[1] {
            Some(s) => text_has(s.get(i), "green"),
            None => false,
        };
        m.push(green);
        i = i + 1;
    }
    proof {
        assert(m@ =~= green_parts(*part));
    }
    m
}

fn write_nation(nation: &Table, nations: &RowIndex, key: u64) -> (name: Vec<char>)
    requires
        has_columns(*nation, 2),
        nations.wf(),
        nations.keys() == col(*nation, 0),
        nations.marks() == all_marked(nation.row_count as nat),
    ensures
        name@ == nation_text(*nation, key),
{
    match nations.find(key) {
        Some(q) => match &nation.string_columns[1] {
            Some(s) => chars_of(s.get(q)),
            None => {
                let mut name: Vec<char> = Vec::new();
                append_text(&mut name, "nation_");
                let mut number: Vec<char> = decimal_chars(key);
                name.append(&mut number);
                proof {
                    assert(name@ =~= "nation_"@ + decimal(key as nat));
                }
                name
            },
        },
        None => Vec::new(),
    }
}

fn key_by_name_and_year(name: &Vec<char>, year: u64) -> (key: Vec<u64>)
    ensures
        key@ == name_then_year(name@, year),
{
    let mut key: Vec<u64> = Vec::new();
    let mut i: usize = 0;
    while i < name.len()
        invariant
            i <= name.len(),
            key.len() == i,
            forall|k: int| 0 <= k < i ==> #[trigger] key@[k] == name@[k] as u32 + 1,
        decreases name.len() - i,
    {
        let c: u32 = name[i] as u32;
        key.push(c as u64 + 1);
        i = i + 1;
    }
    key.push(0);
    key.push(reversed(rank_signed(year)));
    proof {
        assert(key@ =~= name_then_year(name@, year));
    }
    key
}

/// What the query comes to on the tables of a catalog.
pub open spec fn q9_result<F: Fn(FloatOp, u64, u64) -> u64>(f: F, catalog: Catalog, r: Result<QueryResult, Error>) -> bool {
    if !found(catalog, "part"@) {
        not_found(r, no_table_text("part"@))
    } else if !found(catalog, "partsupp"@) {
        not_found(r, no_table_text("partsupp"@))
    } else if !found(catalog, "lineitem"@) {
        not_found(r, no_table_text("lineitem"@))
    } else if !found(catalog, "orders"@) {
        not_found(r, no_table_text("orders"@))
    } else if !found(catalog, "supplier"@) {
        not_found(r, no_table_text("supplier"@))
    } else if !found(catalog, "nation"@) {
        not_found(r, no_table_text("nation"@))
    } else {
        q9_outcome(
            f,
            table_of(catalog, "part"@),
            table_of(catalog, "partsupp"@),
            table_of(catalog, "lineitem"@),
            table_of(catalog, "orders"@),
            table_of(catalog, "supplier"@),
            table_of(catalog, "nation"@),
            r,
        )
    }
}

/// Evaluates the query.
pub fn execute_q9_reformulated<F: Fn(FloatOp, u64, u64) -> u64>(catalog: &Catalog, fpu: &F) -> (r: Result<QueryResult, Error>)
    requires
        is_arith(*fpu),
        table_ok(*catalog, "part"@, 2),
        table_ok(*catalog, "partsupp"@, 4),
        table_ok(*catalog, "lineitem"@, 7),
        table_ok(*catalog, "orders"@, 5),
        table_ok(*catalog, "supplier"@, 4),
        table_ok(*catalog, "nation"@, 2),
    ensures
        q9_result(*fpu, *catalog, r),
{
    let part: &Table = match need(catalog, "part") {
        Ok(t) => t,
        Err(e) => {
            return Err(e);
        },
    };
    let partsupp: &Table = match need(catalog, "partsupp") {
        Ok(t) => t,
        Err(e) => {
            return Err(e);
        },
    };
    let lineitem: &Table = match need(catalog, "lineitem") {
        Ok(t) => t,
        Err(e) => {
            return Err(e);
        },
    };
    let orders: &Table = match need(catalog, "orders") {
        Ok(t) => t,
        Err(e) => {
            return Err(e);
        },
    };
    let supplier: &Table = match need(catalog, "supplier") {
        Ok(t) => t,
        Err(e) => {
            return Err(e);
        },
    };
    let nation: &Table = match need(catalog, "nation") {
        Ok(t) => t,
        Err(e) => {
            return Err(e);
        },
    };
    q9_answer(part, partsupp, lineitem, orders, supplier, nation, fpu)
}

/// Evaluates the query on its tables.
pub fn q9_answer<F: Fn(FloatOp, u64, u64) -> u64>(
    part: &Table,
    partsupp: &Table,
    lineitem: &Table,
    orders: &Table,
    supplier: &Table,
    nation: &Table,
    fpu: &F,
) -> (r: Result<QueryResult, Error>)
    requires
        is_arith(*fpu),
        has_columns(*part, 2),
        has_columns(*partsupp, 4),
        has_columns(*lineitem, 7),
        has_columns(*orders, 5),
        has_columns(*supplier, 4),
        has_columns(*nation, 2),
    ensures
        q9_outcome(*fpu, *part, *partsupp, *lineitem, *orders, *supplier, *nation, r),
{
    let parts: RowIndex = RowIndex::build(&part.columns[0], &mark_green(part));
    let mut pairs: Vec<(u64, u64)> = Vec::new();
    let mut supply_marks: Vec<bool> = Vec::new();
    let mut j: usize = 0;
    while j < partsupp.row_count
        invariant
            has_columns(*part, 2),
            has_columns(*partsupp, 4),
            parts.wf(),
            parts.keys() == col(*part, 0),
            parts.marks() == green_parts(*part),
            j <= partsupp.row_count,
            pairs.len() == j,
            supply_marks.len() == j,
            forall|k: int| 0 <= k < j ==> #[trigger] pairs@[k] == (col(*partsupp, 0)[k], col(*partsupp, 1)[k]),
            forall|k: int| 0 <= k < j ==> #[trigger] supply_marks@[k] == is_green(*part, col(*partsupp, 0)[k]),
        decreases partsupp.row_count - j,
    {
        let pk: u64 = partsupp.columns[0][j];
        pairs.push((pk, partsupp.columns[1][j]));
        supply_marks.push(parts.holds(pk));
        j = j + 1;
    }
    proof {
        assert(pairs@ =~= supply_pairs(*partsupp));
        assert(supply_marks@ =~= green_supply(*part, *partsupp));
    }
    let supply: PairIndex = PairIndex::build(&pairs, &supply_marks);
    let suppliers: RowIndex = RowIndex::build(&supplier.columns[0], &mark_all(supplier.row_count));
    let all_orders: RowIndex = RowIndex::build(&orders.columns[0], &mark_all(orders.row_count));
    let mut prices: Vec<Term> = Vec::new();
    let mut costs: Vec<Term> = Vec::new();
    let n: usize = lineitem.row_count;
    let mut i: usize = 0;
    while i < n
        invariant
            is_arith(*fpu),
            has_columns(*part, 2),
            has_columns(*partsupp, 4),
            has_columns(*lineitem, 7),
            has_columns(*orders, 5),
            has_columns(*supplier, 4),
            n == lineitem.row_count,
            i <= n,
            parts.wf(),
            parts.keys() == col(*part, 0),
            parts.marks() == green_parts(*part),
            supply.wf(),
            supply.keys() == supply_pairs(*partsupp),
            supply.marks() == green_supply(*part, *partsupp),
            suppliers.wf(),
            suppliers.keys() == col(*supplier, 0),
            suppliers.marks() == all_marked(supplier.row_count as nat),
            all_orders.wf(),
            all_orders.keys() == col(*orders, 0),
            all_orders.marks() == all_marked(orders.row_count as nat),
            prices.len() == i,
            costs.len() == i,
            forall|k: int|
                0 <= k < i ==> #[trigger] prices@[k] == price_term(
                    q9_line(*fpu, *part, *partsupp, *lineitem, *orders, *supplier, k),
                ),
            forall|k: int|
                0 <= k < i ==> #[trigger] costs@[k] == cost_term(
                    q9_line(*fpu, *part, *partsupp, *lineitem, *orders, *supplier, k),
                ),
        decreases n - i,
    {
        let pk: u64 = lineitem.columns[1][i];
        let sk: u64 = lineitem.columns[2][i];
        let mut price: Term = None;
        let mut cost: Term = None;
        if parts.holds(pk) {
            match supply.find(pk, sk) {
                Some(s) => {
                    let nk: u64 = match suppliers.find(sk) {
                        Some(q) => supplier.columns[3][q],
                        None => 0xFFFF_FFFF_FFFF_FFFF,
                    };
                    if nk != 0xFFFF_FFFF_FFFF_FFFF {
                        let day: u64 = match all_orders.find(lineitem.columns[0][i]) {
                            Some(o) => orders.columns[4][o],
                            None => 0,
                        };
                        let key: Key = (nk, year_of_day(day), 0);
                        price = Some((key, discount_price(fpu, lineitem.columns[5][i], lineitem.columns[6][i])));
                        cost = Some((key, fpu(FloatOp::Mul, partsupp.columns[3][s], lineitem.columns[4][i])));
                    }
                },
                None => {},
            }
        }
        prices.push(price);
        costs.push(cost);
        i = i + 1;
    }
    proof {
        assert(prices@ =~= q9_prices(*fpu, *part, *partsupp, *lineitem, *orders, *supplier));
        assert(costs@ =~= q9_costs(*fpu, *part, *partsupp, *lineitem, *orders, *supplier));
        assert forall|k: int| 0 <= k < prices@.len() implies #[trigger] row_key(prices@, k) == row_key(costs@, k) by {}
        lemma_same_keys(prices@, costs@, prices@.len() as int);
    }
    let (groups, price_sums): (Vec<Key>, Vec<u64>) = sum_groups(&prices, fpu);
    let (groups2, cost_sums): (Vec<Key>, Vec<u64>) = sum_groups(&costs, fpu);
    proof {
        assert(groups2@ == groups@);
        assert(price_sums@ =~= sums_of(*fpu, prices@, groups@));
        assert(cost_sums@ =~= sums_of(*fpu, costs@, groups@));
    }
    let mut profits: Vec<u64> = Vec::new();
    let mut g: usize = 0;
    while g < groups.len()
        invariant
            is_arith(*fpu),
            price_sums.len() == groups.len(),
            cost_sums.len() == groups.len(),
            g <= groups.len(),
            profits.len() == g,
            forall|k: int|
                0 <= k < g ==> #[trigger] profits@[k] == arith(*fpu, FloatOp::Sub, price_sums@[k], cost_sums@[k]),
        decreases groups.len() - g,
    {
        profits.push(fpu(FloatOp::Sub, price_sums[g], cost_sums[g]));
        g = g + 1;
    }
    proof {
        assert(profits@ =~= differences(*fpu, price_sums@, cost_sums@));
    }
    let (nation_keys, years, _): (Vec<u64>, Vec<u64>, Vec<u64>) = split_keys(&groups);
    let nations: RowIndex = RowIndex::build(&nation.columns[0], &mark_all(nation.row_count));
    let hashes: Vec<u64> = look_up(&nations, &nation.columns[1], &nation_keys, 0);
    let mut keys: Vec<Vec<u64>> = Vec::new();
    let mut q: usize = 0;
    while q < groups.len()
        invariant
            has_columns(*nation, 2),
            nations.wf(),
            nations.keys() == col(*nation, 0),
            nations.marks() == all_marked(nation.row_count as nat),
            q <= groups.len(),
            keys.len() == q,
            forall|k: int|
                0 <= k < q ==> (#[trigger] keys@[k])@ == name_then_year(
                    nation_text(*nation, groups@[k].0),
                    groups@[k].1,
                ),
        decreases groups.len() - q,
    {
        let name: Vec<char> = write_nation(nation, &nations, groups[q].0);
        keys.push(key_by_name_and_year(&name, groups[q].1));
        q = q + 1;
    }
    proof {
        assert(key_rows(keys@) =~= q9_order_keys(*nation, groups@));
    }
    let order: Vec<usize> = stable_order(&keys);
    proof {
        lemma_order_bounds(key_rows(keys@), order@);
    }
    let rows: usize = order.len();
    let mut columns: Vec<ResultColumn> = Vec::new();
    columns.push(column("nation", pick(&hashes, &order, rows)));
    columns.push(column("o_year", pick(&years, &order, rows)));
    columns.push(column("sum_profit", pick(&profits, &order, rows)));
    proof {
        assert(columns@.map_values(|c: ResultColumn| column_view(c)) =~= seq![
            ("nation"@, picked(hashes@, order@, rows as int)),
            ("o_year"@, picked(years@, order@, rows as int)),
            ("sum_profit"@, picked(profits@, order@, rows as int)),
        ]);
    }
    result(columns, rows)
}

} // verus!
