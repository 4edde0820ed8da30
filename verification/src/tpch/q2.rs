//! The cheapest suppliers of a region for parts of one size and kind.

use crate::error::Error;
use crate::float_bits::{
    descending, float_lt, less, reversed, sort_rank, total_rank, INFINITY_BITS,
};
use crate::group_index::{row_of_key, GroupIndex, RowIndex};
use crate::hashing::{hash_text, text_hash};
use crate::order::{is_stable_order, key_rows, stable_order};
use crate::table::{column_view, Catalog, QueryResult, ResultColumn, StringSearchColumn, Table};
use crate::tpch::support::{
    answers, cells_by_key, cells_of_rows, col, column, ends_with, find_key, first_key, found, has_columns, has_part, is_known,
    lemma_order_bounds, limited, list_marked, look_up, mark_equal, marked_rows, marks_equal, missing, need,
    no_table_text, not_found, pick, picked, result, string_at, table_of, table_ok, take_rows, text_ends_with, text_has,
};
use vstd::prelude::*;

verus! {

/// Whether a query text is this query.
pub open spec fn q2_text(sql: Seq<char>) -> bool {
    has_part(sql, "s_acctbal, s_name, n_name, p_partkey, p_mfgr"@) && has_part(sql, "r_name = 'EUROPE'"@) && has_part(sql, "p_type LIKE '%BRASS'"@)
}

pub fn is_q2(sql: &str) -> (b: bool)
    ensures
        b == q2_text(sql@),
{
    text_has(sql, "s_acctbal, s_name, n_name, p_partkey, p_mfgr") && text_has(sql, "r_name = 'EUROPE'") && text_has(sql, "p_type LIKE '%BRASS'")
}

/// How many suppliers are listed.
pub const Q2_LIMIT: usize = 100;

/// Marks of the suppliers of the region.
pub open spec fn region_suppliers(nation: Table, supplier: Table, region: u64) -> Seq<bool> {
    Seq::new(
        supplier.row_count as nat,
        |i: int| row_of_key(col(nation, 0), marks_equal(col(nation, 2), region), col(supplier, 3)[i]) is Some,
    )
}

/// Whether a supplier belongs to the region.
pub open spec fn sells_from(nation: Table, supplier: Table, region: u64, key: u64) -> bool {
    row_of_key(col(supplier, 0), region_suppliers(nation, supplier, region), key) is Some
}

/// The least cost of a part among the first `n` supply rows of suppliers of the
/// region; infinite where there is none.
pub open spec fn least_cost(
    nation: Table,
    supplier: Table,
    partsupp: Table,
    region: u64,
    part: u64,
    n: int,
) -> u64
    decreases n,
{
    if n <= 0 {
        INFINITY_BITS
    } else {
        let before = least_cost(nation, supplier, partsupp, region, part, n - 1);
        if col(partsupp, 0)[n - 1] == part && sells_from(nation, supplier, region, col(partsupp, 1)[n - 1])
            && float_lt(col(partsupp, 3)[n - 1], before) {
            col(partsupp, 3)[n - 1]
        } else {
            before
        }
    }
}

/// Marks of the parts of the size and kind.
pub open spec fn brass_parts(part: Table) -> Seq<bool> {
    Seq::new(part.row_count as nat, |i: int| col(part, 5)[i] == 15 && ends_with(string_at(part, 4, i), "BRASS"@))
}

/// Marks of the supply rows that are listed: of a part that is asked for, from a
/// supplier of the region, at the least cost.
pub open spec fn best_supply(nation: Table, supplier: Table, part: Table, partsupp: Table, region: u64) -> Seq<bool> {
    Seq::new(
        partsupp.row_count as nat,
        |j: int|
            row_of_key(col(part, 0), brass_parts(part), col(partsupp, 0)[j]) is Some && sells_from(
                nation,
                supplier,
                region,
                col(partsupp, 1)[j],
            ) && col(partsupp, 3)[j] == least_cost(
                nation,
                supplier,
                partsupp,
                region,
                col(partsupp, 0)[j],
                partsupp.row_count as int,
            ),
    )
}

/// The cells of a supplier column for listed suppliers.
pub open spec fn supplier_cells(nation: Table, supplier: Table, region: u64, c: int, who: Seq<u64>) -> Seq<u64> {
    cells_by_key(col(supplier, 0), region_suppliers(nation, supplier, region), col(supplier, c), who, 0)
}

/// The names of the nations of listed suppliers.
pub open spec fn supplier_nations(nation: Table, supplier: Table, region: u64, who: Seq<u64>) -> Seq<u64> {
    cells_by_key(
        col(nation, 0),
        marks_equal(col(nation, 2), region),
        col(nation, 1),
        supplier_cells(nation, supplier, region, 3, who),
        0,
    )
}

/// Sorting by balance, the greatest first, then by nation, supplier and part.
pub open spec fn q2_order_keys(
    balance: Seq<u64>,
    nation: Seq<u64>,
    supplier: Seq<u64>,
    part: Seq<u64>,
) -> Seq<Seq<u64>> {
    Seq::new(
        balance.len(),
        |i: int|
            seq![
                descending(total_rank(balance[i])),
                total_rank(nation[i]),
                total_rank(supplier[i]),
                total_rank(part[i]),
            ],
    )
}

/// The answer.
pub open spec fn q2_outcome(
    region: Table,
    nation: Table,
    supplier: Table,
    part: Table,
    partsupp: Table,
    r: Result<QueryResult, Error>,
) -> bool {
    let europe = first_key(col(region, 1), col(region, 0), region.row_count as int, text_hash("EUROPE"@));
    if part.string_columns@[4] is None {
        not_found(r, "p_type StringSearchColumn"@)
    } else if !is_known(europe) {
        not_found(r, "EUROPE region not found in region table"@)
    } else {
        let key = europe->0;
        let marks = best_supply(nation, supplier, part, partsupp, key);
        let listed = marked_rows(marks, marks.len() as int);
        let which = cells_of_rows(col(partsupp, 0), listed);
        let who = cells_of_rows(col(partsupp, 1), listed);
        let balance = supplier_cells(nation, supplier, key, 5, who);
        let name = supplier_cells(nation, supplier, key, 1, who);
        let country = supplier_nations(nation, supplier, key, who);
        let maker = cells_by_key(col(part, 0), brass_parts(part), col(part, 2), which, 0);
        let n = limited(listed.len() as int, Q2_LIMIT as int);
        exists|order: Seq<usize>| #[trigger]
            is_stable_order(q2_order_keys(balance, country, name, which), order) && answers(
                r,
                seq![
                    ("s_acctbal"@, picked(balance, order, n)),
                    ("s_name"@, picked(name, order, n)),
                    ("n_name"@, picked(country, order, n)),
                    ("p_partkey"@, picked(which, order, n)),
                    ("p_mfgr"@, picked(maker, order, n)),
                    ("s_address"@, picked(supplier_cells(nation, supplier, key, 2, who), order, n)),
                    ("s_phone"@, picked(supplier_cells(nation, supplier, key, 4, who), order, n)),
                    ("s_comment"@, picked(supplier_cells(nation, supplier, key, 6, who), order, n)),
                ],
                n,
            )
    }
}

fn mark_suppliers(nations: &RowIndex, nation: &Table, supplier: &Table, Ghost(region): Ghost<u64>) -> (m: Vec<bool>)
    requires
        has_columns(*supplier, 7),
        nations.wf(),
        nations.keys() == col(*nation, 0),
        nations.marks() == marks_equal(col(*nation, 2), region),
    ensures
        m@ == region_suppliers(*nation, *supplier, region),
{
    let mut m: Vec<bool> = Vec::new();
    let mut i: usize = 0;
    while i < supplier.row_count
        invariant
            has_columns(*supplier, 7),
            nations.wf(),
            nations.keys() == col(*nation, 0),
            nations.marks() == marks_equal(col(*nation, 2), region),
            i <= supplier.row_count,
            m.len() == i,
            forall|k: int| 0 <= k < i ==> #[trigger] m@[k] == region_suppliers(*nation, *supplier, region)[k],
        decreases supplier.row_count - i,
    {
        m.push(nations.holds(supplier.columns[3][i]));
        i = i + 1;
    }
    proof {
        assert(m@ =~= region_suppliers(*nation, *supplier, region));
    }
    m
}

fn mark_parts(part: &Table, kinds: &StringSearchColumn) -> (m: Vec<bool>)
    requires
        has_columns(*part, 6),
        part.string_columns@[4] == Some(*kinds),
    ensures
        m@ == brass_parts(*part),
{
    let mut m: Vec<bool> = Vec::new();
    let mut i: usize = 0;
    while i < part.row_count
        invariant
            has_columns(*part, 6),
            part.string_columns@[4] == Some(*kinds),
            i <= part.row_count,
            m.len() == i,
            forall|k: int| 0 <= k < i ==> #[trigger] m@[k] == brass_parts(*part)[k],
        decreases part.row_count - i,
    {
        let wanted: bool = part.columns[5][i] == 15 && text_ends_with(kinds.get(i), "BRASS");
        m.push(wanted);
        i = i + 1;
    }
    proof {
        assert(m@ =~= brass_parts(*part));
    }
    m
}

/// The least cost of every part that a supplier of the region sells.
fn least_costs(
    sellers: &RowIndex,
    nation: &Table,
    supplier: &Table,
    partsupp: &Table,
    Ghost(region): Ghost<u64>,
) -> (r: (GroupIndex, Vec<u64>))
    requires
        has_columns(*partsupp, 4),
        sellers.wf(),
        sellers.keys() == col(*supplier, 0),
        sellers.marks() == region_suppliers(*nation, *supplier, region),
    ensures
        r.0.wf(),
        r.1.len() == r.0@.len(),
        forall|p: u64|
            !#[trigger] r.0@.contains((p, 0u64, 0u64)) ==> least_cost(
                *nation,
                *supplier,
                *partsupp,
                region,
                p,
                partsupp.row_count as int,
            ) == INFINITY_BITS,
        forall|s: int|
            0 <= s < r.1.len() ==> r.1@[s] == least_cost(
                *nation,
                *supplier,
                *partsupp,
                region,
                (#[trigger] r.0@[s]).0,
                partsupp.row_count as int,
            ),
{
    let mut groups: GroupIndex = GroupIndex::new();
    let mut costs: Vec<u64> = Vec::new();
    let mut j: usize = 0;
    while j < partsupp.row_count
        invariant
            has_columns(*partsupp, 4),
            sellers.wf(),
            sellers.keys() == col(*supplier, 0),
            sellers.marks() == region_suppliers(*nation, *supplier, region),
            j <= partsupp.row_count,
            groups.wf(),
            costs.len() == groups@.len(),
            forall|s: int| 0 <= s < groups@.len() ==> (#[trigger] groups@[s]).1 == 0 && groups@[s].2 == 0,
            forall|p: u64|
                !#[trigger] groups@.contains((p, 0u64, 0u64)) ==> least_cost(
                    *nation,
                    *supplier,
                    *partsupp,
                    region,
                    p,
                    j as int,
                ) == INFINITY_BITS,
            forall|s: int|
                0 <= s < costs.len() ==> costs@[s] == least_cost(
                    *nation,
                    *supplier,
                    *partsupp,
                    region,
                    (#[trigger] groups@[s]).0,
                    j as int,
                ),
        decreases partsupp.row_count - j,
    {
        let ghost before = groups@;
        let ghost old_costs = costs@;
        let pk: u64 = partsupp.columns[0][j];
        let cost: u64 = partsupp.columns[3][j];
        if sellers.holds(partsupp.columns[1][j]) {
            let slot: usize = groups.slot_of((pk, 0, 0));
            proof {
                groups.keys_are_distinct();
            }
            if slot == costs.len() {
                proof {
                    assert(!before.contains((pk, 0u64, 0u64))) by {
                        if before.contains((pk, 0u64, 0u64)) {
                            assert(groups@ == before);
                        }
                    }
                }
                costs.push(INFINITY_BITS);
            } else {
                proof {
                    assert(before.contains((pk, 0u64, 0u64))) by {
                        if !before.contains((pk, 0u64, 0u64)) {
                            assert(groups@ =~= before.push((pk, 0u64, 0u64)));
                            assert(before.contains(before[slot as int]));
                        }
                    }
                }
            }
            assert(costs@[slot as int] == least_cost(*nation, *supplier, *partsupp, region, pk, j as int));
            if less(cost, costs[slot]) {
                costs.set(slot, cost);
            }
            proof {
                assert forall|s: int| 0 <= s < costs.len() implies costs@[s] == least_cost(
                    *nation,
                    *supplier,
                    *partsupp,
                    region,
                    (#[trigger] groups@[s]).0,
                    j + 1,
                ) by {
                    if s != slot {
                        assert(groups@[s] == before[s]);
                        assert(costs@[s] == old_costs[s]);
                        assert(groups@[s] != groups@[slot as int]);
                    }
                }
                assert forall|p: u64| !#[trigger] groups@.contains((p, 0u64, 0u64)) implies least_cost(
                    *nation,
                    *supplier,
                    *partsupp,
                    region,
                    p,
                    j + 1,
                ) == INFINITY_BITS by {
                    if p == pk {
                        assert(groups@[slot as int] == (p, 0u64, 0u64));
                    }
                    if before.contains((p, 0u64, 0u64)) {
                        let w = choose|w: int| 0 <= w < before.len() && before[w] == (p, 0u64, 0u64);
                        assert(groups@[w] == (p, 0u64, 0u64));
                    }
                }
            }
        }
        j = j + 1;
    }
    (groups, costs)
}

/// What the query comes to on the tables of a catalog.
pub open spec fn q2_result(catalog: Catalog, r: Result<QueryResult, Error>) -> bool {
    if !found(catalog, "region"@) {
        not_found(r, no_table_text("region"@))
    } else if !found(catalog, "nation"@) {
        not_found(r, no_table_text("nation"@))
    } else if !found(catalog, "supplier"@) {
        not_found(r, no_table_text("supplier"@))
    } else if !found(catalog, "part"@) {
        not_found(r, no_table_text("part"@))
    } else if !found(catalog, "partsupp"@) {
        not_found(r, no_table_text("partsupp"@))
    } else {
        q2_outcome(
            table_of(catalog, "region"@),
            table_of(catalog, "nation"@),
            table_of(catalog, "supplier"@),
            table_of(catalog, "part"@),
            table_of(catalog, "partsupp"@),
            r,
        )
    }
}

/// Evaluates the query.
pub fn execute_q2_reformulated(catalog: &Catalog) -> (r: Result<QueryResult, Error>)
    requires
        table_ok(*catalog, "region"@, 2),
        table_ok(*catalog, "nation"@, 3),
        table_ok(*catalog, "supplier"@, 7),
        table_ok(*catalog, "part"@, 6),
        table_ok(*catalog, "partsupp"@, 4),
    ensures
        q2_result(*catalog, r),
{
    let region: &Table = match need(catalog, "region") {
        Ok(t) => t,
        Err(e) => {
            return Err(e);
        },
    };
    let nation: &Table = match need(catalog, "nation") {
        Ok(t) => t,
        Err(e) => {
            return Err(e);
        },
    };
    let supplier: &Table = match need(catalog, "supplier") {
        Ok(t) => t,
        Err(e) => {
            return Err(e);
        },
    };
    let part: &Table = match need(catalog, "part") {
        Ok(t) => t,
        Err(e) => {
            return Err(e);
        },
    };
    let partsupp: &Table = match need(catalog, "partsupp") {
        Ok(t) => t,
        Err(e) => {
            return Err(e);
        },
    };
    q2_answer(region, nation, supplier, part, partsupp)
}

/// Evaluates the query on its tables.
pub fn q2_answer(
    region: &Table,
    nation: &Table,
    supplier: &Table,
    part: &Table,
    partsupp: &Table,
) -> (r: Result<QueryResult, Error>)
    requires
        has_columns(*region, 2),
        has_columns(*nation, 3),
        has_columns(*supplier, 7),
        has_columns(*part, 6),
        has_columns(*partsupp, 4),
    ensures
        q2_outcome(*region, *nation, *supplier, *part, *partsupp, r),
{
    let kinds: &StringSearchColumn = match &part.string_columns[4] {
        Some(s) => s,
        None => {
            return Err(missing("p_type StringSearchColumn"));
        },
    };
    let europe: u64 = match find_key(&region.columns[1], &region.columns[0], hash_text("EUROPE")) {
        Some(k) => {
            if k == 0xFFFF_FFFF_FFFF_FFFF {
                return Err(missing("EUROPE region not found in region table"));
            }
            k
        },
        None => {
            return Err(missing("EUROPE region not found in region table"));
        },
    };
    let nations: RowIndex = RowIndex::build(&nation.columns[0], &mark_equal(&nation.columns[2], europe));
    let seller_marks: Vec<bool> = mark_suppliers(&nations, nation, supplier, Ghost(europe));
    let sellers: RowIndex = RowIndex::build(&supplier.columns[0], &seller_marks);
    let parts: RowIndex = RowIndex::build(&part.columns[0], &mark_parts(part, kinds));
    let (groups, costs): (GroupIndex, Vec<u64>) = least_costs(&sellers, nation, supplier, partsupp, Ghost(europe));
    let ghost wanted = best_supply(*nation, *supplier, *part, *partsupp, europe);
    let mut marks: Vec<bool> = Vec::new();
    let mut j: usize = 0;
    while j < partsupp.row_count
        invariant
            has_columns(*partsupp, 4),
            sellers.wf(),
            sellers.keys() == col(*supplier, 0),
            sellers.marks() == region_suppliers(*nation, *supplier, europe),
            parts.wf(),
            parts.keys() == col(*part, 0),
            parts.marks() == brass_parts(*part),
            groups.wf(),
            costs.len() == groups@.len(),
            forall|p: u64|
                !#[trigger] groups@.contains((p, 0u64, 0u64)) ==> least_cost(
                    *nation,
                    *supplier,
                    *partsupp,
                    europe,
                    p,
                    partsupp.row_count as int,
                ) == INFINITY_BITS,
            forall|s: int|
                0 <= s < costs.len() ==> costs@[s] == least_cost(
                    *nation,
                    *supplier,
                    *partsupp,
                    europe,
                    (#[trigger] groups@[s]).0,
                    partsupp.row_count as int,
                ),
            wanted == best_supply(*nation, *supplier, *part, *partsupp, europe),
            j <= partsupp.row_count,
            marks.len() == j,
            forall|k: int| 0 <= k < j ==> #[trigger] marks@[k] == wanted[k],
        decreases partsupp.row_count - j,
    {
        let pk: u64 = partsupp.columns[0][j];
        let least: u64 = match groups.find((pk, 0, 0)) {
            Some(s) => {
                assert(groups@[s as int].0 == pk);
                costs[s]
            },
            None => INFINITY_BITS,
        };
        let take: bool = parts.holds(pk) && sellers.holds(partsupp.columns[1][j]) && partsupp.columns[3][j] == least;
        marks.push(take);
        j = j + 1;
    }
    proof {
        assert(marks@ =~= wanted);
    }
    let listed: Vec<usize> = list_marked(&marks);
    let which: Vec<u64> = take_rows(&partsupp.columns[0], &listed);
    let who: Vec<u64> = take_rows(&partsupp.columns[1], &listed);
    let balance: Vec<u64> = look_up(&sellers, &supplier.columns[5], &who, 0);
    let name: Vec<u64> = look_up(&sellers, &supplier.columns[1], &who, 0);
    let country_keys: Vec<u64> = look_up(&sellers, &supplier.columns[3], &who, 0);
    let country: Vec<u64> = look_up(&nations, &nation.columns[1], &country_keys, 0);
    let address: Vec<u64> = look_up(&sellers, &supplier.columns[2], &who, 0);
    let phone: Vec<u64> = look_up(&sellers, &supplier.columns[4], &who, 0);
    let comment: Vec<u64> = look_up(&sellers, &supplier.columns[6], &who, 0);
    let maker: Vec<u64> = look_up(&parts, &part.columns[2], &which, 0);
    let mut keys: Vec<Vec<u64>> = Vec::new();
    let mut q: usize = 0;
    while q < listed.len()
        invariant
            balance.len() == listed.len(),
            country.len() == listed.len(),
            name.len() == listed.len(),
            which.len() == listed.len(),
            q <= listed.len(),
            keys.len() == q,
            forall|k: int|
                0 <= k < q ==> (#[trigger] keys@[k])@ == q2_order_keys(balance@, country@, name@, which@)[k],
        decreases listed.len() - q,
    {
        let mut key: Vec<u64> = Vec::new();
        key.push(reversed(sort_rank(balance[q])));
        key.push(sort_rank(country[q]));
        key.push(sort_rank(name[q]));
        key.push(sort_rank(which[q]));
        proof {
            assert(key@ =~= q2_order_keys(balance@, country@, name@, which@)[q as int]);
        }
        keys.push(key);
        q = q + 1;
    }
    proof {
        assert(key_rows(keys@) =~= q2_order_keys(balance@, country@, name@, which@));
    }
    let order: Vec<usize> = stable_order(&keys);
    proof {
        lemma_order_bounds(key_rows(keys@), order@);
    }
    let rows: usize = if order.len() < Q2_LIMIT {
        order.len()
    } else {
        Q2_LIMIT
    };
    let mut columns: Vec<ResultColumn> = Vec::new();
    columns.push(column("s_acctbal", pick(&balance, &order, rows)));
    columns.push(column("s_name", pick(&name, &order, rows)));
    columns.push(column("n_name", pick(&country, &order, rows)));
    columns.push(column("p_partkey", pick(&which, &order, rows)));
    columns.push(column("p_mfgr", pick(&maker, &order, rows)));
    columns.push(column("s_address", pick(&address, &order, rows)));
    columns.push(column("s_phone", pick(&phone, &order, rows)));
    columns.push(column("s_comment", pick(&comment, &order, rows)));
    proof {
        assert(columns@.map_values(|c: ResultColumn| column_view(c)) =~= seq![
            ("s_acctbal"@, picked(balance@, order@, rows as int)),
            ("s_name"@, picked(name@, order@, rows as int)),
            ("n_name"@, picked(country@, order@, rows as int)),
            ("p_partkey"@, picked(which@, order@, rows as int)),
            ("p_mfgr"@, picked(maker@, order@, rows as int)),
            ("s_address"@, picked(address@, order@, rows as int)),
            ("s_phone"@, picked(phone@, order@, rows as int)),
            ("s_comment"@, picked(comment@, order@, rows as int)),
        ]);
    }
    result(columns, rows)
}

/// No supply row of the region undercuts the least cost of its part.
pub proof fn least_cost_is_least(
    nation: Table,
    supplier: Table,
    partsupp: Table,
    region: u64,
    part: u64,
    n: int,
    j: int,
)
    requires
        0 <= j < n,
        col(partsupp, 0)[j] == part,
        sells_from(nation, supplier, region, col(partsupp, 1)[j]),
    ensures
        !float_lt(col(partsupp, 3)[j], least_cost(nation, supplier, partsupp, region, part, n)),
    decreases n,
{
    if j < n - 1 {
        least_cost_is_least(nation, supplier, partsupp, region, part, n - 1, j);
    }
}

} // verus!
