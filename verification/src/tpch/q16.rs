//! How many suppliers supply parts of each brand, kind and size.

use crate::error::Error;
use crate::float_bits::{descending, reversed, sort_rank, total_rank};
use crate::group_index::{row_of_key, GroupIndex, Key, RowIndex};
use crate::hashing::{hash_text, text_hash};
use crate::order::{is_stable_order, key_rows, stable_order};
use crate::table::{column_view, Catalog, QueryResult, ResultColumn, StringSearchColumn, Table};
use crate::tpch::sums::{
    count_at, first_words, group_keys, index_counts, key_count, list_keys, second_words, split_keys, third_words, Term,
};
use crate::tpch::support::{
    answers, begins_with, col, column, found, has_columns, has_part, lemma_order_bounds, missing, need, no_table_text,
    not_found, pick, picked, result, string_at, table_of, table_ok, text_begins_with, text_has,
};
use vstd::prelude::*;

verus! {

/// Whether a query text is this query.
pub open spec fn q16_text(sql: Seq<char>) -> bool {
    has_part(sql, "supplier_cnt"@) && has_part(sql, "count(DISTINCT ps_suppkey)"@) && has_part(sql, "MEDIUM POLISHED"@) && has_part(sql, "p_size IN"@)
}

pub fn is_q16(sql: &str) -> (b: bool)
    ensures
        b == q16_text(sql@),
{
    text_has(sql, "supplier_cnt") && text_has(sql, "count(DISTINCT ps_suppkey)") && text_has(sql, "MEDIUM POLISHED") && text_has(sql, "p_size IN")
}

/// The sizes that are asked for.
pub open spec fn wanted_size(size: u64) -> bool {
    size == 49 || size == 14 || size == 23 || size == 45 || size == 19 || size == 3 || size == 36 || size == 9
}

/// Marks of the parts that are asked for: not of the one brand, not of the one
/// kind, of one of the sizes.
pub open spec fn wanted_parts(part: Table) -> Seq<bool> {
    Seq::new(
        part.row_count as nat,
        |i: int|
            col(part, 3)[i] != text_hash("Brand#45"@) && wanted_size(col(part, 5)[i]) && !begins_with(
                string_at(part, 4, i),
                "MEDIUM POLISHED"@,
            ),
    )
}

/// The brand, kind and size that a supply row counts for.
pub open spec fn supply_group(part: Table, partsupp: Table, j: int) -> Term {
    match row_of_key(col(part, 0), wanted_parts(part), col(partsupp, 0)[j]) {
        Some(i) => Some(((col(part, 3)[i as int], col(part, 4)[i as int], col(part, 5)[i as int]), 0u64)),
        None => None,
    }
}

pub open spec fn supply_groups(part: Table, partsupp: Table) -> Seq<Term> {
    Seq::new(partsupp.row_count as nat, |j: int| supply_group(part, partsupp, j))
}

/// The group, by number, and the supplier of a supply row.
pub open spec fn supply_pair(groups: Seq<Key>, group: Term, supplier: u64) -> Term {
    match group {
        Some((k, _)) => Some(((groups.index_of(k) as u64, supplier, 0u64), 0u64)),
        None => None,
    }
}

pub open spec fn supply_pairs(part: Table, partsupp: Table) -> Seq<Term> {
    let rows = supply_groups(part, partsupp);
    Seq::new(rows.len(), |j: int| supply_pair(group_keys(rows), rows[j], col(partsupp, 1)[j]))
}

/// The groups of distinct pairs.
pub open spec fn pair_groups(pairs: Seq<Key>) -> Seq<Term> {
    Seq::new(pairs.len(), |i: int| Some(((pairs[i].0, 0u64, 0u64), 0u64)))
}

/// How many different suppliers each group has.
pub open spec fn supplier_counts(part: Table, partsupp: Table) -> Seq<u64> {
    let pairs = pair_groups(group_keys(supply_pairs(part, partsupp)));
    Seq::new(
        group_keys(supply_groups(part, partsupp)).len(),
        |g: int| key_count(pairs, (g as u64, 0u64, 0u64), pairs.len() as int) as u64,
    )
}

/// Sorting by the number of suppliers, the greatest first, then by brand, kind
/// and size.
pub open spec fn q16_order_keys(groups: Seq<Key>, counts: Seq<u64>) -> Seq<Seq<u64>> {
    Seq::new(
        groups.len(),
        |g: int| seq![descending(counts[g]), total_rank(groups[g].0), total_rank(groups[g].1), groups[g].2],
    )
}

/// The answer.
pub open spec fn q16_outcome(part: Table, partsupp: Table, r: Result<QueryResult, Error>) -> bool {
    if part.string_columns@[4] is None {
        not_found(r, "p_type StringSearchColumn"@)
    } else {
        let groups = group_keys(supply_groups(part, partsupp));
        let counts = supplier_counts(part, partsupp);
        let n = groups.len() as int;
        exists|order: Seq<usize>| #[trigger]
            is_stable_order(q16_order_keys(groups, counts), order) && answers(
                r,
                seq![
                    ("p_brand"@, picked(first_words(groups), order, n)),
                    ("p_type"@, picked(second_words(groups), order, n)),
                    ("p_size"@, picked(third_words(groups), order, n)),
                    ("supplier_cnt"@, picked(counts, order, n)),
                ],
                n,
            )
    }
}

fn mark_wanted(part: &Table, kinds: &StringSearchColumn) -> (m: Vec<bool>)
    requires
        has_columns(*part, 6),
        part.string_columns@[4] == Some(*kinds),
    ensures
        m@ == wanted_parts(*part),
{
    let unwanted: u64 = hash_text("Brand#45");
    let mut m: Vec<bool> = Vec::new();
    let mut i: usize = 0;
    while i < part.row_count
        invariant
            has_columns(*part, 6),
            part.string_columns@[4] == Some(*kinds),
            unwanted == text_hash("Brand#45"@),
            i <= part.row_count,
            m.len() == i,
            forall|k: int| 0 <= k < i ==> #[trigger] m@[k] == wanted_parts(*part)[k],
        decreases part.row_count - i,
    {
        let size: u64 = part.columns[5][i];
        let fits: bool = size == 49 || size == 14 || size == 23 || size == 45 || size == 19 || size == 3 || size == 36
            || size == 9;
        let wanted: bool = part.columns[3][i] != unwanted && fits && !text_begins_with(
            kinds.get(i),
            "MEDIUM POLISHED",
        );
        m.push(wanted);
        i = i + 1;
    }
    proof {
        assert(m@ =~= wanted_parts(*part));
    }
    m
}

/// What the query comes to on the tables of a catalog.
pub open spec fn q16_result(catalog: Catalog, r: Result<QueryResult, Error>) -> bool {
    if !found(catalog, "part"@) {
        not_found(r, no_table_text("part"@))
    } else if !found(catalog, "partsupp"@) {
        not_found(r, no_table_text("partsupp"@))
    } else {
        q16_outcome(
            table_of(catalog, "part"@),
            table_of(catalog, "partsupp"@),
            r,
        )
    }
}

/// Evaluates the query.
pub fn execute_q16_reformulated(catalog: &Catalog) -> (r: Result<QueryResult, Error>)
    requires
        table_ok(*catalog, "part"@, 6),
        table_ok(*catalog, "partsupp"@, 2),
    ensures
        q16_result(*catalog, r),
{
    let part: &Table = match need(catalog, "part") {
        Ok(t) => t,
        Err(e) => {
            return Err(e);
        },
    };
    let partsupp: &Table = match need(catalog, "partsupp") {
        Ok(t) => t,
        Err(e) => {
            return Err(e);
        },
    };
    q16_answer(part, partsupp)
}

/// Evaluates the query on its tables.
pub fn q16_answer(
    part: &Table,
    partsupp: &Table,
) -> (r: Result<QueryResult, Error>)
    requires
        has_columns(*part, 6),
        has_columns(*partsupp, 2),
    ensures
        q16_outcome(*part, *partsupp, r),
{
    let kinds: &StringSearchColumn = match &part.string_columns[4] {
        Some(s) => s,
        None => {
            return Err(missing("p_type StringSearchColumn"));
        },
    };
    let parts: RowIndex = RowIndex::build(&part.columns[0], &mark_wanted(part, kinds));
    let mut rows: Vec<Term> = Vec::new();
    let n: usize = partsupp.row_count;
    let mut j: usize = 0;
    while j < n
        invariant
            has_columns(*part, 6),
            has_columns(*partsupp, 2),
            n == partsupp.row_count,
            parts.wf(),
            parts.keys() == col(*part, 0),
            parts.marks() == wanted_parts(*part),
            j <= n,
            rows.len() == j,
            forall|k: int| 0 <= k < j ==> #[trigger] rows@[k] == supply_group(*part, *partsupp, k),
        decreases n - j,
    {
        let row: Term = match parts.find(partsupp.columns[0][j]) {
            Some(i) => Some(((part.columns[3][i], part.columns[4][i], part.columns[5][i]), 0)),
            None => None,
        };
        rows.push(row);
        j = j + 1;
    }
    proof {
        assert(rows@ =~= supply_groups(*part, *partsupp));
    }
    let (groups, _): (GroupIndex, Vec<u64>) = index_counts(&rows);
    proof {
        groups.keys_are_distinct();
    }
    let mut pairs: Vec<Term> = Vec::new();
    let mut q: usize = 0;
    while q < n
        invariant
            has_columns(*partsupp, 2),
            n == partsupp.row_count,
            rows.len() == n,
            rows@ == supply_groups(*part, *partsupp),
            groups.wf(),
            groups@ == group_keys(rows@),
            groups@.no_duplicates(),
            q <= n,
            pairs.len() == q,
            forall|k: int|
                0 <= k < q ==> #[trigger] pairs@[k] == supply_pair(groups@, rows@[k], col(*partsupp, 1)[k]),
        decreases n - q,
    {
        match rows[q] {
            Some((key, _)) => {
                match groups.find(key) {
                    Some(g) => {
                        proof {
                            let w = groups@.index_of(key);
                            assert(groups@.contains(key));
                            assert(w == g);
                        }
                        pairs.push(Some(((g as u64, partsupp.columns[1][q], 0), 0)));
                    },
                    None => {
                        proof {
                            crate::tpch::sums::keys_seen_are_row_keys(rows@, rows@.len() as int, key);
                            assert(crate::tpch::sums::row_has(rows@, q as int, key));
                            assert(false);
                        }
                        pairs.push(None);
                    },
                }
            },
            None => {
                pairs.push(None);
            },
        }
        q = q + 1;
    }
    proof {
        assert(pairs@ =~= supply_pairs(*part, *partsupp));
    }
    let (distinct, _): (GroupIndex, Vec<u64>) = index_counts(&pairs);
    let distinct_pairs: Vec<Key> = list_keys(&distinct);
    let mut by_group: Vec<Term> = Vec::new();
    let mut d: usize = 0;
    while d < distinct_pairs.len()
        invariant
            d <= distinct_pairs.len(),
            by_group.len() == d,
            forall|k: int| 0 <= k < d ==> #[trigger] by_group@[k] == pair_groups(distinct_pairs@)[k],
        decreases distinct_pairs.len() - d,
    {
        by_group.push(Some(((distinct_pairs[d].0, 0, 0), 0)));
        d = d + 1;
    }
    proof {
        assert(by_group@ =~= pair_groups(distinct_pairs@));
    }
    let (slots, slot_counts): (GroupIndex, Vec<u64>) = index_counts(&by_group);
    let keys_of: Vec<Key> = list_keys(&groups);
    let mut counts: Vec<u64> = Vec::new();
    let mut keys: Vec<Vec<u64>> = Vec::new();
    let mut g: usize = 0;
    while g < keys_of.len()
        invariant
            slots.wf(),
            slot_counts.len() == slots@.len(),
            by_group@ == pair_groups(distinct_pairs@),
            forall|k: Key| !#[trigger] slots@.contains(k) ==> key_count(by_group@, k, by_group@.len() as int) == 0,
            forall|h: int|
                0 <= h < slots@.len() ==> slot_counts@[h] == key_count(
                    by_group@,
                    #[trigger] slots@[h],
                    by_group@.len() as int,
                ),
            g <= keys_of.len(),
            counts.len() == g,
            keys.len() == g,
            forall|k: int|
                0 <= k < g ==> #[trigger] counts@[k] == key_count(
                    by_group@,
                    (k as u64, 0u64, 0u64),
                    by_group@.len() as int,
                ),
            forall|k: int|
                0 <= k < g ==> (#[trigger] keys@[k])@ == seq![
                    descending(counts@[k]),
                    total_rank(keys_of@[k].0),
                    total_rank(keys_of@[k].1),
                    keys_of@[k].2,
                ],
        decreases keys_of.len() - g,
    {
        let count: u64 = count_at(&slots, &slot_counts, (g as u64, 0, 0), Ghost(by_group@));
        let mut key: Vec<u64> = Vec::new();
        key.push(reversed(count));
        key.push(sort_rank(keys_of[g].0));
        key.push(sort_rank(keys_of[g].1));
        key.push(keys_of[g].2);
        proof {
            assert(key@ =~= seq![
                descending(count),
                total_rank(keys_of@[g as int].0),
                total_rank(keys_of@[g as int].1),
                keys_of@[g as int].2,
            ]);
        }
        counts.push(count);
        keys.push(key);
        g = g + 1;
    }
    proof {
        assert(counts@ =~= supplier_counts(*part, *partsupp));
        assert(key_rows(keys@) =~= q16_order_keys(keys_of@, counts@));
    }
    let order: Vec<usize> = stable_order(&keys);
    proof {
        lemma_order_bounds(key_rows(keys@), order@);
    }
    let (brands, kinds_of, sizes): (Vec<u64>, Vec<u64>, Vec<u64>) = split_keys(&keys_of);
    let rows_out: usize = order.len();
    let mut columns: Vec<ResultColumn> = Vec::new();
    columns.push(column("p_brand", pick(&brands, &order, rows_out)));
    columns.push(column("p_type", pick(&kinds_of, &order, rows_out)));
    columns.push(column("p_size", pick(&sizes, &order, rows_out)));
    columns.push(column("supplier_cnt", pick(&counts, &order, rows_out)));
    proof {
        assert(columns@.map_values(|c: ResultColumn| column_view(c)) =~= seq![
            ("p_brand"@, picked(brands@, order@, rows_out as int)),
            ("p_type"@, picked(kinds_of@, order@, rows_out as int)),
            ("p_size"@, picked(sizes@, order@, rows_out as int)),
            ("supplier_cnt"@, picked(counts@, order@, rows_out as int)),
        ]);
    }
    result(columns, rows_out)
}

} // verus!
