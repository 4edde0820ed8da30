//! How the rows of the answers on regions and countries hang together.

use crate::error::Error;
use crate::float_bits::FloatOp;
use crate::group_index::{row_of_key, Key};
use crate::hashing::text_hash;
use crate::order::is_stable_order;
use crate::table::{QueryResult, Table};
use crate::tpch::part_laws::{lemma_some_with, some_with};
use crate::tpch::q16::{pair_groups, supplier_counts, supply_groups, supply_pairs};
use crate::tpch::q2::{
    best_supply, brass_parts, q2_order_keys, q2_outcome, region_suppliers, supplier_cells, supplier_nations,
};
use crate::tpch::q5::{nations_of, q5_lines, q5_outcome, q5_revenues};
use crate::tpch::row_laws::{held_by, last_with, lemma_found, lemma_found_with};
use crate::tpch::sums::{group_keys, key_count, keys_seen_are_row_keys, row_has, slot_sum, Term};
use crate::tpch::support::{
    answers, cells_by_key, cells_of_rows, col, ends_with, first_key, greatest_first, has_columns,
    limited, lemma_order_bounds, marked_cells, marked_rows, marked_rows_are_marked, marks_equal,
    picked, string_at,
};
use vstd::prelude::*;

verus! {

/// The key of a name is that beside the first row that holds the name.
pub proof fn keys_are_found_beside_the_first_name(names: Seq<u64>, keys: Seq<u64>, n: int, name: u64, i: int)
    requires
        0 <= i < n <= names.len(),
        n <= keys.len(),
        names[i] == name,
        forall|j: int| 0 <= j < i ==> #[trigger] names[j] != name,
    ensures
        first_key(names, keys, n, name) == Some(keys[i]),
    decreases n,
{
    lemma_no_key(names, keys, i, name);
    if i < n - 1 {
        keys_are_found_beside_the_first_name(names, keys, n - 1, name, i);
    }
}

proof fn lemma_no_key(names: Seq<u64>, keys: Seq<u64>, n: int, name: u64)
    requires
        0 <= n <= names.len(),
        forall|j: int| 0 <= j < n ==> #[trigger] names[j] != name,
    ensures
        first_key(names, keys, n, name) is None,
    decreases n,
{
    if n > 0 {
        lemma_no_key(names, keys, n - 1, name);
    }
}

/// The last row of a supplier whose nation is of the region.
pub open spec fn last_supplier(nation: Table, supplier: Table, region: u64, key: u64, s: int) -> bool {
    &&& held_by(supplier, 0, key, s) && some_with(nation, 0, col(supplier, 3)[s], 2, region)
    &&& forall|r: int| r > s && #[trigger] held_by(supplier, 0, key, r) ==> !some_with(
        nation,
        0,
        col(supplier, 3)[r],
        2,
        region,
    )
}

proof fn lemma_supplier_cell(nation: Table, supplier: Table, region: u64, key: u64, s: int)
    requires
        has_columns(nation, 3),
        has_columns(supplier, 4),
        last_supplier(nation, supplier, region, key, s),
    ensures
        row_of_key(col(supplier, 0), region_suppliers(nation, supplier, region), key) == Some(s as usize),
{
    let marks = region_suppliers(nation, supplier, region);
    lemma_found(supplier, 0, marks, key);
    assert forall|r: int| #[trigger] held_by(supplier, 0, key, r) implies marks[r] == some_with(
        nation,
        0,
        col(supplier, 3)[r],
        2,
        region,
    ) by {
        lemma_some_with(nation, 0, col(supplier, 3)[r], 2, region);
    }
}

/// The last row of a part of size fifteen whose type ends so.
pub open spec fn last_brass(part: Table, key: u64, p: int) -> bool {
    &&& held_by(part, 0, key, p) && col(part, 5)[p] == 15 && ends_with(string_at(part, 4, p), "BRASS"@)
    &&& forall|r: int| r > p && #[trigger] held_by(part, 0, key, r) ==> !(col(part, 5)[r] == 15 && ends_with(
        string_at(part, 4, r),
        "BRASS"@,
    ))
}

proof fn lemma_brass_cell(part: Table, key: u64, p: int)
    requires
        has_columns(part, 6),
        last_brass(part, key, p),
    ensures
        row_of_key(col(part, 0), brass_parts(part), key) == Some(p as usize),
{
    lemma_found(part, 0, brass_parts(part), key);
}

/// Each row of the answer on suppliers of brass parts is of one supply row that is listed: its part with the maker,
/// and the cells of its supplier and of the supplier's nation.
pub proof fn brass_rows_are_of_one_offer(
    region: Table,
    nation: Table,
    supplier: Table,
    part: Table,
    partsupp: Table,
    q: QueryResult,
    key: u64,
    i: int,
)
    requires
        has_columns(nation, 3),
        has_columns(supplier, 7),
        has_columns(part, 6),
        has_columns(partsupp, 4),
        q2_outcome(region, nation, supplier, part, partsupp, Ok::<QueryResult, Error>(q)),
        first_key(col(region, 1), col(region, 0), region.row_count as int, text_hash("EUROPE"@)) == Some(key),
        0 <= i < q.row_count,
    ensures
        q@[0].0 == "s_acctbal"@ && q@[1].0 == "s_name"@ && q@[2].0 == "n_name"@ && q@[3].0 == "p_partkey"@,
        q@[4].0 == "p_mfgr"@ && q@[5].0 == "s_address"@ && q@[6].0 == "s_phone"@ && q@[7].0 == "s_comment"@,
        exists|j: int|
            0 <= j < partsupp.row_count && #[trigger] best_supply(nation, supplier, part, partsupp, key)[j]
                && offer_row(nation, supplier, part, partsupp, key, q, i, j),
{
    let marks = best_supply(nation, supplier, part, partsupp, key);
    let listed = marked_rows(marks, marks.len() as int);
    let which = cells_of_rows(col(partsupp, 0), listed);
    let who = cells_of_rows(col(partsupp, 1), listed);
    let balance = supplier_cells(nation, supplier, key, 5, who);
    let name = supplier_cells(nation, supplier, key, 1, who);
    let country = supplier_nations(nation, supplier, key, who);
    let maker = cells_by_key(col(part, 0), brass_parts(part), col(part, 2), which, 0);
    let keys = q2_order_keys(balance, country, name, which);
    let n = limited(listed.len() as int, 100);
    let order = choose|order: Seq<usize>| #[trigger]
        is_stable_order(keys, order) && answers(
        Ok::<QueryResult, Error>(q),
        seq![
            ("s_acctbal"@, picked(balance, order, n)),
            ("s_name"@, picked(name, order, n)),
            ("n_name"@, picked(country, order, n)),
            ("p_partkey"@, picked(which, order, n)),
            ("p_mfgr"@, picked(maker, order, n)),
            ("s_address"@, picked(supplier_cells(nation, supplier, key, 2, who), order, n)),
            ("s_phone"@, picked(supplier_cells(nation, supplier, key, 4, who), order, n)),
            ("s_comment"@, picked(supplier_cells(nation, supplier, key, 6, who), order, n)),
        ],
        n,
    );
    lemma_order_bounds(keys, order);
    marked_rows_are_marked(marks, marks.len() as int);
    let a = order[i] as int;
    let j = listed[a] as int;
    let sk = col(partsupp, 1)[j];
    assert(best_supply(nation, supplier, part, partsupp, key)[j]);
    assert forall|s: int| #[trigger] last_supplier(nation, supplier, key, sk, s) implies q@[0].1[i] == col(supplier, 5)[s]
        && q@[1].1[i] == col(supplier, 1)[s] && q@[5].1[i] == col(supplier, 2)[s] && q@[6].1[i] == col(supplier, 4)[s]
        && q@[7].1[i] == col(supplier, 6)[s] by {
        lemma_supplier_cell(nation, supplier, key, sk, s);
    }
    assert forall|s: int, m: int| #[trigger]
        last_supplier(nation, supplier, key, sk, s) && #[trigger] last_with(
            nation,
            0,
            col(supplier, 3)[s],
            2,
            key,
            m,
        ) implies q@[2].1[i] == col(nation, 1)[m] by {
        lemma_supplier_cell(nation, supplier, key, sk, s);
        lemma_found_with(nation, 0, col(supplier, 3)[s], 2, key);
        assert(held_by(nation, 0, col(supplier, 3)[s], m));
    }
    assert forall|p: int| #[trigger] last_brass(part, col(partsupp, 0)[j], p) implies q@[4].1[i] == col(part, 2)[p] by {
        lemma_brass_cell(part, col(partsupp, 0)[j], p);
    }
    assert(offer_row(nation, supplier, part, partsupp, key, q, i, j));
}

/// The cells of a row of the answer are those of a supply row.
pub open spec fn offer_row(
    nation: Table,
    supplier: Table,
    part: Table,
    partsupp: Table,
    region: u64,
    q: QueryResult,
    i: int,
    j: int,
) -> bool {
    let sk = col(partsupp, 1)[j];
    &&& q@[3].1[i] == col(partsupp, 0)[j]
    &&& forall|s: int| #[trigger]
        last_supplier(nation, supplier, region, sk, s) ==> q@[0].1[i] == col(supplier, 5)[s] && q@[1].1[i] == col(
            supplier,
            1,
        )[s] && q@[5].1[i] == col(supplier, 2)[s] && q@[6].1[i] == col(supplier, 4)[s] && q@[7].1[i] == col(
            supplier,
            6,
        )[s]
    &&& forall|s: int, m: int| #[trigger]
        last_supplier(nation, supplier, region, sk, s) && #[trigger] last_with(
            nation,
            0,
            col(supplier, 3)[s],
            2,
            region,
            m,
        ) ==> q@[2].1[i] == col(nation, 1)[m]
    &&& forall|p: int| #[trigger] last_brass(part, col(partsupp, 0)[j], p) ==> q@[4].1[i] == col(part, 2)[p]
}

/// Each row of the answer on local revenues has the name of a nation of the region and the revenue of its number.
pub proof fn local_rows_are_of_one_nation<F: Fn(FloatOp, u64, u64) -> u64>(
    f: F,
    region: Table,
    nation: Table,
    supplier: Table,
    customer: Table,
    orders: Table,
    lineitem: Table,
    q: QueryResult,
    key: u64,
    i: int,
)
    requires
        has_columns(nation, 3),
        q5_outcome(f, region, nation, supplier, customer, orders, lineitem, Ok::<QueryResult, Error>(q)),
        first_key(col(region, 1), col(region, 0), region.row_count as int, text_hash("ASIA"@)) == Some(key),
        0 <= i < q.row_count,
    ensures
        q@[0].0 == "n_name"@ && q@[1].0 == "revenue"@,
        ({
            let names = marked_cells(col(nation, 1), marks_equal(col(nation, 2), key), nation.row_count as int);
            let lines = q5_lines(f, nation, supplier, customer, orders, lineitem, key);
            &&& q.row_count == names.len()
            &&& exists|g: int|
                0 <= g < names.len() && q@[0].1[i] == #[trigger] names[g] && q@[1].1[i] == slot_sum(f, lines, g, 65536)
        }),
{
    let marks = nations_of(nation, key);
    let names = marked_cells(col(nation, 1), marks, marks.len() as int);
    let lines = q5_lines(f, nation, supplier, customer, orders, lineitem, key);
    let revenues = q5_revenues(f, lines, names.len());
    let keys = greatest_first(revenues);
    let n = names.len() as int;
    let order = choose|order: Seq<usize>| #[trigger]
        is_stable_order(keys, order) && answers(
        Ok::<QueryResult, Error>(q),
        seq![("n_name"@, picked(names, order, n)), ("revenue"@, picked(revenues, order, n))],
        n,
    );
    lemma_order_bounds(keys, order);
    let g = order[i] as int;
    assert(marks.len() == nation.row_count);
    assert(q@[0].1[i] == names[g] && q@[1].1[i] == revenues[g]);
}

/// The suppliers of a group among the first `n` pairs.
spec fn group_suppliers(pairs: Seq<Key>, g: u64, n: int) -> Seq<u64>
    decreases n,
{
    if n <= 0 {
        Seq::empty()
    } else if pairs[n - 1].0 == g {
        group_suppliers(pairs, g, n - 1).push(pairs[n - 1].1)
    } else {
        group_suppliers(pairs, g, n - 1)
    }
}

proof fn lemma_group_suppliers(pairs: Seq<Key>, g: u64, n: int)
    requires
        0 <= n <= pairs.len(),
        pairs.no_duplicates(),
        forall|i: int| 0 <= i < pairs.len() ==> (#[trigger] pairs[i]).2 == 0,
    ensures
        group_suppliers(pairs, g, n).len() == key_count(pair_groups(pairs), (g, 0u64, 0u64), n),
        group_suppliers(pairs, g, n).no_duplicates(),
        forall|s: u64| #[trigger]
            group_suppliers(pairs, g, n).contains(s) <==> exists|i: int| 0 <= i < n && #[trigger] pairs[i] == (g, s, 0u64),
    decreases n,
{
    if n > 0 {
        let m = n - 1;
        lemma_group_suppliers(pairs, g, m);
        let before = group_suppliers(pairs, g, m);
        let now = group_suppliers(pairs, g, n);
        assert(pairs[m].2 == 0);
        assert(pair_groups(pairs)[m] == Some(((pairs[m].0, 0u64, 0u64), 0u64)));
        if pairs[m].0 == g {
            let s = pairs[m].1;
            assert(!before.contains(s)) by {
                if before.contains(s) {
                    let i = choose|i: int| 0 <= i < m && #[trigger] pairs[i] == (g, s, 0u64);
                    assert(pairs[i] == pairs[m]);
                }
            }
        }
        assert forall|s: u64| #[trigger] now.contains(s) <==> exists|i: int| 0 <= i < n && #[trigger] pairs[i] == (
            g,
            s,
            0u64,
        ) by {
            if now.contains(s) {
                let w = choose|w: int| 0 <= w < now.len() && now[w] == s;
                if w < before.len() {
                    assert(before[w] == s);
                    assert(before.contains(s));
                    let i = choose|i: int| 0 <= i < m && #[trigger] pairs[i] == (g, s, 0u64);
                    assert(pairs[i] == (g, s, 0u64));
                } else {
                    assert(pairs[m] == (g, s, 0u64));
                }
            }
            if exists|i: int| 0 <= i < n && #[trigger] pairs[i] == (g, s, 0u64) {
                let i = choose|i: int| 0 <= i < n && #[trigger] pairs[i] == (g, s, 0u64);
                if i < m {
                    assert(before.contains(s));
                    let w = choose|w: int| 0 <= w < before.len() && before[w] == s;
                    assert(now[w] == s);
                } else {
                    assert(now[before.len() as int] == s);
                }
            }
        }
    }
}

/// The number of suppliers of a kind of parts is that of the different suppliers with a supply row of the kind.
pub proof fn suppliers_of_a_kind_are_counted_once(part: Table, partsupp: Table, g: int)
    requires
        has_columns(partsupp, 2),
        0 <= g < group_keys(supply_groups(part, partsupp)).len(),
        group_keys(supply_groups(part, partsupp)).len() <= u64::MAX,
    ensures
        exists|who: Seq<u64>| #[trigger]
            who.no_duplicates() && supplier_counts(part, partsupp)[g] == who.len() as u64 && (forall|s: u64| #[trigger]
                who.contains(s) <==> exists|j: int|
                    0 <= j < partsupp.row_count && #[trigger] col(partsupp, 1)[j] == s && row_has(
                        supply_groups(part, partsupp),
                        j,
                        group_keys(supply_groups(part, partsupp))[g],
                    )),
{
    let rows = supply_groups(part, partsupp);
    let groups = group_keys(rows);
    let pairs = supply_pairs(part, partsupp);
    let list = group_keys(pairs);
    let k = groups[g];
    keys_seen_are_row_keys(rows, rows.len() as int, k);
    assert forall|i: int| 0 <= i < list.len() implies (#[trigger] list[i]).2 == 0 by {
        keys_seen_are_row_keys(pairs, pairs.len() as int, list[i]);
        assert(list.contains(list[i]));
        let j = choose|j: int| 0 <= j < pairs.len() && #[trigger] row_has(pairs, j, list[i]);
        assert(pairs[j] is Some);
    }
    keys_seen_are_row_keys(pairs, pairs.len() as int, k);
    lemma_group_suppliers(list, g as u64, list.len() as int);
    let who = group_suppliers(list, g as u64, list.len() as int);
    assert forall|s: u64| #[trigger] who.contains(s) <==> exists|j: int|
        0 <= j < partsupp.row_count && #[trigger] col(partsupp, 1)[j] == s && row_has(rows, j, k) by {
        let pk: Key = (g as u64, s, 0u64);
        keys_seen_are_row_keys(pairs, pairs.len() as int, pk);
        if who.contains(s) {
            let i = choose|i: int| 0 <= i < list.len() && #[trigger] list[i] == pk;
            assert(list.contains(pk));
            let j = choose|j: int| 0 <= j < pairs.len() && #[trigger] row_has(pairs, j, pk);
            lemma_index(groups, rows, j);
            assert(col(partsupp, 1)[j] == s && row_has(rows, j, k));
        }
        if exists|j: int| 0 <= j < partsupp.row_count && #[trigger] col(partsupp, 1)[j] == s && row_has(rows, j, k) {
            let j = choose|j: int| 0 <= j < partsupp.row_count && #[trigger] col(partsupp, 1)[j] == s && row_has(rows, j, k);
            lemma_index(groups, rows, j);
            assert(groups.index_of(k) == g);
            assert(row_has(pairs, j, pk));
            assert(list.contains(pk));
            let i = choose|i: int| 0 <= i < list.len() && list[i] == pk;
            assert(list[i] == (g as u64, s, 0u64));
        }
    }
    assert(who.no_duplicates() && supplier_counts(part, partsupp)[g] == who.len() as u64);
}

proof fn lemma_index(groups: Seq<Key>, rows: Seq<Term>, j: int)
    requires
        groups == group_keys(rows),
        0 <= j < rows.len(),
    ensures
        rows[j] matches Some((k, _)) ==> 0 <= groups.index_of(k) < groups.len() && groups[groups.index_of(k)] == k,
        groups.no_duplicates(),
{
    match rows[j] {
        Some((k, _)) => {
            keys_seen_are_row_keys(rows, rows.len() as int, k);
            assert(row_has(rows, j, k));
            let i = choose|i: int| 0 <= i < groups.len() && groups[i] == k;
            assert(groups[i] == k);
        },
        None => {
            keys_seen_are_row_keys(rows, rows.len() as int, (0, 0, 0));
        },
    }
}

} // verus!
