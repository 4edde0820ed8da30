//! Suppliers of one nation who alone kept an order of several suppliers waiting.

use crate::error::Error;
use crate::float_bits::{descending, reversed, sort_rank, total_rank};
use crate::group_index::{row_of_key, GroupIndex, Key, RowIndex};
use crate::hashing::{hash_text, text_hash};
use crate::order::{is_stable_order, key_rows, stable_order};
use crate::table::{column_view, Catalog, QueryResult, ResultColumn, Table};
use crate::tpch::q4::{late_lines, mark_late};
use crate::tpch::sums::{
    count_at, count_groups, counts_of, first_words, group_keys, index_counts, key_count, row_has, split_keys, Term,
};
use crate::tpch::support::{
    answers, col, column, find_key, first_key, found, has_columns, has_part, lemma_order_bounds, limited, mark_equal,
    marks_equal, need, no_table_text, not_found, pick, picked, result, table_of, table_ok, text_has,
};
use vstd::prelude::*;

verus! {

/// Whether a query text is this query.
pub open spec fn q21_text(sql: Seq<char>) -> bool {
    has_part(sql, "numwait"@) && has_part(sql, "l1.l_receiptdate > l1.l_commitdate"@) && has_part(sql, "l2.l_suppkey <> l1.l_suppkey"@) && has_part(sql, "l3.l_receiptdate > l3.l_commitdate"@) && has_part(sql, "SAUDI ARABIA"@)
}

pub fn is_q21(sql: &str) -> (b: bool)
    ensures
        b == q21_text(sql@),
{
    text_has(sql, "numwait") && text_has(sql, "l1.l_receiptdate > l1.l_commitdate") && text_has(sql, "l2.l_suppkey <> l1.l_suppkey") && text_has(sql, "l3.l_receiptdate > l3.l_commitdate") && text_has(sql, "SAUDI ARABIA")
}

/// How many suppliers are listed.
pub const Q21_LIMIT: usize = 100;

/// The lines by order: all of them, or the late ones.
pub open spec fn order_lines(lineitem: Table) -> Seq<Term> {
    Seq::new(lineitem.row_count as nat, |i: int| Some(((col(lineitem, 0)[i], 0u64, 0u64), 0u64)))
}

pub open spec fn late_order_lines(lineitem: Table) -> Seq<Term> {
    Seq::new(
        lineitem.row_count as nat,
        |i: int|
            if late_lines(lineitem)[i] {
                Some(((col(lineitem, 0)[i], 0u64, 0u64), 0u64))
            } else {
                None
            },
    )
}

/// A number of lines of an order, kept in 32 bits.
pub open spec fn lines_of(lines: Seq<Term>, order: u64) -> int {
    key_count(lines, (order, 0u64, 0u64), lines.len() as int) % 0x1_0000_0000
}

/// The line is late, its order has several lines, and no other of them is late.
pub open spec fn alone_late(lineitem: Table, i: int) -> bool {
    &&& late_lines(lineitem)[i]
    &&& lines_of(order_lines(lineitem), col(lineitem, 0)[i]) >= 2
    &&& lines_of(late_order_lines(lineitem), col(lineitem, 0)[i]) == 1
}

/// The supplier, by name, whom a line counts against.
pub open spec fn q21_line(lineitem: Table, orders: Table, supplier: Table, country: u64, i: int) -> Term {
    if alone_late(lineitem, i) && row_of_key(
        col(orders, 0),
        marks_equal(col(orders, 2), text_hash("F"@)),
        col(lineitem, 0)[i],
    ) is Some {
        match row_of_key(col(supplier, 0), marks_equal(col(supplier, 3), country), col(lineitem, 2)[i]) {
            Some(s) => Some(((col(supplier, 1)[s as int], 0u64, 0u64), 0u64)),
            None => None,
        }
    } else {
        None
    }
}

pub open spec fn q21_lines(lineitem: Table, orders: Table, supplier: Table, country: u64) -> Seq<Term> {
    Seq::new(lineitem.row_count as nat, |i: int| q21_line(lineitem, orders, supplier, country, i))
}

/// Sorting by count, the greatest first, then by name.
pub open spec fn q21_order_keys(counts: Seq<u64>, names: Seq<u64>) -> Seq<Seq<u64>> {
    Seq::new(counts.len(), |i: int| seq![descending(counts[i]), total_rank(names[i])])
}

/// The answer.
pub open spec fn q21_outcome(
    lineitem: Table,
    orders: Table,
    supplier: Table,
    nation: Table,
    r: Result<QueryResult, Error>,
) -> bool {
    match first_key(col(nation, 1), col(nation, 0), nation.row_count as int, text_hash("SAUDI ARABIA"@)) {
        None => answers(r, seq![("s_name"@, Seq::empty()), ("numwait"@, Seq::empty())], 0),
        Some(country) => {
            let lines = q21_lines(lineitem, orders, supplier, country);
            let groups = group_keys(lines);
            let names = first_words(groups);
            let counts = counts_of(lines, groups);
            let n = limited(groups.len() as int, Q21_LIMIT as int);
            exists|order: Seq<usize>| #[trigger]
                is_stable_order(q21_order_keys(counts, names), order) && answers(
                    r,
                    seq![("s_name"@, picked(names, order, n)), ("numwait"@, picked(counts, order, n))],
                    n,
                )
        },
    }
}

/// What the query comes to on the tables of a catalog.
pub open spec fn q21_result(catalog: Catalog, r: Result<QueryResult, Error>) -> bool {
    if !found(catalog, "lineitem"@) {
        not_found(r, no_table_text("lineitem"@))
    } else if !found(catalog, "orders"@) {
        not_found(r, no_table_text("orders"@))
    } else if !found(catalog, "supplier"@) {
        not_found(r, no_table_text("supplier"@))
    } else if !found(catalog, "nation"@) {
        not_found(r, no_table_text("nation"@))
    } else {
        q21_outcome(
            table_of(catalog, "lineitem"@),
            table_of(catalog, "orders"@),
            table_of(catalog, "supplier"@),
            table_of(catalog, "nation"@),
            r,
        )
    }
}

/// Evaluates the query.
pub fn execute_q21_reformulated(catalog: &Catalog) -> (r: Result<QueryResult, Error>)
    requires
        table_ok(*catalog, "lineitem"@, 13),
        table_ok(*catalog, "orders"@, 3),
        table_ok(*catalog, "supplier"@, 4),
        table_ok(*catalog, "nation"@, 2),
    ensures
        q21_result(*catalog, r),
{
    let lineitem: &Table = match need(catalog, "lineitem") {
        Ok(t) => t,
        Err(e) => {
            return Err(e);
        },
    };
    let orders: &Table = match need(catalog, "orders") {
        Ok(t) => t,
        Err(e) => {
            return Err(e);
        },
    };
    let supplier: &Table = match need(catalog, "supplier") {
        Ok(t) => t,
        Err(e) => {
            return Err(e);
        },
    };
    let nation: &Table = match need(catalog, "nation") {
        Ok(t) => t,
        Err(e) => {
            return Err(e);
        },
    };
    q21_answer(lineitem, orders, supplier, nation)
}

/// Evaluates the query on its tables.
pub fn q21_answer(
    lineitem: &Table,
    orders: &Table,
    supplier: &Table,
    nation: &Table,
) -> (r: Result<QueryResult, Error>)
    requires
        has_columns(*lineitem, 13),
        has_columns(*orders, 3),
        has_columns(*supplier, 4),
        has_columns(*nation, 2),
    ensures
        q21_outcome(*lineitem, *orders, *supplier, *nation, r),
{
    let n: usize = lineitem.row_count;
    let late: Vec<bool> = mark_late(lineitem);
    let mut all_lines: Vec<Term> = Vec::new();
    let mut late_only: Vec<Term> = Vec::new();
    let mut j: usize = 0;
    while j < n
        invariant
            has_columns(*lineitem, 13),
            n == lineitem.row_count,
            late@ == late_lines(*lineitem),
            j <= n,
            all_lines.len() == j,
            late_only.len() == j,
            forall|k: int| 0 <= k < j ==> #[trigger] all_lines@[k] == order_lines(*lineitem)[k],
            forall|k: int| 0 <= k < j ==> #[trigger] late_only@[k] == late_order_lines(*lineitem)[k],
        decreases n - j,
    {
        let line: Term = Some(((lineitem.columns[0][j], 0, 0), 0));
        all_lines.push(line);
        if late[j] {
            late_only.push(line);
        } else {
            late_only.push(None);
        }
        j = j + 1;
    }
    proof {
        assert(all_lines@ =~= order_lines(*lineitem));
        assert(late_only@ =~= late_order_lines(*lineitem));
    }
    let (groups, counts): (GroupIndex, Vec<u64>) = index_counts(&all_lines);
    let (late_groups, late_counts): (GroupIndex, Vec<u64>) = index_counts(&late_only);
    let finished: RowIndex = RowIndex::build(&orders.columns[0], &mark_equal(&orders.columns[2], hash_text("F")));
    let country: u64 = match find_key(&nation.columns[1], &nation.columns[0], hash_text("SAUDI ARABIA")) {
        Some(k) => k,
        None => {
            let mut none: Vec<ResultColumn> = Vec::new();
            none.push(column("s_name", Vec::new()));
            none.push(column("numwait", Vec::new()));
            proof {
                assert(none@.map_values(|c: ResultColumn| column_view(c)) =~= seq![
                    ("s_name"@, Seq::empty()),
                    ("numwait"@, Seq::empty()),
                ]);
            }
            return result(none, 0);
        },
    };
    let sellers: RowIndex = RowIndex::build(&supplier.columns[0], &mark_equal(&supplier.columns[3], country));
    let mut lines: Vec<Term> = Vec::new();
    let mut i: usize = 0;
    while i < n
        invariant
            has_columns(*lineitem, 13),
            has_columns(*supplier, 4),
            n == lineitem.row_count,
            late@ == late_lines(*lineitem),
            all_lines@ == order_lines(*lineitem),
            late_only@ == late_order_lines(*lineitem),
            groups.wf(),
            counts.len() == groups@.len(),
            forall|k: Key| !#[trigger] groups@.contains(k) ==> key_count(all_lines@, k, all_lines@.len() as int) == 0,
            forall|g: int|
                0 <= g < groups@.len() ==> counts@[g] == key_count(
                    all_lines@,
                    #[trigger] groups@[g],
                    all_lines@.len() as int,
                ),
            late_groups.wf(),
            late_counts.len() == late_groups@.len(),
            forall|k: Key|
                !#[trigger] late_groups@.contains(k) ==> key_count(late_only@, k, late_only@.len() as int) == 0,
            forall|g: int|
                0 <= g < late_groups@.len() ==> late_counts@[g] == key_count(
                    late_only@,
                    #[trigger] late_groups@[g],
                    late_only@.len() as int,
                ),
            finished.wf(),
            finished.keys() == col(*orders, 0),
            finished.marks() == marks_equal(col(*orders, 2), text_hash("F"@)),
            sellers.wf(),
            sellers.keys() == col(*supplier, 0),
            sellers.marks() == marks_equal(col(*supplier, 3), country),
            i <= n,
            lines.len() == i,
            forall|k: int| 0 <= k < i ==> #[trigger] lines@[k] == q21_line(*lineitem, *orders, *supplier, country, k),
        decreases n - i,
    {
        let key: u64 = lineitem.columns[0][i];
        let mut line: Term = None;
        if late[i] {
            let all: u64 = count_at(&groups, &counts, (key, 0, 0), Ghost(all_lines@)) % 0x1_0000_0000;
            let waiting: u64 = count_at(&late_groups, &late_counts, (key, 0, 0), Ghost(late_only@)) % 0x1_0000_0000;
            if all >= 2 && waiting == 1 && finished.holds(key) {
                line = match sellers.find(lineitem.columns[2][i]) {
                    Some(s) => Some(((supplier.columns[1][s], 0, 0), 0)),
                    None => None,
                };
            }
        }
        lines.push(line);
        i = i + 1;
    }
    proof {
        assert(lines@ =~= q21_lines(*lineitem, *orders, *supplier, country));
    }
    let (waited, waits): (Vec<Key>, Vec<u64>) = count_groups(&lines);
    proof {
        assert(waits@ =~= counts_of(lines@, waited@));
    }
    let (names, _, _): (Vec<u64>, Vec<u64>, Vec<u64>) = split_keys(&waited);
    let mut keys: Vec<Vec<u64>> = Vec::new();
    let mut g: usize = 0;
    while g < names.len()
        invariant
            waits.len() == names.len(),
            g <= names.len(),
            keys.len() == g,
            forall|k: int| 0 <= k < g ==> (#[trigger] keys@[k])@ == q21_order_keys(waits@, names@)[k],
        decreases names.len() - g,
    {
        let mut key: Vec<u64> = Vec::new();
        key.push(reversed(waits[g]));
        key.push(sort_rank(names[g]));
        proof {
            assert(key@ =~= q21_order_keys(waits@, names@)[g as int]);
        }
        keys.push(key);
        g = g + 1;
    }
    proof {
        assert(key_rows(keys@) =~= q21_order_keys(waits@, names@));
    }
    let order: Vec<usize> = stable_order(&keys);
    proof {
        lemma_order_bounds(key_rows(keys@), order@);
    }
    let rows: usize = if order.len() < Q21_LIMIT {
        order.len()
    } else {
        Q21_LIMIT
    };
    let mut columns: Vec<ResultColumn> = Vec::new();
    columns.push(column("s_name", pick(&names, &order, rows)));
    columns.push(column("numwait", pick(&waits, &order, rows)));
    proof {
        assert(columns@.map_values(|c: ResultColumn| column_view(c)) =~= seq![
            ("s_name"@, picked(names@, order@, rows as int)),
            ("numwait"@, picked(waits@, order@, rows as int)),
        ]);
    }
    result(columns, rows)
}

proof fn lemma_counts_rows(lines: Seq<Term>, k: Key, n: int)
    requires
        0 <= n <= lines.len(),
    ensures
        0 <= key_count(lines, k, n) <= n,
        key_count(lines, k, n) > 0 <==> exists|j: int| 0 <= j < n && #[trigger] row_has(lines, j, k),
    decreases n,
{
    if n > 0 {
        lemma_counts_rows(lines, k, n - 1);
        if row_has(lines, n - 1, k) {
            assert(0 <= n - 1 < n);
        } else if key_count(lines, k, n - 1) > 0 {
            let j = choose|j: int| 0 <= j < n - 1 && #[trigger] row_has(lines, j, k);
            assert(0 <= j < n && row_has(lines, j, k));
        }
    }
}

/// Where one row has a key, there are two or more exactly if another has it.
proof fn lemma_counts_another(lines: Seq<Term>, k: Key, n: int, i: int)
    requires
        0 <= i < n <= lines.len(),
        row_has(lines, i, k),
    ensures
        key_count(lines, k, n) >= 1,
        key_count(lines, k, n) >= 2 <==> exists|j: int| 0 <= j < n && j != i && #[trigger] row_has(lines, j, k),
    decreases n,
{
    lemma_counts_rows(lines, k, n - 1);
    if i == n - 1 {
        if key_count(lines, k, n - 1) > 0 {
            let j = choose|j: int| 0 <= j < n - 1 && #[trigger] row_has(lines, j, k);
            assert(0 <= j < n && j != i && row_has(lines, j, k));
        }
        if exists|j: int| 0 <= j < n && j != i && #[trigger] row_has(lines, j, k) {
            let j = choose|j: int| 0 <= j < n && j != i && #[trigger] row_has(lines, j, k);
            assert(0 <= j < n - 1 && row_has(lines, j, k));
        }
    } else {
        lemma_counts_another(lines, k, n - 1, i);
        if row_has(lines, n - 1, k) {
            assert(0 <= n - 1 < n && n - 1 != i);
        } else {
            if exists|j: int| 0 <= j < n && j != i && #[trigger] row_has(lines, j, k) {
                let j = choose|j: int| 0 <= j < n && j != i && #[trigger] row_has(lines, j, k);
                assert(0 <= j < n - 1 && j != i && row_has(lines, j, k));
            }
            if exists|j: int| 0 <= j < n - 1 && j != i && #[trigger] row_has(lines, j, k) {
                let j = choose|j: int| 0 <= j < n - 1 && j != i && #[trigger] row_has(lines, j, k);
                assert(0 <= j < n && j != i && row_has(lines, j, k));
            }
        }
    }
}

/// The lines of an order are of different suppliers.
pub open spec fn suppliers_differ(lineitem: Table) -> bool {
    forall|i: int, j: int|
        0 <= i < lineitem.row_count && 0 <= j < lineitem.row_count && i != j && #[trigger] col(lineitem, 0)[i]
            == #[trigger] col(lineitem, 0)[j] ==> col(lineitem, 2)[i] != col(lineitem, 2)[j]
}

/// Line `j` is another supplier's line of the order of line `i`.
pub open spec fn is_rival(lineitem: Table, i: int, j: int) -> bool {
    0 <= j < lineitem.row_count && col(lineitem, 0)[j] == col(lineitem, 0)[i] && col(lineitem, 2)[j] != col(
        lineitem,
        2,
    )[i]
}

/// Where the lines of an order are of different suppliers, the counts tell what the
/// query asks: the line is late, another supplier has a line of the order, and no
/// other supplier has a late one.
pub proof fn counts_tell_who_is_alone_late(lineitem: Table, i: int)
    requires
        0 <= i < lineitem.row_count < 0x1_0000_0000,
        suppliers_differ(lineitem),
    ensures
        alone_late(lineitem, i) <==> (late_lines(lineitem)[i] && (exists|j: int| #[trigger] is_rival(lineitem, i, j)) && !(
        exists|j: int| #[trigger] is_rival(lineitem, i, j) && late_lines(lineitem)[j])),
{
    let k: Key = (col(lineitem, 0)[i], 0u64, 0u64);
    let n = lineitem.row_count as int;
    let all = order_lines(lineitem);
    let late = late_order_lines(lineitem);
    lemma_counts_rows(all, k, n);
    lemma_counts_rows(late, k, n);
    assert(row_has(all, i, k));
    lemma_counts_another(all, k, n, i);
    assert forall|j: int| 0 <= j < n && j != i implies (#[trigger] row_has(all, j, k) <==> is_rival(lineitem, i, j)) by {
        assert(col(lineitem, 0)[i] == col(lineitem, 0)[i]);
        if col(lineitem, 0)[j] == col(lineitem, 0)[i] {
            assert(col(lineitem, 2)[i] != col(lineitem, 2)[j]);
        }
    }
    assert forall|j: int| #[trigger] is_rival(lineitem, i, j) implies j != i && row_has(all, j, k) by {}
    if late_lines(lineitem)[i] {
        assert(row_has(late, i, k));
        lemma_counts_another(late, k, n, i);
        assert forall|j: int| 0 <= j < n && j != i implies (#[trigger] row_has(late, j, k) <==> (is_rival(
            lineitem,
            i,
            j,
        ) && late_lines(lineitem)[j])) by {
            assert(row_has(all, j, k) <==> is_rival(lineitem, i, j));
        }
        if exists|j: int| 0 <= j < n && j != i && #[trigger] row_has(late, j, k) {
            let j = choose|j: int| 0 <= j < n && j != i && #[trigger] row_has(late, j, k);
            assert(is_rival(lineitem, i, j) && late_lines(lineitem)[j]);
        }
        if exists|j: int| #[trigger] is_rival(lineitem, i, j) && late_lines(lineitem)[j] {
            let j = choose|j: int| #[trigger] is_rival(lineitem, i, j) && late_lines(lineitem)[j];
            assert(0 <= j < n && j != i && row_has(late, j, k));
        }
    }
    if exists|j: int| 0 <= j < n && j != i && #[trigger] row_has(all, j, k) {
        let j = choose|j: int| 0 <= j < n && j != i && #[trigger] row_has(all, j, k);
        assert(is_rival(lineitem, i, j));
    }
    if exists|j: int| #[trigger] is_rival(lineitem, i, j) {
        let j = choose|j: int| #[trigger] is_rival(lineitem, i, j);
        assert(0 <= j < n && j != i && row_has(all, j, k));
    }
    assert(lines_of(all, col(lineitem, 0)[i]) == key_count(all, k, n));
    assert(lines_of(late, col(lineitem, 0)[i]) == key_count(late, k, n));
}

} // verus!
