//! What the answers to the decision-support queries say.

use crate::dates::date_cell;
use crate::error::Error;
use crate::float_bits::{discounted, total_rank, FloatOp};
use crate::group_index::{row_of_key, row_of_key_is_last, Key};
use crate::hashing::text_hash;
use crate::order::{is_stable_order, stable_order_rearranges, words_ascend_at_first_difference};
use crate::table::{QueryResult, Table};
use crate::tpch::q3::{q3_lines, q3_order_keys, q3_outcome};
use crate::tpch::sums::{first_words, group_keys, group_sum, keys_seen_are_row_keys, or_zero, row_has, sums_of};
use crate::tpch::support::{all_marked, col, has_columns, lemma_order_bounds, marks_equal, table_cells};
use vstd::prelude::*;

verus! {

/// The words by which two rows sort, up to four, do not fall: the first that differ rise.
pub proof fn lemma_rise(keys: Seq<Seq<u64>>, w: nat, order: Seq<usize>, i: int, j: int)
    requires
        is_stable_order(keys, order),
        0 <= i < j < order.len(),
        forall|row: int| 0 <= row < keys.len() ==> (#[trigger] keys[row]).len() == w,
    ensures
        order.len() == keys.len(),
        order[i] < keys.len(),
        order[j] < keys.len(),
        ({
            let a = keys[order[i] as int];
            let b = keys[order[j] as int];
            &&& w > 0 ==> a[0] <= b[0]
            &&& w > 1 && a[0] == b[0] ==> a[1] <= b[1]
            &&& w > 2 && a[0] == b[0] && a[1] == b[1] ==> a[2] <= b[2]
            &&& w > 3 && a[0] == b[0] && a[1] == b[1] && a[2] == b[2] ==> a[3] <= b[3]
        }),
{
    lemma_order_bounds(keys, order);
    words_ascend_at_first_difference(keys, order, i, j);
    let a = keys[order[i] as int];
    let b = keys[order[j] as int];
    assert(a.len() > 0 ==> (a[0] != b[0] ==> a[0] < b[0]));
    assert(a.len() > 1 && a[0] == b[0] ==> (a[1] != b[1] ==> a[1] < b[1]));
    assert(a.len() > 2 && a[0] == b[0] && a[1] == b[1] ==> (a[2] != b[2] ==> a[2] < b[2]));
    assert(a.len() > 3 && a[0] == b[0] && a[1] == b[1] && a[2] == b[2] ==> (a[3] != b[3] ==> a[3] < b[3]));
}

/// A row of a table is the last to hold a key in a column.
pub open spec fn holds_last(t: Table, c: int, key: u64, i: int) -> bool {
    &&& 0 <= i < t.row_count
    &&& col(t, c)[i] == key
    &&& forall|j: int| i < j < t.row_count ==> #[trigger] col(t, c)[j] != key
}

/// Some row of a table holds a key in a column and a word in another one.
pub open spec fn some_row(t: Table, c: int, key: u64, d: int, word: u64) -> bool {
    exists|i: int| 0 <= i < t.row_count && #[trigger] col(t, c)[i] == key && col(t, d)[i] == word
}

proof fn lemma_last(t: Table, c: int, key: u64)
    requires
        t.wf(),
        0 <= c < t.columns.len(),
    ensures
        match row_of_key(col(t, c), all_marked(t.row_count as nat), key) {
            Some(i) => holds_last(t, c, key, i as int),
            None => forall|i: int| !holds_last(t, c, key, i),
        },
        forall|i: int, j: int| holds_last(t, c, key, i) && holds_last(t, c, key, j) ==> i == j,
{
    row_of_key_is_last(col(t, c), all_marked(t.row_count as nat), t.row_count as int, key);
    let marks = all_marked(t.row_count as nat);
    match row_of_key(col(t, c), marks, key) {
        Some(i) => {
            assert forall|j: int| i < j < t.row_count implies #[trigger] col(t, c)[j] != key by {
                assert(marks[j]);
            }
        },
        None => {
            assert forall|i: int| !holds_last(t, c, key, i) by {
                if holds_last(t, c, key, i) {
                    assert(marks[i]);
                }
            }
        },
    }
    assert forall|i: int, j: int| holds_last(t, c, key, i) && holds_last(t, c, key, j) implies i == j by {
        if i < j {
            assert(col(t, c)[j] != key);
        }
        if j < i {
            assert(col(t, c)[i] != key);
        }
    }
}

proof fn lemma_some_row(t: Table, c: int, key: u64, d: int, word: u64)
    requires
        t.wf(),
        0 <= c < t.columns.len(),
        0 <= d < t.columns.len(),
    ensures
        row_of_key(col(t, c), marks_equal(col(t, d), word), key) is Some <==> some_row(t, c, key, d, word),
{
    let marks = marks_equal(col(t, d), word);
    assert(marks.len() == t.row_count);
    row_of_key_is_last(col(t, c), marks, t.row_count as int, key);
    match row_of_key(col(t, c), marks, key) {
        Some(i) => {
            assert(col(t, c)[i as int] == key && col(t, d)[i as int] == word);
        },
        None => {
            if some_row(t, c, key, d, word) {
                let i = choose|i: int| 0 <= i < t.row_count && #[trigger] col(t, c)[i] == key && col(t, d)[i] == word;
                assert(marks[i]);
            }
        },
    }
}

/// A line counts for the revenue of unshipped orders: it was shipped after the day, its order
/// was placed before it, and a customer of the segment placed the order.
pub open spec fn is_unshipped(customer: Table, orders: Table, lineitem: Table, i: int) -> bool {
    &&& col(lineitem, 10)[i] > date_cell(1995, 3, 15)
    &&& exists|o: int| #[trigger]
        holds_last(orders, 0, col(lineitem, 0)[i], o) && col(orders, 4)[o] < date_cell(1995, 3, 15) && some_row(
            customer,
            0,
            col(orders, 1)[o],
            6,
            text_hash("BUILDING"@),
        )
}

/// The lines that count for the revenue of unshipped orders are those shipped after the day,
/// of orders placed before it by customers of the segment, each with its discounted price.
pub proof fn unshipped_lines_count<F: Fn(FloatOp, u64, u64) -> u64>(
    f: F,
    customer: Table,
    orders: Table,
    lineitem: Table,
    i: int,
)
    requires
        has_columns(customer, 7),
        has_columns(orders, 8),
        has_columns(lineitem, 11),
        0 <= i < lineitem.row_count,
    ensures
        q3_lines(f, customer, orders, lineitem).len() == lineitem.row_count,
        q3_lines(f, customer, orders, lineitem)[i] == (if is_unshipped(customer, orders, lineitem, i) {
            Some(((col(lineitem, 0)[i], 0u64, 0u64), discounted(f, col(lineitem, 5)[i], col(lineitem, 6)[i])))
        } else {
            None
        }),
{
    let key = col(lineitem, 0)[i];
    lemma_last(orders, 0, key);
    match row_of_key(col(orders, 0), all_marked(orders.row_count as nat), key) {
        Some(o) => {
            lemma_some_row(customer, 0, col(orders, 1)[o as int], 6, text_hash("BUILDING"@));
            assert(holds_last(orders, 0, key, o as int));
        },
        None => {},
    }
}

/// The answer lists at most ten orders. The revenue of each is at least that of the one behind
/// it, in the total order of doubles, and among equal revenues the dates do not fall.
pub proof fn unshipped_orders_are_listed_by_revenue<F: Fn(FloatOp, u64, u64) -> u64>(
    f: F,
    customer: Table,
    orders: Table,
    lineitem: Table,
    q: QueryResult,
    i: int,
    j: int,
)
    requires
        lineitem.wf(),
        q3_outcome(f, customer, orders, lineitem, Ok::<QueryResult, Error>(q)),
        0 <= i < j < q.row_count,
    ensures
        q.row_count <= 10,
        q@[1].0 == "revenue"@,
        q@[2].0 == "o_orderdate"@,
        total_rank(q@[1].1[i]) >= total_rank(q@[1].1[j]),
        total_rank(q@[1].1[i]) == total_rank(q@[1].1[j]) ==> q@[2].1[i] <= q@[2].1[j],
{
    let lines = q3_lines(f, customer, orders, lineitem);
    let groups = group_keys(lines);
    let revenues = sums_of(f, lines, groups);
    let dates = table_cells(orders, 4, first_words(groups), 0);
    let keys = q3_order_keys(revenues, dates);
    let order = choose|order: Seq<usize>| #[trigger] is_stable_order(keys, order) && q3_shows(q, f, orders, lines, order);
    lemma_group_count(lines);
    lemma_rise(keys, 2, order, i, j);
    assert(keys[order[i] as int] == seq![
        (u64::MAX - total_rank(revenues[order[i] as int])) as u64,
        dates[order[i] as int],
    ]);
    assert(keys[order[j] as int] == seq![
        (u64::MAX - total_rank(revenues[order[j] as int])) as u64,
        dates[order[j] as int],
    ]);
}

spec fn q3_shows<F: Fn(FloatOp, u64, u64) -> u64>(
    q: QueryResult,
    f: F,
    orders: Table,
    lines: Seq<crate::tpch::sums::Term>,
    order: Seq<usize>,
) -> bool {
    let groups = group_keys(lines);
    let which = first_words(groups);
    let revenues = sums_of(f, lines, groups);
    let dates = table_cells(orders, 4, which, 0);
    let n = crate::tpch::support::limited(groups.len() as int, 10);
    crate::tpch::support::answers(
        Ok::<QueryResult, Error>(q),
        seq![
            ("l_orderkey"@, crate::tpch::support::picked(which, order, n)),
            ("revenue"@, crate::tpch::support::picked(revenues, order, n)),
            ("o_orderdate"@, crate::tpch::support::picked(dates, order, n)),
            ("o_shippriority"@, crate::tpch::support::picked(table_cells(orders, 7, which, 0), order, n)),
        ],
        n,
    )
}

pub proof fn lemma_group_count(lines: Seq<crate::tpch::sums::Term>)
    ensures
        group_keys(lines).len() <= lines.len(),
{
    lemma_keys_count(lines, lines.len() as int);
}

proof fn lemma_keys_count(lines: Seq<crate::tpch::sums::Term>, n: int)
    requires
        0 <= n <= lines.len(),
    ensures
        crate::tpch::sums::keys_seen(lines, n).len() <= n,
    decreases n,
{
    if n > 0 {
        lemma_keys_count(lines, n - 1);
    }
}

/// Every order with a line that counts is listed with its revenue, unless ten orders are
/// listed whose revenues are all at least as great.
pub proof fn no_greater_unshipped_order_is_left_out<F: Fn(FloatOp, u64, u64) -> u64>(
    f: F,
    customer: Table,
    orders: Table,
    lineitem: Table,
    q: QueryResult,
    line: int,
)
    requires
        has_columns(customer, 7),
        has_columns(orders, 8),
        has_columns(lineitem, 11),
        q3_outcome(f, customer, orders, lineitem, Ok::<QueryResult, Error>(q)),
        0 <= line < lineitem.row_count,
        is_unshipped(customer, orders, lineitem, line),
    ensures
        ({
            let key = col(lineitem, 0)[line];
            let revenue = or_zero(group_sum(f, q3_lines(f, customer, orders, lineitem), (key, 0, 0)));
            ||| exists|i: int| 0 <= i < q.row_count && #[trigger] q@[0].1[i] == key && q@[1].1[i] == revenue
            ||| q.row_count == 10 && forall|i: int|
                0 <= i < 10 ==> total_rank(#[trigger] q@[1].1[i]) >= total_rank(revenue)
        }),
{
    let lines = q3_lines(f, customer, orders, lineitem);
    let groups = group_keys(lines);
    let revenues = sums_of(f, lines, groups);
    let dates = table_cells(orders, 4, first_words(groups), 0);
    let keys = q3_order_keys(revenues, dates);
    let order = choose|order: Seq<usize>| #[trigger] is_stable_order(keys, order) && q3_shows(q, f, orders, lines, order);
    let k: Key = (col(lineitem, 0)[line], 0, 0);
    unshipped_lines_count(f, customer, orders, lineitem, line);
    assert(row_has(lines, line, k));
    keys_seen_are_row_keys(lines, lines.len() as int, k);
    let g = choose|g: int| 0 <= g < groups.len() && groups[g] == k;
    lemma_group_count(lines);
    stable_order_rearranges(keys, order);
    assert(order.contains(g as usize));
    let p = choose|p: int| 0 <= p < order.len() && order[p] == g as usize;
    assert(revenues[g] == or_zero(group_sum(f, lines, k)));
    if p < q.row_count {
        assert(q@[0].1[p] == k.0 && q@[1].1[p] == revenues[g]);
    } else {
        assert forall|i: int| 0 <= i < 10 implies total_rank(#[trigger] q@[1].1[i]) >= total_rank(revenues[g]) by {
            lemma_rise(keys, 2, order, i, p);
            assert(keys[order[i] as int] == seq![
                (u64::MAX - total_rank(revenues[order[i] as int])) as u64,
                dates[order[i] as int],
            ]);
            assert(keys[order[p] as int] == seq![
                (u64::MAX - total_rank(revenues[order[p] as int])) as u64,
                dates[order[p] as int],
            ]);
            assert(q@[1].1[i] == revenues[order[i] as int]);
        }
    }
}

} // verus!
