//! What order and limit make of the rows of an answer.

use crate::float_bits::{total_rank, FloatOp};
use crate::order::{
    is_rearrangement, is_stable_order, stable_order_exists, stable_order_rearranges, stably_ordered,
    words_ascend_at_first_difference,
};
use crate::sql::ast::{Expr2, SelectItem2, SelectQuery2};
use crate::sql::eval::{value_of, Env};
use crate::sql::exec_table::Held;
use crate::sql::group::finished;
use crate::sql::output::{
    column_named, group_sort_rows, item_name, limited, name_of, projection, sort_rows, sorted_by,
};
use crate::sql::query::plain_outcome;
use crate::sql::source::Rows;
use crate::sql::value::{as_double, to_cell};
use crate::text::same_ignoring_case;
use vstd::prelude::*;

verus! {

/// One double stands before another: below it in the total order of doubles where
/// they ascend, above it where they descend.
pub open spec fn in_turn(a: u64, b: u64, ascending: bool) -> bool {
    if ascending {
        total_rank(a) < total_rank(b)
    } else {
        total_rank(a) > total_rank(b)
    }
}

/// At the first criterion in which the words of two rows differ, they stand in the
/// order that is asked for.
pub open spec fn stand_in_order(x: Seq<u64>, y: Seq<u64>, order_by: Seq<(Expr2, bool)>) -> bool {
    forall|k: int|
        0 <= k < order_by.len() && (forall|h: int| 0 <= h < k ==> #[trigger] x[h] == y[h]) && x[k] != y[k] ==> in_turn(
            x[k],
            y[k],
            (#[trigger] order_by[k]).1,
        )
}

/// Rows are listed in the order that is asked for, given the words of each row under
/// the criteria. Rows that agree in all of them keep the order in which they came.
pub open spec fn listed_in_order(asked: Seq<Seq<u64>>, order_by: Seq<(Expr2, bool)>, order: Seq<usize>) -> bool {
    forall|i: int, j: int|
        0 <= i < j < order.len() ==> stand_in_order(
            asked[#[trigger] order[i] as int],
            asked[#[trigger] order[j] as int],
            order_by,
        ) && (asked[order[i] as int] == asked[order[j] as int] ==> order[i] < order[j])
}

/// How many of `n` rows are shown under a limit.
pub open spec fn shown_rows(n: int, limit: Option<usize>) -> int {
    match limit {
        Some(k) => if k < n {
            k as int
        } else {
            n
        },
        None => n,
    }
}

/// The answer shows the first rows of the columns as they are listed.
pub open spec fn shows(a: Rows, columns: Seq<(Seq<char>, Seq<u64>)>, order: Seq<usize>) -> bool {
    &&& a.columns.len() == columns.len()
    &&& forall|k: int|
        0 <= k < columns.len() ==> (#[trigger] a.columns[k]).0 == columns[k].0 && a.columns[k].1.len() == a.row_count
    &&& forall|k: int, i: int|
        0 <= k < columns.len() && 0 <= i < a.row_count ==> #[trigger] a.columns[k].1[i] == columns[k].1[order[i] as int]
}

/// A column is the first one to go by a name.
pub open spec fn goes_by(columns: Seq<(Seq<char>, Seq<u64>)>, name: Seq<char>, k: int) -> bool {
    &&& 0 <= k < columns.len()
    &&& same_ignoring_case(columns[k].0, name)
    &&& forall|j: int| 0 <= j < k ==> !same_ignoring_case((#[trigger] columns[j]).0, name)
}

/// The cell of a row in the column that goes by the name of an expression; zero where
/// there is none.
pub open spec fn cell_named<D: Fn(u64) -> String>(
    d: D,
    columns: Seq<(Seq<char>, Seq<u64>)>,
    e: Expr2,
    row: int,
) -> u64 {
    if exists|k: int| goes_by(columns, name_of(d, e), k) {
        columns[choose|k: int| goes_by(columns, name_of(d, e), k)].1[row]
    } else {
        0
    }
}

/// The cells of the rows in the columns that the criteria name.
pub open spec fn cells_named<D: Fn(u64) -> String>(
    d: D,
    columns: Seq<(Seq<char>, Seq<u64>)>,
    order_by: Seq<(Expr2, bool)>,
    n: int,
) -> Seq<Seq<u64>> {
    Seq::new(n as nat, |row: int| Seq::new(order_by.len(), |k: int| cell_named(d, columns, order_by[k].0, row)))
}

proof fn lemma_column_named(columns: Seq<(Seq<char>, Seq<u64>)>, name: Seq<char>, i: nat)
    requires
        i <= columns.len(),
        forall|j: int| 0 <= j < i ==> !same_ignoring_case((#[trigger] columns[j]).0, name),
    ensures
        match column_named(columns, name, i) {
            Some(k) => goes_by(columns, name, k),
            None => forall|k: int| !goes_by(columns, name, k),
        },
    decreases columns.len() - i,
{
    if i < columns.len() && !same_ignoring_case(columns[i as int].0, name) {
        lemma_column_named(columns, name, i + 1);
    }
}

proof fn lemma_goes_by_once(columns: Seq<(Seq<char>, Seq<u64>)>, name: Seq<char>, k: int, h: int)
    requires
        goes_by(columns, name, k),
        goes_by(columns, name, h),
    ensures
        k == h,
{
}

proof fn lemma_stand(x: Seq<u64>, y: Seq<u64>, order_by: Seq<(Expr2, bool)>, a: Seq<u64>, b: Seq<u64>)
    requires
        a.len() == order_by.len(),
        b.len() == order_by.len(),
        forall|k: int|
            0 <= k < order_by.len() ==> (#[trigger] a[k] == b[k] <==> x[k] == y[k]) && (a[k] < b[k] ==> in_turn(
                x[k],
                y[k],
                order_by[k].1,
            )),
        forall|k: int|
            0 <= k < a.len() && (forall|h: int| 0 <= h < k ==> #[trigger] a[h] == b[h]) && #[trigger] a[k] != b[k]
                ==> a[k] < b[k],
    ensures
        stand_in_order(x, y, order_by),
{
    assert forall|k: int|
        0 <= k < order_by.len() && (forall|h: int| 0 <= h < k ==> #[trigger] x[h] == y[h]) && x[k] != y[k] implies in_turn(
        x[k],
        y[k],
        (#[trigger] order_by[k]).1,
    ) by {
        assert forall|h: int| 0 <= h < k implies #[trigger] a[h] == b[h] by {
            assert(x[h] == y[h]);
        }
        assert(a[k] != b[k]);
    }
}

proof fn lemma_listed(
    asked: Seq<Seq<u64>>,
    keys: Seq<Seq<u64>>,
    order_by: Seq<(Expr2, bool)>,
    order: Seq<usize>,
)
    requires
        asked.len() == keys.len() <= usize::MAX,
        is_stable_order(keys, order),
        forall|row: int| 0 <= row < keys.len() ==> (#[trigger] keys[row]).len() == order_by.len(),
        forall|row: int| 0 <= row < keys.len() ==> (#[trigger] asked[row]).len() == order_by.len(),
        forall|row: int, k: int|
            0 <= row < keys.len() && 0 <= k < order_by.len() ==> #[trigger] keys[row][k] == (if order_by[k].1 {
                total_rank(asked[row][k])
            } else {
                (u64::MAX - total_rank(asked[row][k])) as u64
            }),
    ensures
        listed_in_order(asked, order_by, order),
{
    stable_order_rearranges(keys, order);
    assert forall|i: int, j: int| 0 <= i < j < order.len() implies stand_in_order(
        asked[#[trigger] order[i] as int],
        asked[#[trigger] order[j] as int],
        order_by,
    ) && (asked[order[i] as int] == asked[order[j] as int] ==> order[i] < order[j]) by {
        words_ascend_at_first_difference(keys, order, i, j);
        let a = keys[order[i] as int];
        let b = keys[order[j] as int];
        let x = asked[order[i] as int];
        let y = asked[order[j] as int];
        lemma_stand(x, y, order_by, a, b);
        if x == y {
            assert(a =~= b);
        }
    }
}

/// The rows of a grouped answer stand in the order that is asked for, by the cells of
/// the columns that the criteria name, and a limit shows the first of them.
pub proof fn grouped_rows_are_sorted_and_cut<D: Fn(u64) -> String>(
    d: D,
    columns: Seq<(Seq<char>, Seq<u64>)>,
    n: int,
    order_by: Seq<(Expr2, bool)>,
    limit: Option<usize>,
)
    requires
        0 <= n <= usize::MAX,
        forall|k: int| 0 <= k < columns.len() ==> (#[trigger] columns[k]).1.len() == n,
    ensures
        finished(d, columns, n, order_by, limit).row_count == shown_rows(n, limit),
        exists|order: Seq<usize>| #[trigger]
            is_rearrangement(order, n) && shows(finished(d, columns, n, order_by, limit), columns, order)
                && listed_in_order(cells_named(d, columns, order_by, n), order_by, order),
{
    let keys = group_sort_rows(d, columns, order_by, n);
    let asked = cells_named(d, columns, order_by, n);
    let order = stably_ordered(keys);
    stable_order_exists(keys);
    stable_order_rearranges(keys, order);
    assert forall|row: int, k: int| 0 <= row < keys.len() && 0 <= k < order_by.len() implies #[trigger] keys[row][k] == (
    if order_by[k].1 {
        total_rank(asked[row][k])
    } else {
        (u64::MAX - total_rank(asked[row][k])) as u64
    }) by {
        let name = name_of(d, order_by[k].0);
        lemma_column_named(columns, name, 0);
        match column_named(columns, name, 0) {
            Some(c) => {
                lemma_goes_by_once(columns, name, c, choose|h: int| goes_by(columns, name, h));
            },
            None => {},
        }
    }
    lemma_listed(asked, keys, order_by, order);
    let a = finished(d, columns, n, order_by, limit);
    let s = sorted_by(Rows { columns, row_count: n }, keys);
    assert(a == limited(s, limit));
    assert(shows(a, columns, order));
}

/// What a row of a table sorts by under a criterion: the cell of the first selected item
/// that goes by the name, else the value itself as a double; zero for what is no number.
pub open spec fn asked_of_row<
    F: Fn(FloatOp, u64, u64) -> u64,
    P: Fn(&str) -> Option<u64>,
    D: Fn(u64) -> String,
>(c: Env<F, P>, d: D, select: Seq<SelectItem2>, e: Expr2, t: Held, row: usize) -> u64 {
    if exists|k: int| item_goes_by(d, select, name_of(d, e), k) {
        item_cell(c, select[choose|k: int| item_goes_by(d, select, name_of(d, e), k)], t, row)
    } else {
        match value_of(c, e, t, row) {
            Ok(v) => match as_double(c.fpu, c.reader, v) {
                Some(b) => b,
                None => 0,
            },
            Err(_) => 0,
        }
    }
}

/// A selected item is the first one to go by a name.
pub open spec fn item_goes_by<D: Fn(u64) -> String>(d: D, select: Seq<SelectItem2>, name: Seq<char>, k: int) -> bool {
    &&& 0 <= k < select.len()
    &&& same_ignoring_case(item_name(d, select[k]), name)
    &&& forall|j: int| 0 <= j < k ==> !same_ignoring_case(item_name(d, #[trigger] select[j]), name)
}

/// The cell that an item shows of a row: its value; zero where it has none.
pub open spec fn item_cell<F: Fn(FloatOp, u64, u64) -> u64, P: Fn(&str) -> Option<u64>>(
    c: Env<F, P>,
    item: SelectItem2,
    t: Held,
    row: usize,
) -> u64 {
    match value_of(c, item.expr, t, row) {
        Ok(v) => to_cell(v),
        Err(_) => 0,
    }
}

pub open spec fn asked_of_rows<
    F: Fn(FloatOp, u64, u64) -> u64,
    P: Fn(&str) -> Option<u64>,
    D: Fn(u64) -> String,
>(c: Env<F, P>, d: D, query: SelectQuery2, t: Held, rows: Seq<usize>) -> Seq<Seq<u64>> {
    Seq::new(
        rows.len(),
        |i: int|
            Seq::new(
                query.order_by@.len(),
                |k: int| asked_of_row(c, d, query.select@, query.order_by@[k].0, t, rows[i]),
            ),
    )
}

/// The answer shows, row by row as they are listed, the value of every selected item.
pub open spec fn shows_items<
    F: Fn(FloatOp, u64, u64) -> u64,
    P: Fn(&str) -> Option<u64>,
    D: Fn(u64) -> String,
>(c: Env<F, P>, d: D, a: Rows, select: Seq<SelectItem2>, t: Held, rows: Seq<usize>, order: Seq<usize>) -> bool {
    &&& a.columns.len() == select.len()
    &&& forall|k: int|
        0 <= k < select.len() ==> (#[trigger] a.columns[k]).0 == item_name(d, select[k]) && a.columns[k].1.len()
            == a.row_count
    &&& forall|k: int, i: int|
        0 <= k < select.len() && 0 <= i < a.row_count ==> #[trigger] a.columns[k].1[i] == item_cell(
            c,
            select[k],
            t,
            rows[order[i] as int],
        )
}

/// The answer to a query without groups shows the values of its items on the rows of the
/// table, each row once, in the order that is asked for, as many as the limit allows.
pub proof fn plain_rows_are_sorted_and_cut<
    F: Fn(FloatOp, u64, u64) -> u64,
    P: Fn(&str) -> Option<u64>,
    D: Fn(u64) -> String,
>(c: Env<F, P>, d: D, query: SelectQuery2, t: Held, rows: Seq<usize>)
    requires
        rows.len() <= usize::MAX,
    ensures
        plain_outcome(c, d, query, t, rows).row_count == shown_rows(rows.len() as int, query.limit),
        exists|order: Seq<usize>| #[trigger]
            is_rearrangement(order, rows.len() as int) && shows_items(
                c,
                d,
                plain_outcome(c, d, query, t, rows),
                query.select@,
                t,
                rows,
                order,
            ) && listed_in_order(asked_of_rows(c, d, query, t, rows), query.order_by@, order),
{
    let p = Rows { columns: projection(c, d, query.select@, t, rows), row_count: rows.len() as int };
    let keys = sort_rows(c, d, p.columns, query.order_by@, t, rows, p.row_count);
    let asked = asked_of_rows(c, d, query, t, rows);
    let order_by = query.order_by@;
    let a = plain_outcome(c, d, query, t, rows);
    let n = rows.len() as int;
    if order_by.len() == 0 {
        let order = Seq::new(n as nat, |i: int| i as usize);
        assert(is_rearrangement(order, n)) by {
            assert forall|k: int| 0 <= k < n implies #[trigger] order.contains(k as usize) by {
                assert(order[k] == k as usize);
            }
        }
        assert(listed_in_order(asked, order_by, order));
        assert(shows_items(c, d, a, query.select@, t, rows, order));
    } else {
        let order = stably_ordered(keys);
        stable_order_exists(keys);
        stable_order_rearranges(keys, order);
        assert forall|row: int, k: int| 0 <= row < keys.len() && 0 <= k < order_by.len() implies #[trigger] keys[row][k]
            == (if order_by[k].1 {
            total_rank(asked[row][k])
        } else {
            (u64::MAX - total_rank(asked[row][k])) as u64
        }) by {
            let name = name_of(d, order_by[k].0);
            lemma_column_named(p.columns, name, 0);
            match column_named(p.columns, name, 0) {
                Some(h) => {
                    assert(item_goes_by(d, query.select@, name, h)) by {
                        assert forall|j: int| 0 <= j < h implies !same_ignoring_case(
                            item_name(d, #[trigger] query.select@[j]),
                            name,
                        ) by {
                            assert(!same_ignoring_case(p.columns[j].0, name));
                        }
                    }
                    let g = choose|g: int| item_goes_by(d, query.select@, name, g);
                    assert(g == h);
                    assert(asked[row][k] == item_cell(c, query.select@[h], t, rows[row]));
                },
                None => {
                    assert forall|g: int| !item_goes_by(d, query.select@, name, g) by {
                        if item_goes_by(d, query.select@, name, g) {
                            assert(goes_by(p.columns, name, g)) by {
                                assert forall|j: int| 0 <= j < g implies !same_ignoring_case(
                                    (#[trigger] p.columns[j]).0,
                                    name,
                                ) by {
                                    assert(!same_ignoring_case(item_name(d, query.select@[j]), name));
                                }
                            }
                        }
                    }
                },
            }
        }
        lemma_listed(asked, keys, order_by, order);
        assert(shows_items(c, d, a, query.select@, t, rows, order));
    }
}

} // verus!
