//! Which rows a group holds, and what its aggregates say of them.

use crate::cell_index::{groups_hold_equal_cells, numbered};
use crate::error::Fail;
use crate::float_bits::{arith, float_lt, is_nan, FloatOp, INFINITY_BITS, NEG_INFINITY_BITS};
use crate::group_index::Key;
use crate::row_sums::RowSum;
use crate::sql::agg::{aggregate_over, cell_kinds, distinct_key, group_value, kept, key_occurs, nonzero_count};
use crate::sql::ast::{AggFunc, ColType, Expr2, SelectItem2, SelectQuery2};
use crate::sql::eval::{value_of, Env};
use crate::sql::exec_table::Held;
use crate::sql::group::{
    extreme, extreme_over, first_row, group_cells, group_lines, group_words, grouped_columns,
    grouped_outcome, grouped_rows, groups_partition_rows, having_groups, lemma_members_exist,
    low_card_cells, low_card_columns, low_card_fits, members, members_ascend, scalar_columns,
    AggPlan,
};
use crate::sql::order_laws::{
    cells_named, grouped_rows_are_sorted_and_cut, listed_in_order, shown_rows, shows,
};
use crate::order::is_rearrangement;
use crate::sql::output::item_name;
use crate::sql::totals::{best_int, int_total, sum_over, total};
use crate::sql::value::{as_double, is_true, to_cell, Val};
use crate::tpch::sums::{group_keys, key_count, keys_seen, keys_seen_are_row_keys, row_has, Term};
use crate::word::word_signed;
use vstd::prelude::*;

verus! {

/// `HAVING` keeps exactly the groups on which the condition is true, in their order; without it every
/// group is kept.
pub proof fn having_keeps_the_groups_where_it_is_true<F: Fn(FloatOp, u64, u64) -> u64, P: Fn(&str) -> Option<u64>>(
    c: Env<F, P>,
    having: Option<Expr2>,
    t: Held,
    groups: Seq<Seq<usize>>,
    n: nat,
)
    requires
        n <= groups.len(),
        having_groups(c, having, t, groups, n) is Ok,
    ensures
        having is None ==> having_groups(c, having, t, groups, n)->Ok_0 == groups.take(n as int),
        forall|x: Seq<usize>| #[trigger]
            having_groups(c, having, t, groups, n)->Ok_0.contains(x) <==> exists|g: int|
                0 <= g < n && #[trigger] groups[g] == x && (having matches Some(h) ==> (group_value(c, h, t, x) matches Ok(
                    v,
                ) && is_true(v))),
    decreases n,
{
    if n == 0 {
        assert(groups.take(0) =~= Seq::<Seq<usize>>::empty());
    } else {
        having_keeps_the_groups_where_it_is_true(c, having, t, groups, (n - 1) as nat);
        let before = having_groups(c, having, t, groups, (n - 1) as nat)->Ok_0;
        let now = having_groups(c, having, t, groups, n)->Ok_0;
        let last = groups[n - 1];
        let holds = having matches Some(h) ==> (group_value(c, h, t, last) matches Ok(v) && is_true(v));
        assert(now == if holds {
            before.push(last)
        } else {
            before
        });
        assert(groups.take(n as int) =~= groups.take(n - 1).push(last));
        assert forall|x: Seq<usize>| #[trigger]
            now.contains(x) <==> exists|g: int|
                0 <= g < n && #[trigger] groups[g] == x && (having matches Some(h) ==> (group_value(c, h, t, x) matches Ok(
                    v,
                ) && is_true(v))) by {
            if now.contains(x) {
                let i = choose|i: int| 0 <= i < now.len() && now[i] == x;
                if i < before.len() {
                    assert(before[i] == x);
                    assert(before.contains(x));
                } else {
                    assert(groups[n - 1] == x);
                }
            }
            if before.contains(x) {
                let i = choose|i: int| 0 <= i < before.len() && before[i] == x;
                assert(now[i] == x);
            }
            if exists|g: int|
                0 <= g < n && #[trigger] groups[g] == x && (having matches Some(h) ==> (group_value(c, h, t, x) matches Ok(
                    v,
                ) && is_true(v))) {
                let g = choose|g: int|
                    0 <= g < n && #[trigger] groups[g] == x && (having matches Some(h) ==> (group_value(
                        c,
                        h,
                        t,
                        x,
                    ) matches Ok(v) && is_true(v)));
                if g < n - 1 {
                    assert(before.contains(x));
                } else {
                    assert(now[before.len() as int] == x);
                }
            }
        }
    }
}

/// What a row is grouped by under an expression: the cell of a column, else its value as a cell; zero
/// where it has none.
pub open spec fn grouped_by<F: Fn(FloatOp, u64, u64) -> u64, P: Fn(&str) -> Option<u64>>(c: Env<F, P>, e: Expr2, t: Held, row: usize) -> u64 {
    match e {
        Expr2::Col(name) => match t.number(name@) {
            Some(i) => t.columns[i as int][row as int],
            None => match value_of(c, e, t, row) {
                Ok(v) => to_cell(v),
                Err(_) => 0,
            },
        },
        _ => match value_of(c, e, t, row) {
            Ok(v) => to_cell(v),
            Err(_) => 0,
        },
    }
}

/// Two rows agree in everything that is grouped by.
pub open spec fn grouped_alike<F: Fn(FloatOp, u64, u64) -> u64, P: Fn(&str) -> Option<u64>>(c: Env<F, P>, by: Seq<Expr2>, t: Held, i: usize, j: usize) -> bool {
    forall|k: int| 0 <= k < by.len() ==> grouped_by(c, #[trigger] by[k], t, i) == grouped_by(c, by[k], t, j)
}

proof fn lemma_alike<F: Fn(FloatOp, u64, u64) -> u64, P: Fn(&str) -> Option<u64>>(c: Env<F, P>, by: Seq<Expr2>, t: Held, i: usize, j: usize)
    ensures
        grouped_alike(c, by, t, i, j) <==> group_words(c, by, t, i) == group_words(c, by, t, j),
{
    let x = group_words(c, by, t, i);
    let y = group_words(c, by, t, j);
    assert forall|k: int| 0 <= k < by.len() implies #[trigger] x[k] == grouped_by(c, by[k], t, i) && y[k] == grouped_by(
        c,
        by[k],
        t,
        j,
    ) by {}
    if grouped_alike(c, by, t, i, j) {
        assert forall|k: int| 0 <= k < x.len() implies x[k] == y[k] by {
            assert(grouped_by(c, by[k], t, i) == grouped_by(c, by[k], t, j));
        }
        assert(x =~= y);
    }
    if x == y {
        assert forall|k: int| 0 <= k < by.len() implies grouped_by(c, #[trigger] by[k], t, i) == grouped_by(
            c,
            by[k],
            t,
            j,
        ) by {
            assert(x[k] == y[k]);
        }
    }
}

/// Every row that counts is in exactly one group; two of them are in one group exactly if they agree in
/// everything that is grouped by; a group lists its rows in order, and no group is empty.
pub proof fn groups_are_rows_that_agree<F: Fn(FloatOp, u64, u64) -> u64, P: Fn(&str) -> Option<u64>>(
    c: Env<F, P>,
    by: Seq<Expr2>,
    t: Held,
    mask: Seq<bool>,
    g: int,
)
    requires
        0 <= t.row_count <= usize::MAX,
        0 <= g < grouped_rows(group_lines(c, by, t, mask)).len(),
    ensures
        grouped_rows(group_lines(c, by, t, mask))[g].len() > 0,
        forall|i: int, j: int|
            0 <= i < j < grouped_rows(group_lines(c, by, t, mask))[g].len() ==> #[trigger] grouped_rows(
                group_lines(c, by, t, mask),
            )[g][i] < #[trigger] grouped_rows(group_lines(c, by, t, mask))[g][j],
        forall|row: usize| #[trigger]
            grouped_rows(group_lines(c, by, t, mask))[g].contains(row) <==> row < t.row_count && mask[row as int]
                && grouped_alike(c, by, t, row, grouped_rows(group_lines(c, by, t, mask))[g][0]),
{
    let rows = group_cells(c, by, t, mask);
    let lines = numbered(rows);
    let n = t.row_count;
    assert(rows.len() == n && lines.len() == n);
    let keys = group_keys(lines);
    let k = keys[g];
    let group = members(lines, k, n);
    assert(grouped_rows(lines)[g] == group);
    keys_seen_are_row_keys(lines, n, k);
    assert(keys.contains(k));
    let w = choose|i: int| 0 <= i < n && #[trigger] row_has(lines, i, k);
    groups_partition_rows(lines, k, n, w as usize);
    lemma_members_exist(lines, k, n);
    members_ascend(lines, k, n);
    let first = group[0];
    assert(group.contains(first));
    groups_partition_rows(lines, k, n, first);
    assert forall|row: usize| #[trigger]
        group.contains(row) <==> row < n && mask[row as int] && grouped_alike(c, by, t, row, first) by {
        lemma_alike(c, by, t, row, first);
        if group.contains(row) {
            let p = choose|p: int| 0 <= p < group.len() && group[p] == row;
            assert(row < n);
        }
        if row < n {
            groups_partition_rows(lines, k, n, row);
            if mask[row as int] {
                groups_hold_equal_cells(rows, row as int, first as int);
                assert(rows[row as int] == Some(group_words(c, by, t, row)));
                assert(rows[first as int] == Some(group_words(c, by, t, first)));
                assert(lines[row as int] is Some && lines[first as int] is Some);
                assert(row_has(lines, first as int, k));
                assert(lines[row as int] == lines[first as int] <==> row_has(lines, row as int, k));
            }
        }
    }
}

/// Every row that counts is in a group, and the groups differ.
pub proof fn every_row_is_in_a_group<F: Fn(FloatOp, u64, u64) -> u64, P: Fn(&str) -> Option<u64>>(c: Env<F, P>, by: Seq<Expr2>, t: Held, mask: Seq<bool>, row: usize)
    requires
        0 <= t.row_count <= usize::MAX,
        row < t.row_count,
        mask[row as int],
    ensures
        exists|g: int|
            0 <= g < grouped_rows(group_lines(c, by, t, mask)).len() && #[trigger] grouped_rows(
                group_lines(c, by, t, mask),
            )[g].contains(row),
        forall|g: int, h: int|
            0 <= g < grouped_rows(group_lines(c, by, t, mask)).len() && 0 <= h < grouped_rows(
                group_lines(c, by, t, mask),
            ).len() && #[trigger] grouped_rows(group_lines(c, by, t, mask))[g].contains(row) && #[trigger] grouped_rows(
                group_lines(c, by, t, mask),
            )[h].contains(row) ==> g == h,
{
    let rows = group_cells(c, by, t, mask);
    let lines = numbered(rows);
    let n = t.row_count;
    assert(rows.len() == n && lines.len() == n);
    let keys = group_keys(lines);
    let groups = grouped_rows(lines);
    let k = (lines[row as int]->Some_0).0;
    assert(row_has(lines, row as int, k));
    keys_seen_are_row_keys(lines, n, k);
    let g = choose|g: int| 0 <= g < keys.len() && keys[g] == k;
    groups_partition_rows(lines, k, n, row);
    assert(groups[g] == members(lines, keys[g], n));
    let all = grouped_rows(group_lines(c, by, t, mask));
    assert(all == groups);
    assert(0 <= g < all.len() && all[g].contains(row));
    assert forall|g: int, h: int|
        0 <= g < groups.len() && 0 <= h < groups.len() && #[trigger] groups[g].contains(row) && #[trigger] groups[h].contains(
            row,
        ) implies g == h by {
        groups_partition_rows(lines, keys[g], n, row);
        groups_partition_rows(lines, keys[h], n, row);
    }
}

/// What `COUNT(*)` gives is the number of rows of the group; a count of an expression that is no column is
/// the same; a count of a column is that of the rows whose cell is not zero.
pub proof fn counts_are_numbers_of_rows<F: Fn(FloatOp, u64, u64) -> u64, P: Fn(&str) -> Option<u64>>(c: Env<F, P>, arg: Expr2, t: Held, rows: Seq<usize>, row: usize)
    requires
        rows.len() < i64::MAX,
    ensures
        group_value(c, Expr2::CountStar, t, rows) == Ok::<Val, Fail>(Val::Int(rows.len() as i64)),
        !(arg is Col) ==> aggregate_over(c, AggFunc::Count, &arg, t, rows) == Ok::<Val, Fail>(
            Val::Int(rows.len() as i64),
        ),
        arg matches Expr2::Col(name) && t.number(name@) is Some ==> {
            let cells = t.columns[t.number(arg->Col_0@)->0 as int];
            &&& aggregate_over(c, AggFunc::Count, &arg, t, Seq::empty()) == Ok::<Val, Fail>(Val::Int(0))
            &&& aggregate_over(c, AggFunc::Count, &arg, t, rows) matches Ok(Val::Int(n)) && aggregate_over(
                c,
                AggFunc::Count,
                &arg,
                t,
                rows.push(row),
            ) == Ok::<Val, Fail>(
                Val::Int(
                    (n + (if cells[row as int] != 0 {
                        1int
                    } else {
                        0
                    })) as i64,
                ),
            )
        },
{
    if arg is Col && t.number(arg->Col_0@) is Some {
        let cells = t.columns[t.number(arg->Col_0@)->0 as int];
        lemma_nonzero(cells, rows, rows.push(row), rows.len());
        lemma_nonzero_bound(cells, rows, rows.len());
        assert(rows.push(row)[rows.len() as int] == row);
    }
}

proof fn lemma_nonzero(cells: Seq<u64>, a: Seq<usize>, b: Seq<usize>, n: nat)
    requires
        n <= a.len(),
        n <= b.len(),
        forall|i: int| 0 <= i < n ==> #[trigger] a[i] == b[i],
    ensures
        nonzero_count(cells, a, n) == nonzero_count(cells, b, n),
    decreases n,
{
    if n > 0 {
        lemma_nonzero(cells, a, b, (n - 1) as nat);
        assert(a[n - 1] == b[n - 1]);
    }
}

proof fn lemma_nonzero_bound(cells: Seq<u64>, rows: Seq<usize>, n: nat)
    ensures
        nonzero_count(cells, rows, n) <= n,
    decreases n,
{
    if n > 0 {
        lemma_nonzero_bound(cells, rows, (n - 1) as nat);
    }
}

/// A count of different cells is nothing without rows; a row adds one to it exactly if no row before it
/// holds the same cell.
pub proof fn different_cells_are_counted_once(cells: Seq<u64>, rows: Seq<usize>, row: usize)
    ensures
        cell_kinds(cells, Seq::empty()) == 0,
        cell_kinds(cells, rows.push(row)) == cell_kinds(cells, rows) + (if exists|i: int|
            0 <= i < rows.len() && cells[#[trigger] rows[i] as int] == cells[row as int] {
            0nat
        } else {
            1nat
        }),
{
    let a = rows.map_values(|r: usize| cells[r as int]);
    let b = rows.push(row).map_values(|r: usize| cells[r as int]);
    let x = cells[row as int];
    let e = Seq::<usize>::empty().map_values(|r: usize| cells[r as int]);
    assert(e =~= Seq::<u64>::empty());
    assert(e.to_set() =~= Set::<u64>::empty());
    assert(b =~= a.push(x));
    vstd::seq_lib::seq_to_set_is_finite(a);
    assert(b.to_set() =~= a.to_set().insert(x)) by {
        assert forall|y: u64| b.to_set().contains(y) <==> a.to_set().insert(x).contains(y) by {
            if a.contains(y) {
                let i = choose|i: int| 0 <= i < a.len() && a[i] == y;
                assert(b[i] == y);
            }
            if y == x {
                assert(b[a.len() as int] == x);
            }
            if b.contains(y) && y != x {
                let i = choose|i: int| 0 <= i < b.len() && b[i] == y;
                assert(a[i] == y);
            }
        }
    }
    if exists|i: int| 0 <= i < rows.len() && cells[#[trigger] rows[i] as int] == x {
        let i = choose|i: int| 0 <= i < rows.len() && cells[#[trigger] rows[i] as int] == x;
        assert(a[i] == x);
        assert(a.to_set().contains(x));
        assert(a.to_set().insert(x) =~= a.to_set());
    } else {
        if a.contains(x) {
            let i = choose|i: int| 0 <= i < a.len() && a[i] == x;
            assert(cells[rows[i] as int] == x);
        }
    }
}

/// Under `DISTINCT` the first value of each key is kept, and every value has one of its key among them.
pub proof fn distinct_keeps_one_of_each(vals: Seq<Val>)
    ensures
        forall|i: int, j: int|
            0 <= i < j < kept(vals).len() ==> distinct_key(#[trigger] kept(vals)[i]) != distinct_key(
                #[trigger] kept(vals)[j],
            ),
        forall|i: int| 0 <= i < vals.len() ==> key_occurs(kept(vals), distinct_key(#[trigger] vals[i])),
        forall|i: int| 0 <= i < kept(vals).len() ==> vals.contains(#[trigger] kept(vals)[i]),
    decreases vals.len(),
{
    if vals.len() > 0 {
        let rest = vals.drop_last();
        distinct_keeps_one_of_each(rest);
        let before = kept(rest);
        let now = kept(vals);
        assert forall|i: int| 0 <= i < before.len() implies now[i] == #[trigger] before[i] by {}
        assert forall|i: int| 0 <= i < vals.len() implies key_occurs(now, distinct_key(#[trigger] vals[i])) by {
            if i < rest.len() {
                assert(vals[i] == rest[i]);
                assert(key_occurs(before, distinct_key(rest[i])));
                let j = choose|j: int| 0 <= j < before.len() && distinct_key(#[trigger] before[j]) == distinct_key(rest[i]);
                assert(now[j] == before[j]);
            } else if key_occurs(before, distinct_key(vals.last())) {
                assert(now == before);
            } else {
                assert(now[before.len() as int] == vals.last());
            }
        }
        assert forall|i: int| 0 <= i < now.len() implies vals.contains(#[trigger] now[i]) by {
            if i < before.len() {
                assert(rest.contains(before[i]));
                let j = choose|j: int| 0 <= j < rest.len() && rest[j] == before[i];
                assert(vals[j] == before[i]);
            } else {
                assert(vals[vals.len() - 1] == now[i]);
            }
        }
        assert forall|i: int, j: int| 0 <= i < j < now.len() implies distinct_key(#[trigger] now[i]) != distinct_key(
            #[trigger] now[j],
        ) by {
            assert(now[i] == before[i]);
            if j < before.len() {
                assert(now[j] == before[j]);
            }
        }
    }
}

proof fn lemma_int_total(cells: Seq<u64>, a: Seq<usize>, b: Seq<usize>, n: nat)
    requires
        n <= a.len(),
        n <= b.len(),
        forall|i: int| 0 <= i < n ==> #[trigger] a[i] == b[i],
    ensures
        int_total(cells, a, n) == int_total(cells, b, n),
    decreases n,
{
    if n > 0 {
        lemma_int_total(cells, a, b, (n - 1) as nat);
        assert(a[n - 1] == b[n - 1]);
    }
}

pub proof fn lemma_total<F: Fn(FloatOp, u64, u64) -> u64, P: Fn(&str) -> Option<u64>>(
    c: Env<F, P>,
    s: crate::sql::totals::Addend<'_>,
    t: Held,
    a: Seq<usize>,
    b: Seq<usize>,
    n: nat,
)
    requires
        n <= a.len(),
        n <= b.len(),
        forall|i: int| 0 <= i < n ==> #[trigger] a[i] == b[i],
    ensures
        total(c, s, t, a, n) == total(c, s, t, b, n),
    decreases n,
{
    if n > 0 {
        lemma_total(c, s, t, a, b, (n - 1) as nat);
        assert(a[n - 1] == b[n - 1]);
    }
}

/// A sum over a column is nothing without rows, and a row adds its cell to it: as a double where the
/// column holds doubles, as a signed integer, round the end, where it holds integers.
pub proof fn a_row_adds_its_cell_to_a_sum<F: Fn(FloatOp, u64, u64) -> u64, P: Fn(&str) -> Option<u64>>(
    c: Env<F, P>,
    name: String,
    t: Held,
    rows: Seq<usize>,
    row: usize,
    i: usize,
)
    requires
        t.number(name@) == Some(i),
        t.col_types[i as int] == ColType::Float || t.col_types[i as int] == ColType::Int,
    ensures
        t.col_types[i as int] == ColType::Float ==> {
            &&& sum_over(c, &Expr2::Col(name), t, Seq::empty()) == Ok::<Val, Fail>(Val::Float(0))
            &&& sum_over(c, &Expr2::Col(name), t, rows) matches Ok(Val::Float(s)) && sum_over(
                c,
                &Expr2::Col(name),
                t,
                rows.push(row),
            ) == Ok::<Val, Fail>(Val::Float(arith(c.fpu, FloatOp::Add, s, t.columns[i as int][row as int])))
        },
        t.col_types[i as int] == ColType::Int ==> {
            &&& sum_over(c, &Expr2::Col(name), t, Seq::empty()) == Ok::<Val, Fail>(Val::Int(0))
            &&& sum_over(c, &Expr2::Col(name), t, rows) matches Ok(Val::Int(s)) && sum_over(
                c,
                &Expr2::Col(name),
                t,
                rows.push(row),
            ) == Ok::<Val, Fail>(Val::Int(s.wrapping_add(word_signed(t.columns[i as int][row as int]))))
        },
{
    let more = rows.push(row);
    assert(more[rows.len() as int] == row);
    if t.col_types[i as int] == ColType::Int {
        lemma_int_total(t.columns[i as int], rows, more, rows.len());
    } else {
        let s = crate::sql::totals::Addend::Cell(i);
        lemma_total(c, s, t, rows, more, rows.len());
        lemma_cell_total(c, t, i, rows, rows.len());
    }
}

proof fn lemma_cell_total<F: Fn(FloatOp, u64, u64) -> u64, P: Fn(&str) -> Option<u64>>(c: Env<F, P>, t: Held, i: usize, rows: Seq<usize>, n: nat)
    ensures
        total(c, crate::sql::totals::Addend::Cell(i), t, rows, n) is Ok,
    decreases n,
{
    if n > 0 {
        lemma_cell_total(c, t, i, rows, (n - 1) as nat);
    }
}

/// An average is the sum over the number of rows; there is none without rows.
pub proof fn averages_are_sums_over_numbers<F: Fn(FloatOp, u64, u64) -> u64, P: Fn(&str) -> Option<u64>>(c: Env<F, P>, arg: Expr2, t: Held, rows: Seq<usize>)
    requires
        aggregate_over(c, AggFunc::Sum, &arg, t, rows) is Ok,
    ensures
        aggregate_over(c, AggFunc::Avg, &arg, t, rows) == Ok::<Val, Fail>(
            if rows.len() == 0 {
                Val::Null
            } else {
                Val::Float(
                    arith(
                        c.fpu,
                        FloatOp::Div,
                        match as_double(c.fpu, c.reader, aggregate_over(c, AggFunc::Sum, &arg, t, rows)->Ok_0) {
                            Some(b) => b,
                            None => 0,
                        },
                        arith(c.fpu, FloatOp::FromU64, rows.len() as u64, 0),
                    ),
                )
            },
        ),
{
}

/// The least integer of a column over rows is among its cells and no cell is below it; the greatest is
/// among them and none is above it; there is neither without rows.
pub proof fn least_and_greatest_integers_bound_the_cells<F: Fn(FloatOp, u64, u64) -> u64, P: Fn(&str) -> Option<u64>>(
    c: Env<F, P>,
    name: String,
    t: Held,
    rows: Seq<usize>,
    i: usize,
)
    requires
        t.number(name@) == Some(i),
        t.col_types[i as int] != ColType::Float,
    ensures
        rows.len() == 0 ==> aggregate_over(c, AggFunc::Min, &Expr2::Col(name), t, rows) == Ok::<Val, Fail>(Val::Null)
            && aggregate_over(c, AggFunc::Max, &Expr2::Col(name), t, rows) == Ok::<Val, Fail>(Val::Null),
        rows.len() > 0 ==> {
            &&& aggregate_over(c, AggFunc::Min, &Expr2::Col(name), t, rows) matches Ok(Val::Int(low)) && forall|k: int|
                0 <= k < rows.len() ==> low <= word_signed(t.columns[i as int][#[trigger] rows[k] as int])
            &&& aggregate_over(c, AggFunc::Max, &Expr2::Col(name), t, rows) matches Ok(Val::Int(high)) && forall|k: int|
                0 <= k < rows.len() ==> high >= word_signed(t.columns[i as int][#[trigger] rows[k] as int])
            &&& exists|k: int|
                0 <= k < rows.len() && aggregate_over(c, AggFunc::Min, &Expr2::Col(name), t, rows) == Ok::<Val, Fail>(
                    Val::Int(word_signed(t.columns[i as int][#[trigger] rows[k] as int])),
                )
            &&& exists|k: int|
                0 <= k < rows.len() && aggregate_over(c, AggFunc::Max, &Expr2::Col(name), t, rows) == Ok::<Val, Fail>(
                    Val::Int(word_signed(t.columns[i as int][#[trigger] rows[k] as int])),
                )
        },
{
    let cells = t.columns[i as int];
    lemma_best_int(true, cells, rows, rows.len());
    lemma_best_int(false, cells, rows, rows.len());
}

proof fn lemma_best_int(is_min: bool, cells: Seq<u64>, rows: Seq<usize>, n: nat)
    requires
        n <= rows.len(),
    ensures
        n == 0 ==> best_int(is_min, cells, rows, n) is None,
        n > 0 ==> {
            &&& best_int(is_min, cells, rows, n) matches Some(b) && forall|k: int|
                0 <= k < n ==> (if is_min {
                    b <= word_signed(cells[#[trigger] rows[k] as int])
                } else {
                    b >= word_signed(cells[rows[k] as int])
                })
            &&& exists|k: int|
                0 <= k < n && best_int(is_min, cells, rows, n) == Some(word_signed(cells[#[trigger] rows[k] as int]))
        },
    decreases n,
{
    if n > 0 {
        lemma_best_int(is_min, cells, rows, (n - 1) as nat);
        let x = word_signed(cells[rows[n - 1] as int]);
        let now = best_int(is_min, cells, rows, n);
        if now == Some(x) {
            assert(now == Some(word_signed(cells[rows[n - 1] as int])));
        } else {
            let k = choose|k: int|
                0 <= k < n - 1 && best_int(is_min, cells, rows, (n - 1) as nat) == Some(
                    word_signed(cells[#[trigger] rows[k] as int]),
                );
            assert(now == Some(word_signed(cells[rows[k] as int])));
        }
    }
}

/// No double of a group that is a number is below the least one found, or above the greatest one; and what
/// is found is one of the doubles, or the infinity that nothing exceeds.
pub proof fn least_and_greatest_doubles_bound_the_cells(cells: Seq<u64>, rows: Seq<usize>, n: nat)
    requires
        n <= rows.len(),
    ensures
        forall|k: int|
            0 <= k < n ==> !float_lt(cells[#[trigger] rows[k] as int], extreme_over(true, cells, rows, n)) && !float_lt(
                extreme_over(false, cells, rows, n),
                cells[rows[k] as int],
            ),
        extreme_over(true, cells, rows, n) == INFINITY_BITS || exists|k: int|
            0 <= k < n && cells[#[trigger] rows[k] as int] == extreme_over(true, cells, rows, n),
        extreme_over(false, cells, rows, n) == NEG_INFINITY_BITS || exists|k: int|
            0 <= k < n && cells[#[trigger] rows[k] as int] == extreme_over(false, cells, rows, n),
        !is_nan(extreme_over(true, cells, rows, n)) && !is_nan(extreme_over(false, cells, rows, n)),
    decreases n,
{
    if n > 0 {
        least_and_greatest_doubles_bound_the_cells(cells, rows, (n - 1) as nat);
        let x = cells[rows[n - 1] as int];
        let low = extreme_over(true, cells, rows, (n - 1) as nat);
        let high = extreme_over(false, cells, rows, (n - 1) as nat);
        if extreme_over(true, cells, rows, n) == x {
            assert(cells[rows[n - 1] as int] == extreme_over(true, cells, rows, n));
        } else if low != INFINITY_BITS {
            let k = choose|k: int| 0 <= k < n - 1 && cells[#[trigger] rows[k] as int] == low;
            assert(cells[rows[k] as int] == extreme_over(true, cells, rows, n));
        }
        if extreme_over(false, cells, rows, n) == x {
            assert(cells[rows[n - 1] as int] == extreme_over(false, cells, rows, n));
        } else if high != NEG_INFINITY_BITS {
            let k = choose|k: int| 0 <= k < n - 1 && cells[#[trigger] rows[k] as int] == high;
            assert(cells[rows[k] as int] == extreme_over(false, cells, rows, n));
        }
    }
}

proof fn lemma_extreme(is_min: bool, cells: Seq<u64>, lines: Seq<Term>, k: Key, n: nat)
    requires
        n <= lines.len(),
        n <= usize::MAX,
    ensures
        extreme(is_min, cells, lines, k, n) == extreme_over(
            is_min,
            cells,
            members(lines, k, n as int),
            members(lines, k, n as int).len(),
        ),
        members(lines, k, n as int).len() == key_count(lines, k, n as int),
        match first_row(lines, k, n) {
            Some(r) => members(lines, k, n as int).len() > 0 && members(lines, k, n as int)[0] == r,
            None => members(lines, k, n as int).len() == 0,
        },
    decreases n,
{
    if n > 0 {
        lemma_extreme(is_min, cells, lines, k, (n - 1) as nat);
        let before = members(lines, k, n - 1);
        let now = members(lines, k, n as int);
        if row_has(lines, n - 1, k) {
            lemma_extreme_prefix(is_min, cells, before, now, before.len());
            assert(now[before.len() as int] == n - 1);
        }
    }
}

proof fn lemma_extreme_prefix(is_min: bool, cells: Seq<u64>, a: Seq<usize>, b: Seq<usize>, n: nat)
    requires
        n <= a.len(),
        n <= b.len(),
        forall|i: int| 0 <= i < n ==> #[trigger] a[i] == b[i],
    ensures
        extreme_over(is_min, cells, a, n) == extreme_over(is_min, cells, b, n),
    decreases n,
{
    if n > 0 {
        lemma_extreme_prefix(is_min, cells, a, b, (n - 1) as nat);
        assert(a[n - 1] == b[n - 1]);
    }
}

/// Few groups are answered in one pass as many are: a count is that of the rows of the group, a column
/// shows the cell of its first row, and the least and greatest doubles are those over its rows.
pub proof fn one_pass_agrees_with_the_groups<F: Fn(FloatOp, u64, u64) -> u64>(
    f: F,
    t: Held,
    lines: Seq<Term>,
    a: usize,
    g: int,
)
    requires
        lines.len() <= usize::MAX,
        0 <= g < grouped_rows(lines).len(),
    ensures
        low_card_cells(f, AggPlan::CountAll, t, lines)[g] == grouped_rows(lines)[g].len(),
        grouped_rows(lines)[g].len() > 0,
        low_card_cells(f, AggPlan::GroupByCol(a), t, lines)[g] == t.columns[a as int][grouped_rows(lines)[g][0] as int],
        low_card_cells(f, AggPlan::MinCol(a), t, lines)[g] == extreme_over(
            true,
            t.columns[a as int],
            grouped_rows(lines)[g],
            grouped_rows(lines)[g].len(),
        ),
        low_card_cells(f, AggPlan::MaxCol(a), t, lines)[g] == extreme_over(
            false,
            t.columns[a as int],
            grouped_rows(lines)[g],
            grouped_rows(lines)[g].len(),
        ),
{
    let k = group_keys(lines)[g];
    let cells = t.columns[a as int];
    lemma_extreme(true, cells, lines, k, lines.len());
    lemma_extreme(false, cells, lines, k, lines.len());
    keys_seen_are_row_keys(lines, lines.len() as int, k);
    assert(group_keys(lines).contains(k));
    let w = choose|i: int| 0 <= i < lines.len() && #[trigger] row_has(lines, i, k);
    groups_partition_rows(lines, k, lines.len() as int, w as usize);
    lemma_members_len(lines, k, lines.len());
}

proof fn lemma_members_len(lines: Seq<Term>, k: Key, n: nat)
    ensures
        members(lines, k, n as int).len() <= n,
    decreases n,
{
    if n > 0 {
        lemma_members_len(lines, k, (n - 1) as nat);
    }
}

/// Without `GROUP BY` there is one row, and each item shows its value over all rows that count.
pub proof fn one_row_over_all_rows<F: Fn(FloatOp, u64, u64) -> u64, P: Fn(&str) -> Option<u64>, D: Fn(u64) -> String>(
    c: Env<F, P>,
    d: D,
    select: Seq<SelectItem2>,
    t: Held,
    rows: Seq<usize>,
    n: nat,
)
    requires
        n <= select.len(),
        scalar_columns(c, d, select, t, rows, n) is Ok,
    ensures
        scalar_columns(c, d, select, t, rows, n)->Ok_0.len() == n,
        forall|k: int|
            0 <= k < n ==> (#[trigger] scalar_columns(c, d, select, t, rows, n)->Ok_0[k]).0 == item_name(d, select[k]) && (
            group_value(c, select[k].expr, t, rows) matches Ok(v) && scalar_columns(c, d, select, t, rows, n)->Ok_0[k].1
                == seq![to_cell(v)]),
    decreases n,
{
    if n > 0 {
        one_row_over_all_rows(c, d, select, t, rows, (n - 1) as nat);
        let before = scalar_columns(c, d, select, t, rows, (n - 1) as nat)->Ok_0;
        let now = scalar_columns(c, d, select, t, rows, n)->Ok_0;
        assert forall|k: int| 0 <= k < n implies (#[trigger] now[k]).0 == item_name(d, select[k]) && (group_value(
            c,
            select[k].expr,
            t,
            rows,
        ) matches Ok(v) && now[k].1 == seq![to_cell(v)]) by {
            if k < n - 1 {
                assert(now[k] == before[k]);
            }
        }
    }
}

/// The answer to a grouped query shows rows in the order that is asked for, as many as the limit allows:
/// one for each group of rows that `HAVING` keeps.
pub proof fn grouped_answers_are_sorted_and_cut<
    F: Fn(FloatOp, u64, u64) -> u64, P: Fn(&str) -> Option<u64>,
    T: Fn(RowSum, &Vec<u64>, &Vec<u64>, &Vec<u64>, &Vec<usize>) -> u64,
    D: Fn(u64) -> String,
>(c: Env<F, P>, s: T, d: D, query: SelectQuery2, t: Held, mask: Seq<bool>)
    requires
        0 <= t.row_count <= usize::MAX,
        query.group_by@.len() > 0,
        grouped_outcome(c, s, d, query, t, mask) is Ok,
    ensures
        ({
            let a = grouped_outcome(c, s, d, query, t, mask)->Ok_0;
            let groups = grouped_rows(group_lines(c, query.group_by@, t, mask));
            exists|columns: Seq<(Seq<char>, Seq<u64>)>, n: nat, order: Seq<usize>|
                columns.len() == query.select@.len() && a.row_count == shown_rows(n as int, query.limit)
                    && #[trigger] is_rearrangement(order, n as int) && #[trigger] shows(a, columns, order)
                    && listed_in_order(cells_named(d, columns, query.order_by@, n as int), query.order_by@, order) && (
                query.having is None ==> n == groups.len())
        }),
{
    let lines = group_lines(c, query.group_by@, t, mask);
    let groups = grouped_rows(lines);
    let a = grouped_outcome(c, s, d, query, t, mask)->Ok_0;
    assert(lines.len() == t.row_count);
    lemma_group_number(lines, lines.len() as int);
    if low_card_fits(c, query, t, mask) {
        let columns = low_card_columns(c, d, query, t, mask);
        let n = group_keys(lines).len();
        grouped_rows_are_sorted_and_cut(d, columns, n as int, query.order_by@, query.limit);
        let order = choose|order: Seq<usize>| #[trigger]
            is_rearrangement(order, n as int) && shows(a, columns, order) && listed_in_order(
                cells_named(d, columns, query.order_by@, n as int),
                query.order_by@,
                order,
            );
        assert(is_rearrangement(order, n as int) && shows(a, columns, order));
    } else {
        let kept = having_groups(c, query.having, t, groups, groups.len())->Ok_0;
        let columns = grouped_columns(c, s, d, query.select@, t, kept);
        let n = kept.len();
        having_keeps_the_groups_where_it_is_true(c, query.having, t, groups, groups.len());
        lemma_having_len(c, query.having, t, groups, groups.len());
        assert(groups.take(groups.len() as int) =~= groups);
        grouped_rows_are_sorted_and_cut(d, columns, n as int, query.order_by@, query.limit);
        let order = choose|order: Seq<usize>| #[trigger]
            is_rearrangement(order, n as int) && shows(a, columns, order) && listed_in_order(
                cells_named(d, columns, query.order_by@, n as int),
                query.order_by@,
                order,
            );
        assert(is_rearrangement(order, n as int) && shows(a, columns, order));
    }
}

proof fn lemma_group_number(lines: Seq<Term>, n: int)
    requires
        0 <= n <= lines.len(),
    ensures
        keys_seen(lines, n).len() <= n,
    decreases n,
{
    if n > 0 {
        lemma_group_number(lines, n - 1);
    }
}

proof fn lemma_having_len<F: Fn(FloatOp, u64, u64) -> u64, P: Fn(&str) -> Option<u64>>(c: Env<F, P>, having: Option<Expr2>, t: Held, groups: Seq<Seq<usize>>, n: nat)
    requires
        having_groups(c, having, t, groups, n) is Ok,
    ensures
        having_groups(c, having, t, groups, n)->Ok_0.len() <= n,
    decreases n,
{
    if n > 0 {
        lemma_having_len(c, having, t, groups, (n - 1) as nat);
    }
}

} // verus!
