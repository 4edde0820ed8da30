//! Which rows a condition lets pass.

use crate::float_bits::{arith, float_eq, float_lt, is_nan, FloatOp};
use crate::hashing::text_hash;
use crate::sql::ast::{BinOp2, ColType, Expr2, SelectQuery2};
use crate::sql::eval::{value_of, Env};
use crate::sql::exec_table::Held;
use crate::sql::masks::{
    all_in, conditions_only_narrow, list_cells, narrowed, narrowing_is_a_conjunction, pair_columns, true_rows,
};
use crate::sql::query::{base_of, narrowed_by};
use crate::sql::shape::{is_row_bound, leaves, varies};
use crate::sql::value::{is_true, to_cell, Val};
use crate::word::{signed_word, word_signed};
use vstd::prelude::*;

verus! {

/// A condition lets a row of a table pass.
pub open spec fn passes<F: Fn(FloatOp, u64, u64) -> u64, P: Fn(&str) -> Option<u64>>(c: Env<F, P>, e: Expr2, t: Held, i: int) -> bool {
    narrowed(c, e, t, all_in(t.row_count as nat)) matches Ok(m) && m[i]
}

/// The condition has an answer on the rows of a table.
pub open spec fn is_decided<F: Fn(FloatOp, u64, u64) -> u64, P: Fn(&str) -> Option<u64>>(c: Env<F, P>, e: Expr2, t: Held) -> bool {
    narrowed(c, e, t, all_in(t.row_count as nat)) is Ok
}

/// A row passes a conjunction exactly if it passes both sides.
pub proof fn conjunction_passes_both<F: Fn(FloatOp, u64, u64) -> u64, P: Fn(&str) -> Option<u64>>(c: Env<F, P>, x: Expr2, y: Expr2, t: Held, i: int)
    requires
        0 <= i < t.row_count,
        is_decided(c, x, t),
        is_decided(c, y, t),
        is_decided(c, (Expr2::BinOp { op: BinOp2::And, left: Box::new(x), right: Box::new(y) }), t),
    ensures
        passes(c, (Expr2::BinOp { op: BinOp2::And, left: Box::new(x), right: Box::new(y) }), t, i) <==> passes(
            c,
            x,
            t,
            i,
        ) && passes(c, y, t, i),
{
    let all = all_in(t.row_count as nat);
    let m = narrowed(c, x, t, all)->Ok_0;
    conditions_only_narrow(c, x, t, all);
    narrowing_is_a_conjunction(c, y, t, m);
}

/// A row passes a disjunction exactly if it passes one of its sides, where the sides are looked at one by
/// one.
pub proof fn disjunction_passes_one<F: Fn(FloatOp, u64, u64) -> u64, P: Fn(&str) -> Option<u64>>(c: Env<F, P>, x: Expr2, y: Expr2, t: Held, i: int)
    requires
        0 <= i < t.row_count,
        is_decided(c, x, t),
        is_decided(c, y, t),
        pair_columns((Expr2::BinOp { op: BinOp2::Or, left: Box::new(x), right: Box::new(y) }), t) is None,
    ensures
        passes(c, (Expr2::BinOp { op: BinOp2::Or, left: Box::new(x), right: Box::new(y) }), t, i) <==> passes(
            c,
            x,
            t,
            i,
        ) || passes(c, y, t, i),
{
}

/// What a comparison says of two integers.
pub open spec fn ints_compare(op: BinOp2, x: int, y: int) -> bool {
    match op {
        BinOp2::Eq => x == y,
        BinOp2::Ne => x != y,
        BinOp2::Lt => x < y,
        BinOp2::Gt => x > y,
        BinOp2::Le => x <= y,
        BinOp2::Ge => x >= y,
        _ => false,
    }
}

/// The operation compares.
pub open spec fn is_comparison(op: BinOp2) -> bool {
    op == BinOp2::Eq || op == BinOp2::Ne || op == BinOp2::Lt || op == BinOp2::Gt || op == BinOp2::Le || op
        == BinOp2::Ge
}

proof fn lemma_fixed(e: Expr2)
    requires
        e is Int || e is Float || e is Str || e is Date,
    ensures
        !varies(e),
{
    assert(leaves(e) =~= seq![e]);
    assert forall|i: int| 0 <= i < leaves(e).len() implies !is_row_bound(#[trigger] leaves(e)[i]) by {
        assert(leaves(e)[i] == e);
    }
}

/// A row passes a comparison of an integer column with an integer exactly if its cell, as a signed integer,
/// compares so, whichever side the column stands on.
pub proof fn integer_column_is_compared<F: Fn(FloatOp, u64, u64) -> u64, P: Fn(&str) -> Option<u64>>(
    c: Env<F, P>,
    op: BinOp2,
    name: String,
    k: i64,
    t: Held,
    col: usize,
    i: int,
)
    requires
        0 <= i < t.row_count,
        is_comparison(op),
        t.number(name@) == Some(col),
        t.col_types[col as int] == ColType::Int,
    ensures
        passes(
            c,
            (Expr2::BinOp { op, left: Box::new(Expr2::Col(name)), right: Box::new(Expr2::Int(k)) }),
            t,
            i,
        ) <==> ints_compare(op, word_signed(t.columns[col as int][i]) as int, k as int),
        passes(
            c,
            (Expr2::BinOp { op, left: Box::new(Expr2::Int(k)), right: Box::new(Expr2::Col(name)) }),
            t,
            i,
        ) <==> ints_compare(op, k as int, word_signed(t.columns[col as int][i]) as int),
{
    lemma_fixed(Expr2::Int(k));
}

/// A row passes a comparison of a column of days with a day exactly if its cell compares so.
pub proof fn day_column_is_compared<F: Fn(FloatOp, u64, u64) -> u64, P: Fn(&str) -> Option<u64>>(
    c: Env<F, P>,
    op: BinOp2,
    name: String,
    day: i32,
    t: Held,
    col: usize,
    i: int,
)
    requires
        0 <= i < t.row_count,
        is_comparison(op),
        t.number(name@) == Some(col),
        t.col_types[col as int] == ColType::Date,
    ensures
        passes(
            c,
            (Expr2::BinOp { op, left: Box::new(Expr2::Col(name)), right: Box::new(Expr2::Date(day)) }),
            t,
            i,
        ) <==> ints_compare(op, t.columns[col as int][i] as int, signed_word(day as i64) as int),
        passes(
            c,
            (Expr2::BinOp { op, left: Box::new(Expr2::Date(day)), right: Box::new(Expr2::Col(name)) }),
            t,
            i,
        ) <==> ints_compare(op, signed_word(day as i64) as int, t.columns[col as int][i] as int),
{
    lemma_fixed(Expr2::Date(day));
}

/// A row passes a comparison of a column of doubles with a double exactly if its cell compares so as a
/// double; equality holds up to rounding.
pub proof fn double_column_is_compared<F: Fn(FloatOp, u64, u64) -> u64, P: Fn(&str) -> Option<u64>>(
    c: Env<F, P>,
    name: String,
    b: u64,
    t: Held,
    col: usize,
    i: int,
)
    requires
        0 <= i < t.row_count,
        t.number(name@) == Some(col),
        t.col_types[col as int] == ColType::Float,
    ensures
        ({
            let x = t.columns[col as int][i];
            let side = |op: BinOp2|
                Expr2::BinOp { op, left: Box::new(Expr2::Col(name)), right: Box::new(Expr2::Float(b)) };
            let other = |op: BinOp2|
                Expr2::BinOp { op, left: Box::new(Expr2::Float(b)), right: Box::new(Expr2::Col(name)) };
            &&& passes(c, side(BinOp2::Lt), t, i) <==> float_lt(x, b)
            &&& passes(c, side(BinOp2::Gt), t, i) <==> float_lt(b, x)
            &&& passes(c, side(BinOp2::Le), t, i) <==> float_lt(x, b) || float_eq(x, b)
            &&& passes(c, side(BinOp2::Ge), t, i) <==> float_lt(b, x) || float_eq(b, x)
            &&& passes(c, side(BinOp2::Ne), t, i) <==> !float_eq(x, b)
            &&& passes(c, side(BinOp2::Eq), t, i) <==> arith(c.fpu, FloatOp::Near, x, b) != 0
            &&& passes(c, other(BinOp2::Lt), t, i) <==> float_lt(b, x)
            &&& passes(c, other(BinOp2::Gt), t, i) <==> float_lt(x, b)
        }),
{
    lemma_fixed(Expr2::Float(b));
}

/// A row passes the equality of a column of texts with a text exactly if its cell is the hash of the text,
/// and the inequality exactly if it is not.
pub proof fn text_column_is_compared<F: Fn(FloatOp, u64, u64) -> u64, P: Fn(&str) -> Option<u64>>(
    c: Env<F, P>,
    name: String,
    s: String,
    t: Held,
    col: usize,
    i: int,
)
    requires
        0 <= i < t.row_count,
        t.number(name@) == Some(col),
        t.col_types[col as int] == ColType::String,
    ensures
        passes(
            c,
            (Expr2::BinOp { op: BinOp2::Eq, left: Box::new(Expr2::Col(name)), right: Box::new(Expr2::Str(s)) }),
            t,
            i,
        ) <==> t.columns[col as int][i] == text_hash(s@),
        passes(
            c,
            (Expr2::BinOp { op: BinOp2::Ne, left: Box::new(Expr2::Col(name)), right: Box::new(Expr2::Str(s)) }),
            t,
            i,
        ) <==> t.columns[col as int][i] != text_hash(s@),
{
    lemma_fixed(Expr2::Str(s));
}

/// A row passes the equality of two columns of one type that is not that of doubles exactly if its cells
/// are equal, and the inequality exactly if they are not.
pub proof fn two_columns_are_compared<F: Fn(FloatOp, u64, u64) -> u64, P: Fn(&str) -> Option<u64>>(
    c: Env<F, P>,
    x: String,
    y: String,
    t: Held,
    a: usize,
    b: usize,
    i: int,
)
    requires
        0 <= i < t.row_count,
        t.number(x@) == Some(a),
        t.number(y@) == Some(b),
        t.col_types[a as int] == t.col_types[b as int],
        t.col_types[a as int] != ColType::Float,
    ensures
        passes(
            c,
            (Expr2::BinOp { op: BinOp2::Eq, left: Box::new(Expr2::Col(x)), right: Box::new(Expr2::Col(y)) }),
            t,
            i,
        ) <==> t.columns[a as int][i] == t.columns[b as int][i],
        passes(
            c,
            (Expr2::BinOp { op: BinOp2::Ne, left: Box::new(Expr2::Col(x)), right: Box::new(Expr2::Col(y)) }),
            t,
            i,
        ) <==> t.columns[a as int][i] != t.columns[b as int][i],
{
    assert(leaves(Expr2::Col(x)) =~= seq![Expr2::Col(x)]);
    assert(leaves(Expr2::Col(y)) =~= seq![Expr2::Col(y)]);
    assert(is_row_bound(leaves(Expr2::Col(x))[0]));
    assert(is_row_bound(leaves(Expr2::Col(y))[0]));
    assert(varies(Expr2::Col(x)) && varies(Expr2::Col(y)));
}

/// A row passes `column BETWEEN low AND high` exactly if its cell lies between the bounds, both of them
/// included, and `NOT BETWEEN` exactly if it does not.
pub proof fn integer_column_lies_between<F: Fn(FloatOp, u64, u64) -> u64, P: Fn(&str) -> Option<u64>>(
    c: Env<F, P>,
    name: String,
    low: i64,
    high: i64,
    negated: bool,
    t: Held,
    col: usize,
    i: int,
)
    requires
        0 <= i < t.row_count,
        t.number(name@) == Some(col),
        t.col_types[col as int] == ColType::Int,
    ensures
        passes(
            c,
            (Expr2::Between {
                expr: Box::new(Expr2::Col(name)),
                low: Box::new(Expr2::Int(low)),
                high: Box::new(Expr2::Int(high)),
                negated,
            }),
            t,
            i,
        ) <==> negated != (low <= word_signed(t.columns[col as int][i]) <= high),
{
}

/// The same of a column of days, where the days are not before the first.
pub proof fn day_column_lies_between<F: Fn(FloatOp, u64, u64) -> u64, P: Fn(&str) -> Option<u64>>(
    c: Env<F, P>,
    name: String,
    low: i32,
    high: i32,
    negated: bool,
    t: Held,
    col: usize,
    i: int,
)
    requires
        0 <= i < t.row_count,
        0 <= low,
        0 <= high,
        t.number(name@) == Some(col),
        t.col_types[col as int] == ColType::Date,
    ensures
        passes(
            c,
            (Expr2::Between {
                expr: Box::new(Expr2::Col(name)),
                low: Box::new(Expr2::Date(low)),
                high: Box::new(Expr2::Date(high)),
                negated,
            }),
            t,
            i,
        ) <==> negated != (low <= t.columns[col as int][i] <= high),
{
}

/// The same of a column of doubles, where none of the three is out of order.
pub proof fn double_column_lies_between<F: Fn(FloatOp, u64, u64) -> u64, P: Fn(&str) -> Option<u64>>(
    c: Env<F, P>,
    name: String,
    low: u64,
    high: u64,
    negated: bool,
    t: Held,
    col: usize,
    i: int,
)
    requires
        0 <= i < t.row_count,
        t.number(name@) == Some(col),
        t.col_types[col as int] == ColType::Float,
        !is_nan(low),
        !is_nan(high),
        !is_nan(t.columns[col as int][i]),
    ensures
        passes(
            c,
            (Expr2::Between {
                expr: Box::new(Expr2::Col(name)),
                low: Box::new(Expr2::Float(low)),
                high: Box::new(Expr2::Float(high)),
                negated,
            }),
            t,
            i,
        ) <==> negated != (!float_lt(t.columns[col as int][i], low) && !float_lt(high, t.columns[col as int][i])),
{
}

proof fn lemma_list_cells<F: Fn(FloatOp, u64, u64) -> u64, P: Fn(&str) -> Option<u64>>(c: Env<F, P>, list: Seq<Expr2>, t: Held, n: nat, x: u64)
    requires
        n <= list.len(),
        forall|k: int|
            0 <= k < n ==> ((#[trigger] list[k]) is Int || list[k] is Float || list[k] is Str || list[k] is Date),
    ensures
        list_cells(c, list, t, n).contains(x) <==> exists|k: int|
            0 <= k < n && literal_cell(#[trigger] list[k]) == x,
    decreases n,
{
    if n > 0 {
        lemma_list_cells(c, list, t, (n - 1) as nat, x);
        let before = list_cells(c, list, t, (n - 1) as nat);
        let now = list_cells(c, list, t, n);
        let y = literal_cell(list[n - 1]);
        assert(now == before.push(y));
        if now.contains(x) {
            let i = choose|i: int| 0 <= i < now.len() && now[i] == x;
            if i < before.len() {
                assert(before[i] == x);
                assert(before.contains(x));
            } else {
                assert(literal_cell(list[n - 1]) == x);
            }
        }
        if exists|k: int| 0 <= k < n && literal_cell(#[trigger] list[k]) == x {
            let k = choose|k: int| 0 <= k < n && literal_cell(#[trigger] list[k]) == x;
            if k < n - 1 {
                assert(before.contains(x));
                let i = choose|i: int| 0 <= i < before.len() && before[i] == x;
                assert(now[i] == x);
            } else {
                assert(now[before.len() as int] == x);
            }
        }
    }
}

/// The cell of a number, text or day as it is written in a query.
pub open spec fn literal_cell(e: Expr2) -> u64 {
    match e {
        Expr2::Int(k) => signed_word(k),
        Expr2::Float(b) => b,
        Expr2::Str(s) => text_hash(s@),
        Expr2::Date(d) => to_cell(Val::Date(d)),
        _ => 0,
    }
}

/// A row passes `column IN (list)` exactly if its cell is that of an item, and `NOT IN` exactly if it is
/// that of none.
pub proof fn column_is_in_list<F: Fn(FloatOp, u64, u64) -> u64, P: Fn(&str) -> Option<u64>>(
    c: Env<F, P>,
    name: String,
    list: Vec<Expr2>,
    negated: bool,
    t: Held,
    col: usize,
    i: int,
)
    requires
        0 <= i < t.row_count,
        t.number(name@) == Some(col),
        forall|k: int|
            0 <= k < list@.len() ==> ((#[trigger] list@[k]) is Int || list@[k] is Float || list@[k] is Str
                || list@[k] is Date),
    ensures
        passes(c, (Expr2::InList { expr: Box::new(Expr2::Col(name)), list, negated }), t, i) <==> negated != (exists|k: int|
            0 <= k < list@.len() && literal_cell(#[trigger] list@[k]) == t.columns[col as int][i]),
{
    lemma_list_cells(c, list@, t, list@.len(), t.columns[col as int][i]);
}

/// `NOT LIKE` lets exactly those rows pass that `LIKE` does not.
pub proof fn not_like_passes_the_others<F: Fn(FloatOp, u64, u64) -> u64, P: Fn(&str) -> Option<u64>>(c: Env<F, P>, x: Expr2, pattern: Expr2, t: Held, i: int)
    requires
        0 <= i < t.row_count <= usize::MAX,
        is_decided(c, (Expr2::Like { expr: Box::new(x), pattern: Box::new(pattern), negated: false }), t),
        is_decided(c, (Expr2::Like { expr: Box::new(x), pattern: Box::new(pattern), negated: true }), t),
    ensures
        passes(c, (Expr2::Like { expr: Box::new(x), pattern: Box::new(pattern), negated: true }), t, i) <==> !passes(
            c,
            (Expr2::Like { expr: Box::new(x), pattern: Box::new(pattern), negated: false }),
            t,
            i,
        ),
{
    lemma_like_rows(c, x, pattern, t, t.row_count as nat);
}

proof fn lemma_like_rows<F: Fn(FloatOp, u64, u64) -> u64, P: Fn(&str) -> Option<u64>>(c: Env<F, P>, x: Expr2, pattern: Expr2, t: Held, n: nat)
    requires
        n <= t.row_count <= usize::MAX,
    ensures
        ({
            let all = all_in(t.row_count as nat);
            let a = crate::sql::masks::like_rows(c, x, pattern, false, t, all, n);
            let b = crate::sql::masks::like_rows(c, x, pattern, true, t, all, n);
            &&& a is Ok <==> b is Ok
            &&& a is Ok ==> a->Ok_0.len() == n && b->Ok_0.len() == n && (forall|i: int|
                0 <= i < n ==> #[trigger] a->Ok_0[i] != b->Ok_0[i])
        }),
    decreases n,
{
    if n > 0 {
        lemma_like_rows(c, x, pattern, t, (n - 1) as nat);
    }
}

proof fn lemma_true_rows<F: Fn(FloatOp, u64, u64) -> u64, P: Fn(&str) -> Option<u64>>(c: Env<F, P>, e: Expr2, t: Held, mask: Seq<bool>, n: nat)
    requires
        n <= mask.len(),
        n <= usize::MAX,
        true_rows(c, e, t, mask, n) is Ok,
    ensures
        true_rows(c, e, t, mask, n)->Ok_0.len() == n,
        forall|i: int|
            0 <= i < n ==> (#[trigger] true_rows(c, e, t, mask, n)->Ok_0[i] <==> mask[i] && (value_of(
                c,
                e,
                t,
                i as usize,
            ) matches Ok(v) && is_true(v))),
    decreases n,
{
    if n > 0 {
        lemma_true_rows(c, e, t, mask, (n - 1) as nat);
        let before = true_rows(c, e, t, mask, (n - 1) as nat)->Ok_0;
        let now = true_rows(c, e, t, mask, n)->Ok_0;
        assert forall|i: int| 0 <= i < n implies (#[trigger] now[i] <==> mask[i] && (value_of(
            c,
            e,
            t,
            i as usize,
        ) matches Ok(v) && is_true(v))) by {
            if i < n - 1 {
                assert(now[i] == before[i]);
            }
        }
    }
}

/// A row passes a condition that is no operation, range, list or pattern exactly if its value on the row
/// is true.
pub proof fn other_conditions_pass_where_true<F: Fn(FloatOp, u64, u64) -> u64, P: Fn(&str) -> Option<u64>>(c: Env<F, P>, e: Expr2, t: Held, i: int)
    requires
        0 <= i < t.row_count <= usize::MAX,
        e is Not || e is Exists || e is InSubquery || e is Case || e is Subquery || e is Int,
        is_decided(c, e, t),
    ensures
        passes(c, e, t, i) <==> (value_of(c, e, t, i as usize) matches Ok(v) && is_true(v)),
{
    lemma_true_rows(c, e, t, all_in(t.row_count as nat), t.row_count as nat);
}

/// A row counts under several conditions exactly if it passes every one of them.
pub proof fn conditions_count_together<F: Fn(FloatOp, u64, u64) -> u64, P: Fn(&str) -> Option<u64>>(c: Env<F, P>, es: Seq<Expr2>, t: Held, n: nat, i: int)
    requires
        0 <= i < t.row_count,
        n <= es.len(),
        narrowed_by(c, es, t, n) is Ok,
        forall|k: int| 0 <= k < n ==> is_decided(c, #[trigger] es[k], t),
    ensures
        narrowed_by(c, es, t, n)->Ok_0.len() == t.row_count,
        narrowed_by(c, es, t, n)->Ok_0[i] <==> (forall|k: int| 0 <= k < n ==> passes(c, #[trigger] es[k], t, i)),
    decreases n,
{
    if n > 0 {
        conditions_count_together(c, es, t, (n - 1) as nat, i);
        let m = narrowed_by(c, es, t, (n - 1) as nat)->Ok_0;
        assert(is_decided(c, es[n - 1], t));
        narrowing_is_a_conjunction(c, es[n - 1], t, m);
        assert(all_in(m.len()) =~= all_in(t.row_count as nat));
        let now = narrowed_by(c, es, t, n)->Ok_0;
        assert(now[i] == (m[i] && passes(c, es[n - 1], t, i)));
        if now[i] {
            assert forall|k: int| 0 <= k < n implies passes(c, #[trigger] es[k], t, i) by {}
        }
    }
}

/// A query on one table counts exactly the rows that pass its condition; without one, every row.
pub proof fn one_table_counts_rows_that_pass<F: Fn(FloatOp, u64, u64) -> u64, P: Fn(&str) -> Option<u64>>(c: Env<F, P>, query: SelectQuery2, t: Held, i: int)
    requires
        0 <= i < t.row_count,
        base_of(c, query, seq![t]) is Ok,
    ensures
        base_of(c, query, seq![t]) matches Ok((u, m)) && u == t && m[i] == (match query.where_clause {
            Some(e) => passes(c, e, t, i),
            None => true,
        }),
{
    assert(seq![t].len() == 1 && seq![t][0] == t);
}

} // verus!
