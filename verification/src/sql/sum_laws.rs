//! What sums of products add up, how columns are named and found, and how cells hold values.

use crate::error::Fail;
use crate::float_bits::{arith, FloatOp};
use crate::sql::ast::{BinOp2, ColType, Expr2, SelectItem2};
use crate::sql::eval::Env;
use crate::sql::exec_table::{catalog_numbers, qualified, Held};
use crate::sql::group_laws::lemma_total;
use crate::sql::output::item_name;
use crate::sql::totals::{
    addend_in, charge_columns, discount_columns, sum_over, sum_plan, total, Addend, Operand,
    SumPlan,
};
use crate::sql::value::{date_half, half_date, to_cell, Val};
use crate::text::{lowercase, signed_decimal};
use vstd::prelude::*;

verus! {

proof fn lemma_one_more<F: Fn(FloatOp, u64, u64) -> u64, P: Fn(&str) -> Option<u64>>(c: Env<F, P>, a: Addend<'_>, t: Held, rows: Seq<usize>, row: usize)
    ensures
        total(c, a, t, rows.push(row), rows.len() + 1) == (match total(c, a, t, rows, rows.len()) {
            Ok(s) => match addend_in(c, a, t, row) {
                Ok(Some(x)) => Ok(arith(c.fpu, FloatOp::Add, s, x)),
                Ok(None) => Ok(s),
                Err(f) => Err(f),
            },
            Err(f) => Err(f),
        }),
{
    let more = rows.push(row);
    assert(more[rows.len() as int] == row);
    lemma_total(c, a, t, more, rows, rows.len());
}

proof fn lemma_sum_ok<F: Fn(FloatOp, u64, u64) -> u64, P: Fn(&str) -> Option<u64>>(c: Env<F, P>, a: Addend<'_>, t: Held, rows: Seq<usize>, n: nat)
    requires
        forall|row: usize| #[trigger] addend_in(c, a, t, row) is Ok,
    ensures
        total(c, a, t, rows, n) is Ok,
    decreases n,
{
    if n > 0 {
        lemma_sum_ok(c, a, t, rows, (n - 1) as nat);
        assert(addend_in(c, a, t, rows[n - 1]) is Ok);
    }
}

/// A sum of products, or of sums, of two columns of doubles adds the product, or the sum, of the cells of each row.
pub proof fn a_row_adds_its_product_to_a_sum<F: Fn(FloatOp, u64, u64) -> u64, P: Fn(&str) -> Option<u64>>(
    c: Env<F, P>,
    x: String,
    y: String,
    a: usize,
    b: usize,
    op: BinOp2,
    e: Expr2,
    t: Held,
    rows: Seq<usize>,
    row: usize,
)
    requires
        op == BinOp2::Mul || op == BinOp2::Add,
        e == (Expr2::BinOp { op, left: Box::new(Expr2::Col(x)), right: Box::new(Expr2::Col(y)) }),
        t.number(x@) == Some(a),
        t.number(y@) == Some(b),
        t.col_types[a as int] == ColType::Float,
        t.col_types[b as int] == ColType::Float,
    ensures
        sum_over(c, &e, t, Seq::empty()) == Ok::<Val, Fail>(Val::Float(0)),
        sum_over(c, &e, t, rows) matches Ok(Val::Float(s)) && sum_over(c, &e, t, rows.push(row)) == Ok::<Val, Fail>(
            Val::Float(
                arith(
                    c.fpu,
                    FloatOp::Add,
                    s,
                    arith(c.fpu, if op == BinOp2::Mul { FloatOp::Mul } else { FloatOp::Add }, t.columns[a as int][row as int], t.columns[b as int][row as int]),
                ),
            ),
        ),
{
    let fop = if op == BinOp2::Mul {
        FloatOp::Mul
    } else {
        FloatOp::Add
    };
    let s = Addend::Two(fop, Operand::Bits(a), Operand::Bits(b));
    if op == BinOp2::Mul {
        assert(discount_columns(e, t) is None);
        assert(charge_columns(Expr2::Col(x), Expr2::Col(y), t) is None);
    }
    assert(sum_plan(c, &e, t) == Ok::<SumPlan<'_>, Fail>(SumPlan::Doubles(s)));
    lemma_sum_ok(c, s, t, rows, rows.len());
    lemma_one_more(c, s, t, rows, row);
}

/// A sum of `a * (1 - b)` adds the cell of the one column times what the other one leaves of one. (The word is that of one.)
pub proof fn a_row_adds_its_discounted_price_to_a_sum<F: Fn(FloatOp, u64, u64) -> u64, P: Fn(&str) -> Option<u64>>(
    c: Env<F, P>,
    x: String,
    y: String,
    a: usize,
    b: usize,
    e: Expr2,
    t: Held,
    rows: Seq<usize>,
    row: usize,
)
    requires
        e == (Expr2::BinOp { op: BinOp2::Mul, left: Box::new(Expr2::Col(x)), right: Box::new(Expr2::BinOp { op: BinOp2::Sub, left: Box::new(Expr2::Int(1)), right: Box::new(Expr2::Col(y)) }) }),
        t.number(x@) == Some(a),
        t.number(y@) == Some(b),
        t.col_types[a as int] == ColType::Float,
        t.col_types[b as int] == ColType::Float,
    ensures
        sum_over(c, &e, t, Seq::empty()) == Ok::<Val, Fail>(Val::Float(0)),
        sum_over(c, &e, t, rows) matches Ok(Val::Float(s)) && sum_over(c, &e, t, rows.push(row)) == Ok::<Val, Fail>(
            Val::Float(
                arith(
                    c.fpu,
                    FloatOp::Add,
                    s,
                    arith(c.fpu, FloatOp::Mul, t.columns[a as int][row as int], arith(c.fpu, FloatOp::Sub, 0x3FF0_0000_0000_0000, t.columns[b as int][row as int])),
                ),
            ),
        ),
{
    let s = Addend::Discounted(a, b);
    assert(discount_columns(e, t) == Some((a, b)));
    assert(sum_plan(c, &e, t) == Ok::<SumPlan<'_>, Fail>(SumPlan::Doubles(s)));
    lemma_sum_ok(c, s, t, rows, rows.len());
    lemma_one_more(c, s, t, rows, row);
}

/// A sum of `a * ((1 - b) * (1 + d))` adds the discounted price times one and the third column. (The words are those of one.)
pub proof fn a_row_adds_its_charge_to_a_sum<F: Fn(FloatOp, u64, u64) -> u64, P: Fn(&str) -> Option<u64>>(
    c: Env<F, P>,
    x: String,
    y: String,
    z: String,
    a: usize,
    b: usize,
    d: usize,
    e: Expr2,
    t: Held,
    rows: Seq<usize>,
    row: usize,
)
    requires
        e == (Expr2::BinOp { op: BinOp2::Mul, left: Box::new(Expr2::Col(x)), right: Box::new(Expr2::BinOp { op: BinOp2::Mul, left: Box::new(Expr2::BinOp { op: BinOp2::Sub, left: Box::new(Expr2::Int(1)), right: Box::new(Expr2::Col(y)) }), right: Box::new(Expr2::BinOp { op: BinOp2::Add, left: Box::new(Expr2::Int(1)), right: Box::new(Expr2::Col(z)) }) }) }),
        t.number(x@) == Some(a),
        t.number(y@) == Some(b),
        t.number(z@) == Some(d),
        t.col_types[a as int] == ColType::Float,
        t.col_types[b as int] == ColType::Float,
        t.col_types[d as int] == ColType::Float,
    ensures
        sum_over(c, &e, t, Seq::empty()) == Ok::<Val, Fail>(Val::Float(0)),
        sum_over(c, &e, t, rows) matches Ok(Val::Float(s)) && sum_over(c, &e, t, rows.push(row)) == Ok::<Val, Fail>(
            Val::Float(
                arith(
                    c.fpu,
                    FloatOp::Add,
                    s,
                    arith(c.fpu, FloatOp::Mul, arith(c.fpu, FloatOp::Mul, t.columns[a as int][row as int], arith(c.fpu, FloatOp::Sub, 0x3FF0_0000_0000_0000, t.columns[b as int][row as int])), arith(c.fpu, FloatOp::Add, 0x3FF0_0000_0000_0000, t.columns[d as int][row as int])),
                ),
            ),
        ),
{
    let s = Addend::Charged(a, b, d);
    assert(discount_columns(e, t) is None);
    assert(charge_columns(*e->left, *e->right, t) == Some((a, b, d)));
    assert(sum_plan(c, &e, t) == Ok::<SumPlan<'_>, Fail>(SumPlan::Doubles(s)));
    lemma_sum_ok(c, s, t, rows, rows.len());
    lemma_one_more(c, s, t, rows, row);
}

/// A column of the answer has the alias of its item or, without one, the name of the column that it shows; a
/// number goes by its digits and a text by itself.
pub proof fn columns_are_named_after_their_items<D: Fn(u64) -> String>(d: D, item: SelectItem2)
    ensures
        item.alias matches Some(a) ==> item_name(d, item) == a@,
        item.alias is None ==> (item.expr matches Expr2::Col(n) ==> item_name(d, item) == n@),
        item.alias is None ==> (item.expr matches Expr2::Int(i) ==> item_name(d, item) == signed_decimal(i as int)),
        item.alias is None ==> (item.expr matches Expr2::Str(s) ==> item_name(d, item) == s@),
{
}

/// The names of the columns differ, whatever their case, and none is that of another one under the alias.
pub open spec fn names_differ(names: Seq<String>, alias: Seq<char>) -> bool {
    &&& forall|i: int, j: int|
        0 <= i < j < names.len() ==> lowercase((#[trigger] names[i])@) != lowercase((#[trigger] names[j])@)
    &&& forall|i: int, j: int|
        0 <= i < names.len() && 0 <= j < names.len() ==> lowercase((#[trigger] names[i])@) != qualified(
            lowercase(alias),
            lowercase((#[trigger] names[j])@),
        )
}

proof fn lemma_qualified(q: Seq<char>, a: Seq<char>, b: Seq<char>)
    requires
        qualified(q, a) == qualified(q, b),
    ensures
        a == b,
{
    let n = (q + "."@).len() as int;
    assert(qualified(q, a).skip(n) =~= a);
    assert(qualified(q, b).skip(n) =~= b);
}

proof fn lemma_known(names: Seq<String>, alias: Seq<char>, n: int, k: Seq<char>)
    requires
        0 <= n <= names.len(),
        catalog_numbers(names, alias, alias, n).dom().contains(k),
    ensures
        exists|j: int|
            0 <= j < n && (k == lowercase((#[trigger] names[j])@) || k == qualified(
                lowercase(alias),
                lowercase(names[j]@),
            )),
    decreases n,
{
    if n > 0 {
        let m = n - 1;
        if catalog_numbers(names, alias, alias, m).dom().contains(k) {
            lemma_known(names, alias, m, k);
        } else {
            assert(k == lowercase(names[m]@) || k == qualified(lowercase(alias), lowercase(names[m]@)));
        }
    }
}

/// Where the names differ, each column of a table is found by its name and by its name under the alias.
pub proof fn columns_of_tables_are_found_by_name(names: Seq<String>, alias: Seq<char>, n: int, i: int)
    requires
        0 <= i < n <= names.len(),
        n <= usize::MAX,
        names_differ(names, alias),
    ensures
        ({
            let m = catalog_numbers(names, alias, alias, n);
            let name = lowercase(names[i]@);
            &&& m.dom().contains(name) && m[name] == i
            &&& m.dom().contains(qualified(lowercase(alias), name)) && m[qualified(lowercase(alias), name)] == i
        }),
    decreases n,
{
    let q = lowercase(alias);
    let l = n - 1;
    let last = lowercase(names[l]@);
    let before = catalog_numbers(names, alias, alias, l);
    if before.dom().contains(last) {
        lemma_known(names, alias, l, last);
        let j = choose|j: int|
            0 <= j < l && (last == lowercase((#[trigger] names[j])@) || last == qualified(q, lowercase(names[j]@)));
        assert(lowercase(names[j]@) != lowercase(names[l]@));
        assert(lowercase(names[l]@) != qualified(q, lowercase(names[j]@)));
    }
    if before.dom().contains(qualified(q, last)) {
        lemma_known(names, alias, l, qualified(q, last));
        let j = choose|j: int|
            0 <= j < l && (qualified(q, last) == lowercase((#[trigger] names[j])@) || qualified(q, last) == qualified(
                q,
                lowercase(names[j]@),
            ));
        if qualified(q, last) == qualified(q, lowercase(names[j]@)) {
            lemma_qualified(q, last, lowercase(names[j]@));
        }
        assert(lowercase(names[j]@) != lowercase(names[l]@));
        assert(lowercase(names[j]@) != qualified(q, lowercase(names[l]@)));
    }
    assert(lowercase(names[l]@) != qualified(q, lowercase(names[l]@)));
    if i < l {
        columns_of_tables_are_found_by_name(names, alias, l, i);
        assert(lowercase(names[i]@) != lowercase(names[l]@));
        assert(lowercase(names[i]@) != qualified(q, lowercase(names[l]@)));
        assert(lowercase(names[l]@) != qualified(q, lowercase(names[i]@)));
        if qualified(q, lowercase(names[i]@)) == qualified(q, last) {
            lemma_qualified(q, lowercase(names[i]@), last);
        }
    }
}

/// What a cell of numbers, doubles or days gives as a value is stored as that cell again.
pub proof fn cells_hold_their_values(t: Held, k: int, row: int)
    requires
        0 <= k < t.columns.len(),
        0 <= row < t.columns[k].len(),
        t.col_types[k] != ColType::String,
        t.col_types[k] == ColType::Date ==> t.columns[k][row] < 0x1_0000_0000,
    ensures
        to_cell(t.value(k, row)) == t.columns[k][row],
        t.col_types[k] == ColType::Int ==> t.value(k, row) is Int,
        t.col_types[k] == ColType::Float ==> t.value(k, row) is Float,
        t.col_types[k] == ColType::Date ==> t.value(k, row) is Date,
{
    crate::word::word_round_trip(0, t.columns[k][row]);
}

/// A day is read back from the cell that stores it.
pub proof fn days_are_read_back_from_cells(d: i32)
    ensures
        half_date(date_half(d)) == d,
        half_date(to_cell(Val::Date(d))) == d,
{
}

} // verus!
