//! What the values of expressions mean.

use crate::error::Fail;
use crate::float_bits::{arith, float_eq, float_lt, FloatOp};
use crate::sql::ast::{BinOp2, Expr2};
use crate::sql::eval::{chosen, in_list, value_of, Env};
use crate::sql::exec_table::Held;
use crate::sql::value::{combined, is_true, text_lt, vals_eq, vals_le, vals_lt, Val};
use vstd::prelude::*;

verus! {

/// A truth value as comparisons give it.
pub open spec fn one_or_zero(b: bool) -> Val {
    if b {
        Val::Int(1)
    } else {
        Val::Int(0)
    }
}

/// Doubles are compared as doubles, texts by their characters, and each comparison is the opposite of
/// the one that excludes it.
pub proof fn comparisons_agree_with_their_operands<F: Fn(FloatOp, u64, u64) -> u64, P: Fn(&str) -> Option<u64>>(
    f: F,
    p: P,
    a: u64,
    b: u64,
    x: Seq<char>,
    y: Seq<char>,
)
    ensures
        combined(f, p, BinOp2::Lt, Val::Float(a), Val::Float(b)) == one_or_zero(float_lt(a, b)),
        combined(f, p, BinOp2::Gt, Val::Float(a), Val::Float(b)) == one_or_zero(float_lt(b, a)),
        combined(f, p, BinOp2::Eq, Val::Float(a), Val::Float(b)) == one_or_zero(float_eq(a, b)),
        combined(f, p, BinOp2::Ne, Val::Float(a), Val::Float(b)) == one_or_zero(!float_eq(a, b)),
        combined(f, p, BinOp2::Le, Val::Float(a), Val::Float(b)) == one_or_zero(float_lt(a, b) || float_eq(a, b)),
        combined(f, p, BinOp2::Ge, Val::Float(a), Val::Float(b)) == one_or_zero(float_lt(b, a) || float_eq(b, a)),
        combined(f, p, BinOp2::Eq, Val::Str(x), Val::Str(y)) == one_or_zero(x == y),
        combined(f, p, BinOp2::Ne, Val::Str(x), Val::Str(y)) == one_or_zero(x != y),
        combined(f, p, BinOp2::Lt, Val::Str(x), Val::Str(y)) == one_or_zero(text_lt(x, y)),
        combined(f, p, BinOp2::Gt, Val::Str(x), Val::Str(y)) == one_or_zero(text_lt(y, x)),
        combined(f, p, BinOp2::Le, Val::Str(x), Val::Str(y)) == one_or_zero(text_lt(x, y) || x == y),
        combined(f, p, BinOp2::Ge, Val::Str(x), Val::Str(y)) == one_or_zero(text_lt(y, x) || x == y),
{
}

/// The numbers of integers as doubles keep their order.
pub open spec fn keeps_order<F: Fn(FloatOp, u64, u64) -> u64>(f: F, i: i64, j: i64) -> bool {
    let a = arith(f, FloatOp::FromI64, crate::word::signed_word(i), 0);
    let b = arith(f, FloatOp::FromI64, crate::word::signed_word(j), 0);
    (i < j <==> float_lt(a, b)) && (j < i <==> float_lt(b, a)) && (i == j <==> float_eq(a, b)) && (i == j <==> float_eq(
        b,
        a,
    ))
}

/// Integers, and days, are compared as numbers, where their doubles keep their order.
pub proof fn integers_compare_as_numbers<F: Fn(FloatOp, u64, u64) -> u64, P: Fn(&str) -> Option<u64>>(f: F, p: P, i: i64, j: i64)
    requires
        keeps_order(f, i, j),
    ensures
        combined(f, p, BinOp2::Lt, Val::Int(i), Val::Int(j)) == one_or_zero(i < j),
        combined(f, p, BinOp2::Gt, Val::Int(i), Val::Int(j)) == one_or_zero(i > j),
        combined(f, p, BinOp2::Le, Val::Int(i), Val::Int(j)) == one_or_zero(i <= j),
        combined(f, p, BinOp2::Ge, Val::Int(i), Val::Int(j)) == one_or_zero(i >= j),
        combined(f, p, BinOp2::Eq, Val::Int(i), Val::Int(j)) == one_or_zero(i == j),
        combined(f, p, BinOp2::Ne, Val::Int(i), Val::Int(j)) == one_or_zero(i != j),
        i32::MIN <= i <= i32::MAX && i32::MIN <= j <= i32::MAX ==> {
            &&& combined(f, p, BinOp2::Lt, Val::Date(i as i32), Val::Date(j as i32)) == one_or_zero(i < j)
            &&& combined(f, p, BinOp2::Gt, Val::Date(i as i32), Val::Date(j as i32)) == one_or_zero(i > j)
            &&& combined(f, p, BinOp2::Le, Val::Date(i as i32), Val::Date(j as i32)) == one_or_zero(i <= j)
            &&& combined(f, p, BinOp2::Ge, Val::Date(i as i32), Val::Date(j as i32)) == one_or_zero(i >= j)
            &&& combined(f, p, BinOp2::Eq, Val::Date(i as i32), Val::Date(j as i32)) == one_or_zero(i == j)
        },
{
}

/// Two integers are added, taken away and multiplied as integers where nothing overflows; doubles as
/// the arithmetic on doubles says; a quotient is that of doubles, and there is none by zero.
pub proof fn arithmetic_is_that_of_numbers<F: Fn(FloatOp, u64, u64) -> u64, P: Fn(&str) -> Option<u64>>(f: F, p: P, i: i64, j: i64, a: u64, b: u64)
    ensures
        i64::MIN <= i + j <= i64::MAX ==> combined(f, p, BinOp2::Add, Val::Int(i), Val::Int(j)) == Val::Int(
            (i + j) as i64,
        ),
        i64::MIN <= i - j <= i64::MAX ==> combined(f, p, BinOp2::Sub, Val::Int(i), Val::Int(j)) == Val::Int(
            (i - j) as i64,
        ),
        i64::MIN <= i * j <= i64::MAX ==> combined(f, p, BinOp2::Mul, Val::Int(i), Val::Int(j)) == Val::Int(
            (i * j) as i64,
        ),
        combined(f, p, BinOp2::Add, Val::Float(a), Val::Float(b)) == Val::Float(arith(f, FloatOp::Add, a, b)),
        combined(f, p, BinOp2::Sub, Val::Float(a), Val::Float(b)) == Val::Float(arith(f, FloatOp::Sub, a, b)),
        combined(f, p, BinOp2::Mul, Val::Float(a), Val::Float(b)) == Val::Float(arith(f, FloatOp::Mul, a, b)),
        !float_eq(b, 0) ==> combined(f, p, BinOp2::Div, Val::Float(a), Val::Float(b)) == Val::Float(
            arith(f, FloatOp::Div, a, b),
        ),
        float_eq(b, 0) ==> combined(f, p, BinOp2::Div, Val::Float(a), Val::Float(b)) == Val::Null,
{
}

/// A conjunction is true if both sides are, a disjunction if one is, a negation if what it negates is
/// not, whatever the values; an integer is true if it is not zero, a double if it is not equal to zero.
pub proof fn connectives_are_those_of_truth<F: Fn(FloatOp, u64, u64) -> u64, P: Fn(&str) -> Option<u64>>(f: F, p: P, l: Val, r: Val, i: i64, b: u64)
    ensures
        is_true(combined(f, p, BinOp2::And, l, r)) <==> is_true(l) && is_true(r),
        is_true(combined(f, p, BinOp2::Or, l, r)) <==> is_true(l) || is_true(r),
        is_true(Val::Int(i)) <==> i != 0,
        is_true(Val::Float(b)) <==> !float_eq(b, 0),
        !is_true(Val::Null),
{
}

/// `NOT` turns truth round, and is true or false itself.
pub proof fn negation_turns_truth_round<F: Fn(FloatOp, u64, u64) -> u64, P: Fn(&str) -> Option<u64>>(c: Env<F, P>, x: Expr2, t: Held, row: usize)
    ensures
        match value_of(c, x, t, row) {
            Ok(v) => value_of(c, Expr2::Not(Box::new(x)), t, row) == Ok::<Val, Fail>(one_or_zero(!is_true(v))),
            Err(e) => value_of(c, Expr2::Not(Box::new(x)), t, row) == Err::<Val, Fail>(e),
        },
{
}

/// An operation is applied to the values of its two sides, the left one first.
pub proof fn operations_apply_to_values<F: Fn(FloatOp, u64, u64) -> u64, P: Fn(&str) -> Option<u64>>(
    c: Env<F, P>,
    op: BinOp2,
    x: Expr2,
    y: Expr2,
    t: Held,
    row: usize,
)
    requires
        value_of(c, x, t, row) is Ok,
        value_of(c, y, t, row) is Ok,
    ensures
        value_of(c, (Expr2::BinOp { op, left: Box::new(x), right: Box::new(y) }), t, row) == Ok::<Val, Fail>(
            combined(c.fpu, c.reader, op, value_of(c, x, t, row)->Ok_0, value_of(c, y, t, row)->Ok_0),
        ),
{
}

/// `x BETWEEN low AND high` is `low <= x AND x <= high`, and with `NOT` the opposite.
pub proof fn between_is_two_comparisons<F: Fn(FloatOp, u64, u64) -> u64, P: Fn(&str) -> Option<u64>>(
    c: Env<F, P>,
    x: Expr2,
    low: Expr2,
    high: Expr2,
    negated: bool,
    t: Held,
    row: usize,
)
    requires
        value_of(c, x, t, row) is Ok,
        value_of(c, low, t, row) is Ok,
        value_of(c, high, t, row) is Ok,
    ensures
        ({
            let v = value_of(c, x, t, row)->Ok_0;
            let lo = value_of(c, low, t, row)->Ok_0;
            let hi = value_of(c, high, t, row)->Ok_0;
            let e = Expr2::Between { expr: Box::new(x), low: Box::new(low), high: Box::new(high), negated };
            value_of(c, e, t, row) == Ok::<Val, Fail>(
                one_or_zero(
                    negated != (is_true(combined(c.fpu, c.reader, BinOp2::Le, lo, v)) && is_true(
                        combined(c.fpu, c.reader, BinOp2::Le, v, hi),
                    )),
                ),
            )
        }),
{
}

/// `x IN (list)` is true exactly if `x` equals an item of the list, and with `NOT` exactly if it equals none.
pub proof fn in_list_means_an_equal_item<F: Fn(FloatOp, u64, u64) -> u64, P: Fn(&str) -> Option<u64>>(
    c: Env<F, P>,
    x: Expr2,
    list: Vec<Expr2>,
    negated: bool,
    t: Held,
    row: usize,
)
    requires
        value_of(c, x, t, row) is Ok,
        forall|i: int| 0 <= i < list@.len() ==> value_of(c, #[trigger] list@[i], t, row) is Ok,
    ensures
        value_of(c, (Expr2::InList { expr: Box::new(x), list, negated }), t, row) == Ok::<Val, Fail>(
            one_or_zero(
                negated != (exists|i: int|
                    0 <= i < list@.len() && is_true(
                        combined(
                            c.fpu,
                            c.reader,
                            BinOp2::Eq,
                            value_of(c, x, t, row)->Ok_0,
                            value_of(c, #[trigger] list@[i], t, row)->Ok_0,
                        ),
                    )),
            ),
        ),
{
    lemma_in_list(c, value_of(c, x, t, row)->Ok_0, list, 0, t, row);
}

proof fn lemma_in_list<F: Fn(FloatOp, u64, u64) -> u64, P: Fn(&str) -> Option<u64>>(
    c: Env<F, P>,
    v: Val,
    list: Vec<Expr2>,
    k: nat,
    t: Held,
    row: usize,
)
    requires
        k <= list@.len(),
        forall|i: int| 0 <= i < list@.len() ==> value_of(c, #[trigger] list@[i], t, row) is Ok,
    ensures
        in_list(c, v, list, k, t, row) == Ok::<bool, Fail>(
            exists|i: int|
                k <= i < list@.len() && vals_eq(c.fpu, c.reader, v, value_of(c, #[trigger] list@[i], t, row)->Ok_0),
        ),
    decreases list@.len() - k,
{
    if k < list@.len() {
        lemma_in_list(c, v, list, k + 1, t, row);
        let x = value_of(c, list@[k as int], t, row)->Ok_0;
        if !vals_eq(c.fpu, c.reader, v, x) {
            if exists|i: int|
                k <= i < list@.len() && vals_eq(c.fpu, c.reader, v, value_of(c, #[trigger] list@[i], t, row)->Ok_0) {
                let i = choose|i: int|
                    k <= i < list@.len() && vals_eq(c.fpu, c.reader, v, value_of(c, #[trigger] list@[i], t, row)->Ok_0);
                assert(k + 1 <= i);
            }
        }
    }
}

/// `CASE` gives the result of the first branch whose condition is true; where there is none, what stands
/// behind `ELSE`, or nothing.
pub proof fn case_gives_the_first_true_branch<F: Fn(FloatOp, u64, u64) -> u64, P: Fn(&str) -> Option<u64>>(
    c: Env<F, P>,
    whens: Vec<(Expr2, Expr2)>,
    else_: Option<Box<Expr2>>,
    t: Held,
    row: usize,
    k: nat,
)
    requires
        k <= whens@.len(),
        forall|i: int|
            0 <= i < k ==> (value_of(c, (#[trigger] whens@[i]).0, t, row) matches Ok(v) && !is_true(v)),
        k < whens@.len() ==> (value_of(c, whens@[k as int].0, t, row) matches Ok(v) && is_true(v)),
    ensures
        value_of(c, (Expr2::Case { whens, else_ }), t, row) == (if k < whens@.len() {
            value_of(c, whens@[k as int].1, t, row)
        } else {
            match else_ {
                Some(x) => value_of(c, *x, t, row),
                None => Ok(Val::Null),
            }
        }),
{
    lemma_chosen(c, whens, t, row, 0, k);
}

proof fn lemma_chosen<F: Fn(FloatOp, u64, u64) -> u64, P: Fn(&str) -> Option<u64>>(
    c: Env<F, P>,
    whens: Vec<(Expr2, Expr2)>,
    t: Held,
    row: usize,
    from: nat,
    k: nat,
)
    requires
        from <= k <= whens@.len(),
        forall|i: int|
            from <= i < k ==> (value_of(c, (#[trigger] whens@[i]).0, t, row) matches Ok(v) && !is_true(v)),
        k < whens@.len() ==> (value_of(c, whens@[k as int].0, t, row) matches Ok(v) && is_true(v)),
    ensures
        chosen(c, whens, from, t, row) == (if k < whens@.len() {
            match value_of(c, whens@[k as int].1, t, row) {
                Ok(v) => Ok(Some(v)),
                Err(e) => Err(e),
            }
        } else {
            Ok(None)
        }),
    decreases k - from,
{
    if from < k {
        assert(value_of(c, whens@[from as int].0, t, row) matches Ok(v) && !is_true(v));
        lemma_chosen(c, whens, t, row, from + 1, k);
    }
}

/// `NOT LIKE` is the opposite of `LIKE`.
pub proof fn not_like_is_the_opposite<F: Fn(FloatOp, u64, u64) -> u64, P: Fn(&str) -> Option<u64>>(c: Env<F, P>, x: Expr2, pattern: Expr2, t: Held, row: usize)
    ensures
        ({
            let with = Expr2::Like { expr: Box::new(x), pattern: Box::new(pattern), negated: false };
            let without = Expr2::Like { expr: Box::new(x), pattern: Box::new(pattern), negated: true };
            match value_of(c, with, t, row) {
                Ok(v) => v == one_or_zero(is_true(v)) && value_of(c, without, t, row) == Ok::<Val, Fail>(
                    one_or_zero(!is_true(v)),
                ),
                Err(e) => value_of(c, without, t, row) == Err::<Val, Fail>(e),
            }
        }),
{
}

/// One value is at most another exactly if it is less or equal; where both are numbers or both are texts,
/// not both less and equal.
pub proof fn at_most_is_less_or_equal<F: Fn(FloatOp, u64, u64) -> u64, P: Fn(&str) -> Option<u64>>(f: F, p: P, a: Val, b: Val)
    ensures
        vals_le(f, p, a, b) <==> vals_lt(f, p, a, b) || vals_eq(f, p, a, b),
        a is Float && b is Float ==> !(vals_lt(f, p, a, b) && vals_eq(f, p, a, b)),
{
}

} // verus!
