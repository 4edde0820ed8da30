//! Aggregates over listed rows.

use crate::error::{Error, Fail};
use crate::float_bits::{arith, float_neg, is_arith, is_nan, is_reader, nan, negate, FloatOp};
use crate::group_index::{GroupIndex, Key};
use crate::sql::ast::{AggFunc, Expr2};
use crate::sql::eval::{ctx_ok, eval, outcome, value_of, Ctx, Env};
use crate::sql::exec_table::{ExecTable, Held};
use crate::sql::names::NameMap;
use crate::sql::shape::{col_in, column_of, expr_has_agg, has_aggregate};
use crate::sql::totals::{
    best_over, better, double_or_null, minmax_vec, number_in, rows_in, sum_over, sum_vec,
};
use crate::sql::value::{
    as_double, binop, combined, date_half, is_true, negate_int, negated_int, Val, Value2,
};
use crate::word::{signed_of, signed_word, word_round_trip, word_signed};
use vstd::prelude::*;

verus! {

/// What tells values apart under `DISTINCT`: whatever is no number and no text
/// counts as the null value.
pub open spec fn distinct_key(v: Val) -> Val {
    match v {
        Val::Date(_) => Val::Null,
        other => other,
    }
}

/// The pattern that stands for every double that is no number.
pub const NAN_KEY: u64 = 0x7FF8_0000_0000_0000;

/// What tells values apart when they are counted: all doubles that are no
/// numbers count as one.
pub open spec fn count_key(v: Val) -> Val {
    match v {
        Val::Float(b) => if is_nan(b) {
            Val::Float(NAN_KEY)
        } else {
            Val::Float(b)
        },
        other => other,
    }
}

/// The values whose key has not come before.
pub open spec fn kept(vals: Seq<Val>) -> Seq<Val>
    decreases vals.len(),
{
    if vals.len() == 0 {
        Seq::empty()
    } else {
        let before = kept(vals.drop_last());
        if key_occurs(before, distinct_key(vals.last())) {
            before
        } else {
            before.push(vals.last())
        }
    }
}

/// A value has the key.
pub open spec fn key_occurs(vals: Seq<Val>, k: Val) -> bool {
    exists|i: int| 0 <= i < vals.len() && distinct_key(#[trigger] vals[i]) == k
}

/// The sum of the numbers among the first `n` values.
pub open spec fn double_sum<F: Fn(FloatOp, u64, u64) -> u64, P: Fn(&str) -> Option<u64>>(f: F, p: P, vals: Seq<Val>, n: nat) -> u64
    decreases n,
{
    if n == 0 {
        0
    } else {
        let before = double_sum(f, p, vals, (n - 1) as nat);
        match as_double(f, p, vals[n - 1]) {
            Some(x) => arith(f, FloatOp::Add, before, x),
            None => before,
        }
    }
}

/// How many of the first `n` values are numbers.
pub open spec fn number_count<F: Fn(FloatOp, u64, u64) -> u64, P: Fn(&str) -> Option<u64>>(f: F, p: P, vals: Seq<Val>, n: nat) -> nat
    decreases n,
{
    if n == 0 {
        0
    } else {
        number_count(f, p, vals, (n - 1) as nat) + (if as_double(f, p, vals[n - 1]) is Some {
            1nat
        } else {
            0nat
        })
    }
}

pub open spec fn all_ints(vals: Seq<Val>) -> bool {
    forall|i: int| 0 <= i < vals.len() ==> #[trigger] vals[i] is Int
}

/// The wrapping sum of the first `n` values, which are integers.
pub open spec fn int_sum(vals: Seq<Val>, n: nat) -> i64
    decreases n,
{
    if n == 0 {
        0
    } else {
        int_sum(vals, (n - 1) as nat).wrapping_add(vals[n - 1]->Int_0)
    }
}

pub open spec fn sum_of_values<F: Fn(FloatOp, u64, u64) -> u64, P: Fn(&str) -> Option<u64>>(f: F, p: P, vals: Seq<Val>) -> Val {
    if all_ints(vals) {
        Val::Int(int_sum(vals, vals.len()))
    } else {
        Val::Float(double_sum(f, p, vals, vals.len()))
    }
}

pub open spec fn avg_of_values<F: Fn(FloatOp, u64, u64) -> u64, P: Fn(&str) -> Option<u64>>(f: F, p: P, vals: Seq<Val>) -> Val {
    let n = number_count(f, p, vals, vals.len());
    if n == 0 {
        Val::Null
    } else {
        Val::Float(
            arith(f, FloatOp::Div, double_sum(f, p, vals, vals.len()), arith(f, FloatOp::FromU64, n as u64, 0)),
        )
    }
}

/// The best of the numbers among the first `n` values.
pub open spec fn best_of_values<F: Fn(FloatOp, u64, u64) -> u64, P: Fn(&str) -> Option<u64>>(f: F, p: P, op: FloatOp, vals: Seq<Val>, n: nat) -> Option<u64>
    decreases n,
{
    if n == 0 {
        None
    } else {
        let before = best_of_values(f, p, op, vals, (n - 1) as nat);
        match as_double(f, p, vals[n - 1]) {
            Some(x) => Some(better(f, op, before, x)),
            None => before,
        }
    }
}

/// An aggregate of values that have been told apart.
pub open spec fn aggregate_of<F: Fn(FloatOp, u64, u64) -> u64, P: Fn(&str) -> Option<u64>>(f: F, p: P, func: AggFunc, vals: Seq<Val>) -> Val {
    match func {
        AggFunc::Count => Val::Int(vals.len() as i64),
        AggFunc::CountDistinct => Val::Int(vals.len() as i64),
        AggFunc::Sum => sum_of_values(f, p, vals),
        AggFunc::Avg => avg_of_values(f, p, vals),
        AggFunc::Min => double_or_null(best_of_values(f, p, FloatOp::Min, vals, vals.len())),
        AggFunc::Max => double_or_null(best_of_values(f, p, FloatOp::Max, vals, vals.len())),
    }
}

/// The values of an expression on the first `n` listed rows.
pub open spec fn values_over<
    F: Fn(FloatOp, u64, u64) -> u64,
    P: Fn(&str) -> Option<u64>,
>(c: Env<F, P>, e: Expr2, t: Held, rows: Seq<usize>, n: nat) -> Result<Seq<Val>, Fail>
    decreases n,
{
    if n == 0 {
        Ok(Seq::empty())
    } else {
        match values_over(c, e, t, rows, (n - 1) as nat) {
            Ok(before) => match value_of(c, e, t, rows[n - 1]) {
                Ok(v) => Ok(before.push(v)),
                Err(f) => Err(f),
            },
            Err(f) => Err(f),
        }
    }
}

/// How many of the first `n` listed rows hold a cell that is not zero.
pub open spec fn nonzero_count(cells: Seq<u64>, rows: Seq<usize>, n: nat) -> nat
    decreases n,
{
    if n == 0 {
        0
    } else {
        nonzero_count(cells, rows, (n - 1) as nat) + (if cells[rows[n - 1] as int] != 0 {
            1nat
        } else {
            0nat
        })
    }
}

/// How many keys the values have.
pub open spec fn count_keys(vals: Seq<Val>) -> nat {
    vals.map_values(|v: Val| count_key(v)).to_set().len()
}

/// How many different cells the listed rows hold.
pub open spec fn cell_kinds(cells: Seq<u64>, rows: Seq<usize>) -> nat {
    rows.map_values(|r: usize| cells[r as int]).to_set().len()
}

/// An aggregate of an expression over listed rows.
pub open spec fn aggregate_over<
    F: Fn(FloatOp, u64, u64) -> u64,
    P: Fn(&str) -> Option<u64>,
>(c: Env<F, P>, func: AggFunc, arg: &Expr2, t: Held, rows: Seq<usize>) -> Result<Val, Fail> {
    match func {
        AggFunc::Count => Ok(
            Val::Int(
                match column_of(*arg, t) {
                    Some(i) => nonzero_count(t.columns[i as int], rows, rows.len()) as i64,
                    None => rows.len() as i64,
                },
            ),
        ),
        AggFunc::CountDistinct => match column_of(*arg, t) {
            Some(i) => Ok(Val::Int(cell_kinds(t.columns[i as int], rows) as i64)),
            None => match values_over(c, *arg, t, rows, rows.len()) {
                Ok(vals) => Ok(Val::Int(count_keys(vals) as i64)),
                Err(f) => Err(f),
            },
        },
        AggFunc::Sum => sum_over(c, arg, t, rows),
        AggFunc::Avg => match sum_over(c, arg, t, rows) {
            Ok(sum) => if rows.len() == 0 {
                Ok(Val::Null)
            } else {
                Ok(
                    Val::Float(
                        arith(
                            c.fpu,
                            FloatOp::Div,
                            number_in(c, sum),
                            arith(c.fpu, FloatOp::FromU64, rows.len() as u64, 0),
                        ),
                    ),
                )
            },
            Err(f) => Err(f),
        },
        AggFunc::Min => best_over(c, true, arg, t, rows),
        AggFunc::Max => best_over(c, false, arg, t, rows),
    }
}

/// The value of an expression on the first listed row; null where there is none.
pub open spec fn first_value<
    F: Fn(FloatOp, u64, u64) -> u64,
    P: Fn(&str) -> Option<u64>,
>(c: Env<F, P>, e: Expr2, t: Held, rows: Seq<usize>) -> Result<Val, Fail> {
    if rows.len() == 0 {
        Ok(Val::Null)
    } else {
        value_of(c, e, t, rows[0])
    }
}

/// A condition of a branch, or what comes if none is true, holds an aggregate.
pub open spec fn case_has_aggregate(whens: Vec<(Expr2, Expr2)>, else_: Option<Box<Expr2>>) -> bool {
    ||| exists|i: int| 0 <= i < whens@.len() && has_aggregate((#[trigger] whens@[i]).0)
    ||| else_ matches Some(x) && has_aggregate(*x)
}

/// The value of an expression on a group of rows.
pub open spec fn group_value<
    F: Fn(FloatOp, u64, u64) -> u64,
    P: Fn(&str) -> Option<u64>,
>(c: Env<F, P>, e: Expr2, t: Held, rows: Seq<usize>) -> Result<Val, Fail>
    decreases e, 0int,
{
    match e {
        Expr2::CountStar => Ok(Val::Int(rows.len() as i64)),
        Expr2::Agg { func, arg, distinct } => if distinct {
            match values_over(c, *arg, t, rows, rows.len()) {
                Ok(vals) => Ok(aggregate_of(c.fpu, c.reader, func, kept(vals))),
                Err(f) => Err(f),
            }
        } else {
            aggregate_over(c, func, &*arg, t, rows)
        },
        Expr2::BinOp { op, left, right } => if has_aggregate(*left) || has_aggregate(*right) {
            match group_value(c, *left, t, rows) {
                Ok(l) => match group_value(c, *right, t, rows) {
                    Ok(r) => Ok(combined(c.fpu, c.reader, op, l, r)),
                    Err(f) => Err(f),
                },
                Err(f) => Err(f),
            }
        } else {
            first_value(c, e, t, rows)
        },
        Expr2::Case { whens, else_ } => if case_has_aggregate(whens, else_) {
            match group_branch(c, whens, 0, t, rows) {
                Ok(Some(v)) => Ok(v),
                Ok(None) => match else_ {
                    Some(x) => group_value(c, *x, t, rows),
                    None => Ok(Val::Null),
                },
                Err(f) => Err(f),
            }
        } else {
            first_value(c, e, t, rows)
        },
        Expr2::Neg(x) => if has_aggregate(*x) {
            match group_value(c, *x, t, rows) {
                Ok(Val::Int(i)) => Ok(Val::Int(negated_int(i))),
                Ok(Val::Float(b)) => Ok(Val::Float(float_neg(b))),
                Ok(_) => Ok(Val::Null),
                Err(f) => Err(f),
            }
        } else {
            first_value(c, e, t, rows)
        },
        other => first_value(c, other, t, rows),
    }
}

/// The result of the first branch, from place `k` on, whose condition is true on
/// the group.
pub open spec fn group_branch<
    F: Fn(FloatOp, u64, u64) -> u64,
    P: Fn(&str) -> Option<u64>,
>(c: Env<F, P>, whens: Vec<(Expr2, Expr2)>, k: nat, t: Held, rows: Seq<usize>) -> Result<
    Option<Val>,
    Fail,
>
    decreases whens, whens@.len() - k,
{
    if k >= whens@.len() {
        Ok(None)
    } else {
        match group_value(c, whens@[k as int].0, t, rows) {
            Ok(x) => if is_true(x) {
                match group_value(c, whens@[k as int].1, t, rows) {
                    Ok(v) => Ok(Some(v)),
                    Err(f) => Err(f),
                }
            } else {
                group_branch(c, whens, k + 1, t, rows)
            },
            Err(f) => Err(f),
        }
    }
}

/// What values are.
pub open spec fn vals_of(values: Seq<Value2>) -> Seq<Val> {
    Seq::new(values.len(), |i: int| values[i]@)
}

/// Adds up values: as integers if all are integers, else as doubles.
pub fn sum_values<F: Fn(FloatOp, u64, u64) -> u64, P: Fn(&str) -> Option<u64>>(values: &Vec<Value2>, fpu: &F, reader: &P) -> (r: Value2)
    requires
        is_arith(*fpu),
        is_reader(*reader),
    ensures
        r@ == sum_of_values(*fpu, *reader, vals_of(values@)),
{
    let ghost vals = vals_of(values@);
    let mut sum: u64 = 0;
    let mut isum: i64 = 0;
    let mut ints: bool = true;
    let mut i: usize = 0;
    while i < values.len()
        invariant
            is_arith(*fpu),
            is_reader(*reader),
            i <= values@.len(),
            vals == vals_of(values@),
            sum == double_sum(*fpu, *reader, vals, i as nat),
            ints == (forall|k: int| 0 <= k < i ==> #[trigger] vals[k] is Int),
            ints ==> isum == int_sum(vals, i as nat),
        decreases values.len() - i,
    {
        proof {
            assert(vals[i as int] == values@[i as int]@);
        }
        match &values[i] {
            Value2::Int(n) => {
                isum = isum.wrapping_add(*n);
            },
            _ => {
                ints = false;
            },
        }
        match values[i].as_f64(fpu, reader) {
            Some(x) => {
                sum = fpu(FloatOp::Add, sum, x);
            },
            None => {},
        }
        i = i + 1;
    }
    if ints {
        Value2::Int(isum)
    } else {
        Value2::Float(sum)
    }
}

/// The mean of the numbers among values.
pub fn avg_values<F: Fn(FloatOp, u64, u64) -> u64, P: Fn(&str) -> Option<u64>>(values: &Vec<Value2>, fpu: &F, reader: &P) -> (r: Value2)
    requires
        is_arith(*fpu),
        is_reader(*reader),
    ensures
        r@ == avg_of_values(*fpu, *reader, vals_of(values@)),
{
    let ghost vals = vals_of(values@);
    let mut sum: u64 = 0;
    let mut count: usize = 0;
    let mut i: usize = 0;
    while i < values.len()
        invariant
            is_arith(*fpu),
            is_reader(*reader),
            i <= values@.len(),
            vals == vals_of(values@),
            sum == double_sum(*fpu, *reader, vals, i as nat),
            count == number_count(*fpu, *reader, vals, i as nat),
            count <= i,
        decreases values.len() - i,
    {
        proof {
            assert(vals[i as int] == values@[i as int]@);
        }
        match values[i].as_f64(fpu, reader) {
            Some(x) => {
                sum = fpu(FloatOp::Add, sum, x);
                count = count + 1;
            },
            None => {},
        }
        i = i + 1;
    }
    if count == 0 {
        Value2::Null
    } else {
        let n: u64 = fpu(FloatOp::FromU64, count as u64, 0);
        Value2::Float(fpu(FloatOp::Div, sum, n))
    }
}

fn best_value<F: Fn(FloatOp, u64, u64) -> u64, P: Fn(&str) -> Option<u64>>(values: &Vec<Value2>, op: FloatOp, fpu: &F, reader: &P) -> (r: Value2)
    requires
        is_arith(*fpu),
        is_reader(*reader),
    ensures
        r@ == double_or_null(best_of_values(*fpu, *reader, op, vals_of(values@), values@.len())),
{
    let ghost vals = vals_of(values@);
    let mut best: Option<u64> = None;
    let mut i: usize = 0;
    while i < values.len()
        invariant
            is_arith(*fpu),
            is_reader(*reader),
            i <= values@.len(),
            vals == vals_of(values@),
            best == best_of_values(*fpu, *reader, op, vals, i as nat),
        decreases values.len() - i,
    {
        proof {
            assert(vals[i as int] == values@[i as int]@);
        }
        match values[i].as_f64(fpu, reader) {
            Some(x) => {
                best = Some(
                    match best {
                        Some(b) => fpu(op, b, x),
                        None => x,
                    },
                );
            },
            None => {},
        }
        i = i + 1;
    }
    match best {
        Some(b) => Value2::Float(b),
        None => Value2::Null,
    }
}

/// The least of the numbers among values.
pub fn min_values<F: Fn(FloatOp, u64, u64) -> u64, P: Fn(&str) -> Option<u64>>(values: &Vec<Value2>, fpu: &F, reader: &P) -> (r: Value2)
    requires
        is_arith(*fpu),
        is_reader(*reader),
    ensures
        r@ == double_or_null(
            best_of_values(*fpu, *reader, FloatOp::Min, vals_of(values@), values@.len()),
        ),
{
    best_value(values, FloatOp::Min, fpu, reader)
}

/// The greatest of the numbers among values.
pub fn max_values<F: Fn(FloatOp, u64, u64) -> u64, P: Fn(&str) -> Option<u64>>(values: &Vec<Value2>, fpu: &F, reader: &P) -> (r: Value2)
    requires
        is_arith(*fpu),
        is_reader(*reader),
    ensures
        r@ == double_or_null(
            best_of_values(*fpu, *reader, FloatOp::Max, vals_of(values@), values@.len()),
        ),
{
    best_value(values, FloatOp::Max, fpu, reader)
}

/// The key by which a value that is no text is found again.
pub open spec fn word_key(v: Val) -> Key {
    match v {
        Val::Int(i) => (0, signed_word(i), 0),
        Val::Float(b) => (1, b, 0),
        Val::Date(d) => (2, date_half(d), 0),
        _ => (3, 0, 0),
    }
}

/// A set of values.
pub struct Seen {
    words: GroupIndex,
    texts: NameMap,
}

impl Seen {
    pub closed spec fn wf(&self) -> bool {
        self.words.wf()
    }

    pub closed spec fn has(&self, v: Val) -> bool {
        match v {
            Val::Str(s) => self.texts@.dom().contains(s),
            other => self.words@.contains(word_key(other)),
        }
    }

    pub fn new() -> (s: Self)
        ensures
            s.wf(),
            forall|v: Val| !#[trigger] s.has(v),
    {
        Seen { words: GroupIndex::new(), texts: NameMap::new() }
    }

    /// Adds a value. Says whether it was new.
    pub fn insert(&mut self, v: &Value2) -> (fresh: bool)
        requires
            old(self).wf(),
        ensures
            final(self).wf(),
            fresh == !old(self).has(v@),
            forall|w: Val| #[trigger] final(self).has(w) <==> (old(self).has(w) || w == v@),
    {
        let ghost before = *self;
        match v {
            Value2::Str(s) => {
                let fresh: bool = match self.texts.get(s.as_str()) {
                    Some(_) => false,
                    None => true,
                };
                self.texts.insert_new(s.clone(), 0);
                fresh
            },
            _ => {
                let tag: u64 = match v {
                    Value2::Int(_) => 0,
                    Value2::Float(_) => 1,
                    Value2::Date(_) => 2,
                    _ => 3,
                };
                let key: Key = (tag, v.to_u64(), 0);
                let n: usize = self.words.len();
                let slot: usize = self.words.slot_of(key);
                proof {
                    assert(key == word_key(v@));
                    let old_words = before.words@;
                    assert forall|w: Val| #[trigger] self.has(w) <==> (before.has(w) || w == v@) by {
                        lemma_word_keys(w, v@);
                        if !(w is Str) {
                            let k = word_key(w);
                            if old_words.contains(k) {
                                let j = choose|j: int| 0 <= j < old_words.len() && old_words[j] == k;
                                assert(self.words@[j] == k);
                            }
                            if self.words@.contains(k) && k != key {
                                let j = choose|j: int| 0 <= j < self.words@.len() && self.words@[j] == k;
                                assert(old_words.contains(k)) by {
                                    if old_words.contains(key) {
                                    } else {
                                        assert(j < old_words.len());
                                        assert(old_words[j] == k);
                                    }
                                }
                            }
                            if k == key {
                                assert(self.words@[slot as int] == k);
                            }
                        }
                    }
                }
                self.words.len() != n
            },
        }
    }
}

/// Values that are no texts have different keys.
proof fn lemma_word_keys(v: Val, w: Val)
    ensures
        !(v is Str) && !(w is Str) ==> (word_key(v) == word_key(w) <==> v == w),
{
    match (v, w) {
        (Val::Int(i), Val::Int(j)) => {
            word_round_trip(i, 0);
            word_round_trip(j, 0);
        },
        _ => {},
    }
}

proof fn lemma_values_fail<
    F: Fn(FloatOp, u64, u64) -> u64,
    P: Fn(&str) -> Option<u64>,
>(c: Env<F, P>, e: Expr2, t: Held, rows: Seq<usize>, i: nat, n: nat)
    requires
        i <= n,
        values_over(c, e, t, rows, i) is Err,
    ensures
        values_over(c, e, t, rows, n) == values_over(c, e, t, rows, i),
    decreases n,
{
    if i < n {
        lemma_values_fail(c, e, t, rows, i, (n - 1) as nat);
    }
}

/// Evaluates an expression on listed rows.
fn list_values<
    F: Fn(FloatOp, u64, u64) -> u64,
    P: Fn(&str) -> Option<u64>,
    S: Fn(&Expr2, &ExecTable, usize) -> Result<Value2, Error>,
>(c: &Ctx<'_, F, P, S>, e: &Expr2, t: &ExecTable, rows: &Vec<usize>) -> (r: Result<Vec<Value2>, Error>)
    requires
        ctx_ok(*c),
        t.wf(),
    ensures
        match r {
            Ok(values) => values_over(c@, *e, t@, rows@, rows@.len()) == Ok::<Seq<Val>, Fail>(vals_of(values@)),
            Err(f) => values_over(c@, *e, t@, rows@, rows@.len()) == Err::<Seq<Val>, Fail>(f@),
        },
{
    let mut values: Vec<Value2> = Vec::new();
    let mut i: usize = 0;
    proof {
        assert(vals_of(values@) =~= Seq::<Val>::empty());
    }
    while i < rows.len()
        invariant
            ctx_ok(*c),
            t.wf(),
            i <= rows@.len(),
            values_over(c@, *e, t@, rows@, i as nat) == Ok::<Seq<Val>, Fail>(vals_of(values@)),
        decreases rows.len() - i,
    {
        let ghost before = vals_of(values@);
        match eval(c, e, t, rows[i]) {
            Ok(v) => {
                values.push(v);
                proof {
                    assert(vals_of(values@) =~= before.push(v@));
                }
            },
            Err(f) => {
                proof {
                    assert(values_over(c@, *e, t@, rows@, (i + 1) as nat) == Err::<Seq<Val>, Fail>(f@));
                    lemma_values_fail(c@, *e, t@, rows@, (i + 1) as nat, rows@.len());
                }
                return Err(f);
            },
        }
        i = i + 1;
    }
    Ok(values)
}

/// Keeps the first value of each key.
pub fn keep_distinct(values: Vec<Value2>) -> (r: Vec<Value2>)
    ensures
        vals_of(r@) == kept(vals_of(values@)),
{
    let ghost vals = vals_of(values@);
    let mut seen: Seen = Seen::new();
    let mut out: Vec<Value2> = Vec::new();
    let mut i: usize = 0;
    proof {
        assert(vals.take(0) =~= Seq::<Val>::empty());
        assert(vals_of(out@) =~= kept(vals.take(0)));
    }
    while i < values.len()
        invariant
            i <= values@.len(),
            vals == vals_of(values@),
            seen.wf(),
            vals_of(out@) == kept(vals.take(i as int)),
            forall|k: Val| #[trigger] seen.has(k) <==> key_occurs(kept(vals.take(i as int)), k),
        decreases values.len() - i,
    {
        let ghost before = kept(vals.take(i as int));
        let ghost old_seen = seen;
        proof {
            assert(vals.take(i + 1).drop_last() =~= vals.take(i as int));
            assert(vals.take(i + 1).last() == values@[i as int]@);
        }
        let key: Value2 = match &values[i] {
            Value2::Date(_) => Value2::Null,
            other => other.duplicate(),
        };
        let fresh: bool = seen.insert(&key);
        let ghost now = kept(vals.take(i + 1));
        if fresh {
            out.push(values[i].duplicate());
            proof {
                assert(now == before.push(vals[i as int]));
                assert(vals_of(out@) =~= before.push(vals[i as int]));
            }
        }
        proof {
            assert forall|k: Val| #[trigger] seen.has(k) <==> key_occurs(now, k) by {
                if key_occurs(before, k) {
                    let j = choose|j: int| 0 <= j < before.len() && distinct_key(#[trigger] before[j]) == k;
                    assert(distinct_key(now[j]) == k);
                }
                if key_occurs(now, k) && k != key@ {
                    let j = choose|j: int| 0 <= j < now.len() && distinct_key(#[trigger] now[j]) == k;
                    assert(distinct_key(before[j]) == k);
                }
                if k == key@ && fresh {
                    assert(distinct_key(now[before.len() as int]) == k);
                }
                assert(old_seen.has(k) <==> key_occurs(before, k));
            }
        }
        i = i + 1;
    }
    proof {
        assert(vals.take(vals.len() as int) =~= vals);
    }
    out
}

/// Counts the keys of values.
fn count_distinct(values: &Vec<Value2>) -> (n: usize)
    ensures
        n == count_keys(vals_of(values@)),
{
    let ghost keys = vals_of(values@).map_values(|v: Val| count_key(v));
    let mut seen: Seen = Seen::new();
    let ghost mut list: Seq<Val> = Seq::empty();
    let mut n: usize = 0;
    let mut i: usize = 0;
    while i < values.len()
        invariant
            i <= values@.len(),
            keys == vals_of(values@).map_values(|v: Val| count_key(v)),
            seen.wf(),
            n <= i,
            n == list.len(),
            list.no_duplicates(),
            forall|k: Val| #[trigger] seen.has(k) <==> list.contains(k),
            forall|k: Val| #[trigger] list.contains(k) <==> exists|j: int| 0 <= j < i && #[trigger] keys[j] == k,
        decreases values.len() - i,
    {
        let key: Value2 = match &values[i] {
            Value2::Float(b) => if nan(*b) {
                Value2::Float(NAN_KEY)
            } else {
                Value2::Float(*b)
            },
            other => other.duplicate(),
        };
        let ghost old_list = list;
        let ghost old_seen = seen;
        proof {
            assert(keys[i as int] == key@);
        }
        if seen.insert(&key) {
            n = n + 1;
            proof {
                assert(!old_seen.has(key@));
                list = list.push(key@);
            }
        }
        proof {
            assert forall|k: Val| #[trigger] list.contains(k) <==> (old_list.contains(k) || k == key@) by {
                if old_list.contains(k) {
                    let j = choose|j: int| 0 <= j < old_list.len() && old_list[j] == k;
                    assert(list[j] == k);
                }
                if list.contains(k) && k != key@ {
                    let j = choose|j: int| 0 <= j < list.len() && list[j] == k;
                    assert(old_list[j] == k);
                }
                if k == key@ {
                    if old_seen.has(k) {
                        assert(old_list.contains(k));
                    } else {
                        assert(list[old_list.len() as int] == k);
                    }
                }
            }
            assert forall|k: Val| #[trigger] seen.has(k) <==> list.contains(k) by {
                assert(old_seen.has(k) <==> old_list.contains(k));
            }
            assert forall|k: Val| #[trigger] list.contains(k) <==> exists|j: int| 0 <= j < i + 1 && #[trigger] keys[j] == k by {
                if old_list.contains(k) {
                    let j = choose|j: int| 0 <= j < i && #[trigger] keys[j] == k;
                    assert(keys[j] == k);
                }
                if exists|j: int| 0 <= j < i + 1 && #[trigger] keys[j] == k {
                    let j = choose|j: int| 0 <= j < i + 1 && #[trigger] keys[j] == k;
                    if j < i {
                        assert(old_list.contains(k));
                    }
                }
            }
        }
        i = i + 1;
    }
    proof {
        assert(list.to_set() =~= keys.to_set()) by {
            assert forall|k: Val| list.to_set().contains(k) <==> keys.to_set().contains(k) by {
                if list.contains(k) {
                    let j = choose|j: int| 0 <= j < i && #[trigger] keys[j] == k;
                    assert(keys.contains(k));
                }
                if keys.contains(k) {
                    let j = choose|j: int| 0 <= j < keys.len() && keys[j] == k;
                    assert(keys[j] == k);
                    assert(list.contains(k));
                }
            }
        }
        list.unique_seq_to_set();
    }
    n
}

/// Counts the different cells of listed rows.
fn count_cells(cells: &Vec<u64>, rows: &Vec<usize>) -> (n: usize)
    requires
        forall|i: int| 0 <= i < rows@.len() ==> #[trigger] rows@[i] < cells@.len(),
    ensures
        n == cell_kinds(cells@, rows@),
{
    let ghost kinds = rows@.map_values(|r: usize| cells@[r as int]);
    let mut words: Vec<Value2> = Vec::new();
    let mut i: usize = 0;
    while i < rows.len()
        invariant
            forall|k: int| 0 <= k < rows@.len() ==> #[trigger] rows@[k] < cells@.len(),
            i <= rows@.len(),
            words@.len() == i,
            forall|k: int| 0 <= k < i ==> (#[trigger] words@[k])@ == Val::Int(word_signed(cells@[rows@[k] as int])),
        decreases rows.len() - i,
    {
        words.push(Value2::Int(signed_of(cells[rows[i]])));
        i = i + 1;
    }
    let n: usize = count_distinct(&words);
    proof {
        let keys = vals_of(words@).map_values(|v: Val| count_key(v));
        let f = |x: u64| Val::Int(word_signed(x));
        assert(keys =~= kinds.map_values(f));
        assert(vstd::relations::injective(f)) by {
            assert forall|x: u64, y: u64| #[trigger] f(x) == #[trigger] f(y) implies x == y by {
                word_round_trip(0, x);
                word_round_trip(0, y);
            }
        }
        assert(kinds.to_set().map(f) =~= keys.to_set()) by {
            assert forall|v: Val| kinds.to_set().map(f).contains(v) <==> keys.to_set().contains(v) by {
                if kinds.to_set().map(f).contains(v) {
                    let x = choose|x: u64| kinds.to_set().contains(x) && f(x) == v;
                    let j = choose|j: int| 0 <= j < kinds.len() && kinds[j] == x;
                    assert(keys[j] == v);
                }
                if keys.to_set().contains(v) {
                    let j = choose|j: int| 0 <= j < keys.len() && keys[j] == v;
                    assert(kinds[j] == kinds[j]);
                    assert(kinds.to_set().contains(kinds[j]));
                    assert(f(kinds[j]) == v);
                }
            }
        }
        vstd::set_lib::lemma_map_size(kinds.to_set(), keys.to_set(), f);
    }
    n
}

fn count_nonzero(cells: &Vec<u64>, rows: &Vec<usize>) -> (n: usize)
    requires
        forall|i: int| 0 <= i < rows@.len() ==> #[trigger] rows@[i] < cells@.len(),
    ensures
        n == nonzero_count(cells@, rows@, rows@.len()),
{
    let mut n: usize = 0;
    let mut i: usize = 0;
    while i < rows.len()
        invariant
            forall|k: int| 0 <= k < rows@.len() ==> #[trigger] rows@[k] < cells@.len(),
            i <= rows@.len(),
            n <= i,
            n == nonzero_count(cells@, rows@, i as nat),
        decreases rows.len() - i,
    {
        if cells[rows[i]] != 0 {
            n = n + 1;
        }
        i = i + 1;
    }
    n
}

fn aggregate_values<F: Fn(FloatOp, u64, u64) -> u64, P: Fn(&str) -> Option<u64>>(func: AggFunc, values: &Vec<Value2>, fpu: &F, reader: &P) -> (r: Value2)
    requires
        is_arith(*fpu),
        is_reader(*reader),
    ensures
        r@ == aggregate_of(*fpu, *reader, func, vals_of(values@)),
{
    match func {
        AggFunc::Count => Value2::Int(values.len() as i64),
        AggFunc::CountDistinct => Value2::Int(values.len() as i64),
        AggFunc::Sum => sum_values(values, fpu, reader),
        AggFunc::Avg => avg_values(values, fpu, reader),
        AggFunc::Min => min_values(values, fpu, reader),
        AggFunc::Max => max_values(values, fpu, reader),
    }
}

fn aggregate_rows<
    F: Fn(FloatOp, u64, u64) -> u64,
    P: Fn(&str) -> Option<u64>,
    S: Fn(&Expr2, &ExecTable, usize) -> Result<Value2, Error>,
>(c: &Ctx<'_, F, P, S>, func: AggFunc, arg: &Expr2, t: &ExecTable, rows: &Vec<usize>) -> (r: Result<
    Value2,
    Error,
>)
    requires
        ctx_ok(*c),
        t.wf(),
        rows_in(rows@, t@),
    ensures
        outcome(r) == aggregate_over(c@, func, arg, t@, rows@),
{
    match func {
        AggFunc::Count => match col_in(arg, t) {
            Some(i) => Ok(Value2::Int(count_nonzero(&t.columns[i], rows) as i64)),
            None => Ok(Value2::Int(rows.len() as i64)),
        },
        AggFunc::CountDistinct => match col_in(arg, t) {
            Some(i) => Ok(Value2::Int(count_cells(&t.columns[i], rows) as i64)),
            None => match list_values(c, arg, t, rows) {
                Ok(values) => Ok(Value2::Int(count_distinct(&values) as i64)),
                Err(f) => Err(f),
            },
        },
        AggFunc::Sum => sum_vec(c, arg, t, rows),
        AggFunc::Avg => match sum_vec(c, arg, t, rows) {
            Ok(sum) => if rows.len() == 0 {
                Ok(Value2::Null)
            } else {
                let s: u64 = match sum.as_f64(c.fpu, c.reader) {
                    Some(b) => b,
                    None => 0,
                };
                let n: u64 = (c.fpu)(FloatOp::FromU64, rows.len() as u64, 0);
                Ok(Value2::Float((c.fpu)(FloatOp::Div, s, n)))
            },
            Err(f) => Err(f),
        },
        AggFunc::Min => minmax_vec(c, arg, t, rows, true),
        AggFunc::Max => minmax_vec(c, arg, t, rows, false),
    }
}

fn eval_first<
    F: Fn(FloatOp, u64, u64) -> u64,
    P: Fn(&str) -> Option<u64>,
    S: Fn(&Expr2, &ExecTable, usize) -> Result<Value2, Error>,
>(c: &Ctx<'_, F, P, S>, e: &Expr2, t: &ExecTable, rows: &Vec<usize>) -> (r: Result<Value2, Error>)
    requires
        ctx_ok(*c),
        t.wf(),
    ensures
        outcome(r) == first_value(c@, *e, t@, rows@),
{
    if rows.len() == 0 {
        Ok(Value2::Null)
    } else {
        eval(c, e, t, rows[0])
    }
}

fn case_has_agg(whens: &Vec<(Expr2, Expr2)>, else_: &Option<Box<Expr2>>) -> (b: bool)
    ensures
        b == case_has_aggregate(*whens, *else_),
{
    let mut i: usize = 0;
    while i < whens.len()
        invariant
            i <= whens@.len(),
            forall|k: int| 0 <= k < i ==> !has_aggregate((#[trigger] whens@[k]).0),
        decreases whens.len() - i,
    {
        if expr_has_agg(&whens[i].0) {
            return true;
        }
        i = i + 1;
    }
    match else_ {
        Some(x) => expr_has_agg(x),
        None => false,
    }
}

/// Evaluates an expression on a group of rows.
pub fn eval_agg_expr<
    F: Fn(FloatOp, u64, u64) -> u64,
    P: Fn(&str) -> Option<u64>,
    S: Fn(&Expr2, &ExecTable, usize) -> Result<Value2, Error>,
>(c: &Ctx<'_, F, P, S>, e: &Expr2, t: &ExecTable, rows: &Vec<usize>) -> (r: Result<Value2, Error>)
    requires
        ctx_ok(*c),
        t.wf(),
        rows_in(rows@, t@),
    ensures
        outcome(r) == group_value(c@, *e, t@, rows@),
    decreases *e, 0int,
{
    match e {
        Expr2::CountStar => Ok(Value2::Int(rows.len() as i64)),
        Expr2::Agg { func, arg, distinct } => if *distinct {
            match list_values(c, arg, t, rows) {
                Ok(values) => {
                    let some: Vec<Value2> = keep_distinct(values);
                    Ok(aggregate_values(*func, &some, c.fpu, c.reader))
                },
                Err(f) => Err(f),
            }
        } else {
            aggregate_rows(c, *func, arg, t, rows)
        },
        Expr2::BinOp { op, left, right } => if expr_has_agg(left) || expr_has_agg(right) {
            match eval_agg_expr(c, left, t, rows) {
                Ok(l) => match eval_agg_expr(c, right, t, rows) {
                    Ok(r) => Ok(binop(*op, &l, &r, c.fpu, c.reader)),
                    Err(f) => Err(f),
                },
                Err(f) => Err(f),
            }
        } else {
            eval_first(c, e, t, rows)
        },
        Expr2::Case { whens, else_ } => if case_has_agg(whens, else_) {
            match eval_branch(c, whens, t, rows) {
                Ok(Some(v)) => Ok(v),
                Ok(None) => match else_ {
                    Some(x) => eval_agg_expr(c, x, t, rows),
                    None => Ok(Value2::Null),
                },
                Err(f) => Err(f),
            }
        } else {
            eval_first(c, e, t, rows)
        },
        Expr2::Neg(x) => if expr_has_agg(x) {
            match eval_agg_expr(c, x, t, rows) {
                Ok(v) => match v {
                    Value2::Int(i) => Ok(Value2::Int(negate_int(i))),
                    Value2::Float(b) => Ok(Value2::Float(negate(b))),
                    _ => Ok(Value2::Null),
                },
                Err(f) => Err(f),
            }
        } else {
            eval_first(c, e, t, rows)
        },
        _ => eval_first(c, e, t, rows),
    }
}

fn eval_branch<
    F: Fn(FloatOp, u64, u64) -> u64,
    P: Fn(&str) -> Option<u64>,
    S: Fn(&Expr2, &ExecTable, usize) -> Result<Value2, Error>,
>(c: &Ctx<'_, F, P, S>, whens: &Vec<(Expr2, Expr2)>, t: &ExecTable, rows: &Vec<usize>) -> (r: Result<
    Option<Value2>,
    Error,
>)
    requires
        ctx_ok(*c),
        t.wf(),
        rows_in(rows@, t@),
    ensures
        match r {
            Ok(Some(v)) => group_branch(c@, *whens, 0, t@, rows@) == Ok::<Option<Val>, Fail>(Some(v@)),
            Ok(None) => group_branch(c@, *whens, 0, t@, rows@) == Ok::<Option<Val>, Fail>(None),
            Err(e) => group_branch(c@, *whens, 0, t@, rows@) == Err::<Option<Val>, Fail>(e@),
        },
    decreases *whens, 1int,
{
    let mut k: usize = 0;
    while k < whens.len()
        invariant
            ctx_ok(*c),
            t.wf(),
            rows_in(rows@, t@),
            k <= whens@.len(),
            group_branch(c@, *whens, 0, t@, rows@) == group_branch(c@, *whens, k as nat, t@, rows@),
        decreases whens.len() - k,
    {
        match eval_agg_expr(c, &whens[k].0, t, rows) {
            Ok(x) => {
                if x.truthy() {
                    return match eval_agg_expr(c, &whens[k].1, t, rows) {
                        Ok(v) => Ok(Some(v)),
                        Err(f) => Err(f),
                    };
                }
            },
            Err(f) => {
                return Err(f);
            },
        }
        k = k + 1;
    }
    Ok(None)
}

} // verus!
