//! Sums, least and greatest values over listed rows.

use crate::error::{Error, Fail};
use crate::float_bits::{arith, discount_price, discounted, is_arith, FloatOp, ONE_BITS};
use crate::sql::ast::{BinOp2, ColType, Expr2};
use crate::sql::eval::{ctx_ok, eval, missing_column, no_column, outcome, value_of, Ctx, Env};
use crate::sql::exec_table::{ExecTable, Held};
use crate::sql::shape::{
    col_in, col_in_mul_sub_one, col_in_mul_sub_one_add_one, column_of, expr_has_col, is_double, minus_times_plus,
    times_one_minus, varies,
};
use crate::sql::value::{as_double, Val, Value2};
use crate::word::{signed_of, word_signed};
use vstd::prelude::*;

verus! {

/// A number that goes into what is added up for a row.
pub enum Operand<'a> {
    /// The cell of a column, as a double.
    Bits(usize),
    /// The cell of a column, as an unsigned number turned into a double.
    Word(usize),
    /// The same double in every row.
    Fixed(u64),
    /// The value of an expression; zero where it is no number.
    Of(&'a Expr2),
}

/// What is added up for a row.
pub enum Addend<'a> {
    /// An operation on two numbers.
    Two(FloatOp, Operand<'a>, Operand<'a>),
    /// `a * (1 - b)`.
    Discounted(usize, usize),
    /// `a * (1 - b) * (1 + c)`.
    Charged(usize, usize, usize),
    /// The cell of a column, as a double.
    Cell(usize),
    /// The value of an expression; rows where it is no number are left out.
    Each(&'a Expr2),
}

/// How an expression is added up.
pub enum SumPlan<'a> {
    /// As signed integers, which wrap.
    Ints(usize),
    /// Not at all: the sum is the integer zero.
    Zero,
    Doubles(Addend<'a>),
}

/// The value of an expression without columns.
pub open spec fn fixed_value<
    F: Fn(FloatOp, u64, u64) -> u64,
    P: Fn(&str) -> Option<u64>,
>(c: Env<F, P>, e: Expr2, t: Held) -> Result<Val, Fail> {
    value_of(c, e, t, 0)
}

/// A value as a double, with zero for what is no number.
pub open spec fn number_in<
    F: Fn(FloatOp, u64, u64) -> u64,
    P: Fn(&str) -> Option<u64>,
>(c: Env<F, P>, v: Val) -> u64 {
    match as_double(c.fpu, c.reader, v) {
        Some(b) => b,
        None => 0,
    }
}

/// A column as a number: as a double if it holds doubles, else as an unsigned
/// number.
pub open spec fn cell_operand<'a>(t: Held, c: usize) -> Operand<'a> {
    if is_double(t, c) {
        Operand::Bits(c)
    } else {
        Operand::Word(c)
    }
}

/// A side of an operation that is no column.
pub open spec fn side_operand<
    'a,
    F: Fn(FloatOp, u64, u64) -> u64,
    P: Fn(&str) -> Option<u64>,
>(c: Env<F, P>, e: &'a Expr2, t: Held) -> Result<Operand<'a>, Fail> {
    if varies(*e) {
        Ok(Operand::Of(e))
    } else {
        match fixed_value(c, *e, t) {
            Ok(v) => Ok(Operand::Fixed(number_in(c, v))),
            Err(f) => Err(f),
        }
    }
}

/// Two columns under one operation.
pub open spec fn two_columns<'a>(t: Held, op: FloatOp, a: usize, b: usize) -> Addend<'a> {
    if is_double(t, a) && is_double(t, b) {
        Addend::Two(op, Operand::Bits(a), Operand::Bits(b))
    } else {
        Addend::Two(op, Operand::Word(a), Operand::Word(b))
    }
}

/// The columns of `a * (1 - b)`, where both hold doubles.
pub open spec fn discount_columns(e: Expr2, t: Held) -> Option<(usize, usize)> {
    match times_one_minus(e, t) {
        Some((a, b)) => if is_double(t, a) && is_double(t, b) {
            Some((a, b))
        } else {
            None
        },
        None => None,
    }
}

/// The columns of `a * ((1 - b) * (1 + c))`, where all hold doubles.
pub open spec fn charge_columns(left: Expr2, right: Expr2, t: Held) -> Option<(usize, usize, usize)> {
    match (column_of(left, t), minus_times_plus(right, t)) {
        (Some(a), Some((b, c))) => if is_double(t, a) && is_double(t, b) && is_double(t, c) {
            Some((a, b, c))
        } else {
            None
        },
        _ => None,
    }
}

/// How a product is added up.
pub open spec fn product_plan<
    'a,
    F: Fn(FloatOp, u64, u64) -> u64,
    P: Fn(&str) -> Option<u64>,
>(c: Env<F, P>, e: &'a Expr2, left: &'a Expr2, right: &'a Expr2, t: Held) -> Result<Addend<'a>, Fail> {
    match discount_columns(*e, t) {
        Some((a, b)) => Ok(Addend::Discounted(a, b)),
        None => match charge_columns(*left, *right, t) {
            Some((a, b, d)) => Ok(Addend::Charged(a, b, d)),
            None => match (column_of(*left, t), column_of(*right, t)) {
                (Some(a), Some(b)) => Ok(two_columns(t, FloatOp::Mul, a, b)),
                (Some(a), None) => match side_operand(c, right, t) {
                    Ok(o) => Ok(Addend::Two(FloatOp::Mul, cell_operand(t, a), o)),
                    Err(f) => Err(f),
                },
                (None, Some(b)) => match side_operand(c, left, t) {
                    Ok(o) => Ok(Addend::Two(FloatOp::Mul, o, cell_operand(t, b))),
                    Err(f) => Err(f),
                },
                (None, None) => Ok(Addend::Each(e)),
            },
        },
    }
}

/// How a difference is added up. What a column is taken from counts as fixed.
pub open spec fn difference_plan<
    'a,
    F: Fn(FloatOp, u64, u64) -> u64,
    P: Fn(&str) -> Option<u64>,
>(c: Env<F, P>, e: &'a Expr2, left: &'a Expr2, right: &'a Expr2, t: Held) -> Result<Addend<'a>, Fail> {
    match (column_of(*left, t), column_of(*right, t)) {
        (None, Some(b)) => match fixed_value(c, *left, t) {
            Ok(v) => Ok(Addend::Two(FloatOp::Sub, Operand::Fixed(number_in(c, v)), cell_operand(t, b))),
            Err(f) => Err(f),
        },
        (Some(a), None) => match side_operand(c, right, t) {
            Ok(o) => Ok(Addend::Two(FloatOp::Sub, cell_operand(t, a), o)),
            Err(f) => Err(f),
        },
        _ => Ok(Addend::Each(e)),
    }
}

/// How an expression is added up.
pub open spec fn sum_plan<
    'a,
    F: Fn(FloatOp, u64, u64) -> u64,
    P: Fn(&str) -> Option<u64>,
>(c: Env<F, P>, e: &'a Expr2, t: Held) -> Result<SumPlan<'a>, Fail> {
    match *e {
        Expr2::Col(name) => match t.number(name@) {
            Some(i) => Ok(
                match t.col_types[i as int] {
                    ColType::Float => SumPlan::Doubles(Addend::Cell(i)),
                    ColType::Int => SumPlan::Ints(i),
                    _ => SumPlan::Zero,
                },
            ),
            None => Err(Fail::NotFound(no_column(name@))),
        },
        Expr2::BinOp { op, left, right } => if op == BinOp2::Mul {
            match product_plan(c, e, &*left, &*right, t) {
                Ok(a) => Ok(SumPlan::Doubles(a)),
                Err(f) => Err(f),
            }
        } else if op == BinOp2::Sub {
            match difference_plan(c, e, &*left, &*right, t) {
                Ok(a) => Ok(SumPlan::Doubles(a)),
                Err(f) => Err(f),
            }
        } else if op == BinOp2::Add {
            match (column_of(*left, t), column_of(*right, t)) {
                (Some(a), Some(b)) => Ok(SumPlan::Doubles(two_columns(t, FloatOp::Add, a, b))),
                _ => Ok(SumPlan::Doubles(Addend::Each(e))),
            }
        } else {
            Ok(SumPlan::Doubles(Addend::Each(e)))
        },
        _ => Ok(SumPlan::Doubles(Addend::Each(e))),
    }
}

/// A number in a row.
pub open spec fn operand_in<
    F: Fn(FloatOp, u64, u64) -> u64,
    P: Fn(&str) -> Option<u64>,
>(c: Env<F, P>, o: Operand<'_>, t: Held, row: usize) -> Result<u64, Fail> {
    match o {
        Operand::Bits(i) => Ok(t.columns[i as int][row as int]),
        Operand::Word(i) => Ok(arith(c.fpu, FloatOp::FromU64, t.columns[i as int][row as int], 0)),
        Operand::Fixed(b) => Ok(b),
        Operand::Of(e) => match value_of(c, *e, t, row) {
            Ok(v) => Ok(number_in(c, v)),
            Err(f) => Err(f),
        },
    }
}

/// `a * (1 - b) * (1 + d)`.
pub open spec fn charged<F: Fn(FloatOp, u64, u64) -> u64>(f: F, a: u64, b: u64, d: u64) -> u64 {
    arith(f, FloatOp::Mul, discounted(f, a, b), arith(f, FloatOp::Add, ONE_BITS, d))
}

/// What is added for a row; nothing where the row is left out.
pub open spec fn addend_in<
    F: Fn(FloatOp, u64, u64) -> u64,
    P: Fn(&str) -> Option<u64>,
>(c: Env<F, P>, a: Addend<'_>, t: Held, row: usize) -> Result<Option<u64>, Fail> {
    match a {
        Addend::Two(op, l, r) => match operand_in(c, l, t, row) {
            Ok(x) => match operand_in(c, r, t, row) {
                Ok(y) => Ok(Some(arith(c.fpu, op, x, y))),
                Err(f) => Err(f),
            },
            Err(f) => Err(f),
        },
        Addend::Discounted(x, y) => Ok(
            Some(discounted(c.fpu, t.columns[x as int][row as int], t.columns[y as int][row as int])),
        ),
        Addend::Charged(x, y, z) => Ok(
            Some(
                charged(
                    c.fpu,
                    t.columns[x as int][row as int],
                    t.columns[y as int][row as int],
                    t.columns[z as int][row as int],
                ),
            ),
        ),
        Addend::Cell(x) => Ok(Some(t.columns[x as int][row as int])),
        Addend::Each(e) => match value_of(c, *e, t, row) {
            Ok(v) => Ok(as_double(c.fpu, c.reader, v)),
            Err(f) => Err(f),
        },
    }
}

/// The sum over the first `n` listed rows, from the first to the last.
pub open spec fn total<
    F: Fn(FloatOp, u64, u64) -> u64,
    P: Fn(&str) -> Option<u64>,
>(c: Env<F, P>, a: Addend<'_>, t: Held, rows: Seq<usize>, n: nat) -> Result<u64, Fail>
    decreases n,
{
    if n == 0 {
        Ok(0)
    } else {
        match total(c, a, t, rows, (n - 1) as nat) {
            Ok(sum) => match addend_in(c, a, t, rows[n - 1]) {
                Ok(Some(x)) => Ok(arith(c.fpu, FloatOp::Add, sum, x)),
                Ok(None) => Ok(sum),
                Err(f) => Err(f),
            },
            Err(f) => Err(f),
        }
    }
}

/// The wrapping sum of a column over the first `n` listed rows.
pub open spec fn int_total(cells: Seq<u64>, rows: Seq<usize>, n: nat) -> i64
    decreases n,
{
    if n == 0 {
        0
    } else {
        int_total(cells, rows, (n - 1) as nat).wrapping_add(word_signed(cells[rows[n - 1] as int]))
    }
}

/// The sum of an expression over listed rows.
pub open spec fn sum_over<
    F: Fn(FloatOp, u64, u64) -> u64,
    P: Fn(&str) -> Option<u64>,
>(c: Env<F, P>, e: &Expr2, t: Held, rows: Seq<usize>) -> Result<Val, Fail> {
    match sum_plan(c, e, t) {
        Ok(SumPlan::Ints(i)) => Ok(Val::Int(int_total(t.columns[i as int], rows, rows.len()))),
        Ok(SumPlan::Zero) => Ok(Val::Int(0)),
        Ok(SumPlan::Doubles(a)) => match total(c, a, t, rows, rows.len()) {
            Ok(s) => Ok(Val::Float(s)),
            Err(f) => Err(f),
        },
        Err(f) => Err(f),
    }
}

/// The listed rows exist.
pub open spec fn rows_in(rows: Seq<usize>, t: Held) -> bool {
    forall|i: int| 0 <= i < rows.len() ==> #[trigger] rows[i] < t.row_count
}

pub open spec fn operand_ok(o: Operand<'_>, t: Held) -> bool {
    match o {
        Operand::Bits(i) => i < t.columns.len(),
        Operand::Word(i) => i < t.columns.len(),
        _ => true,
    }
}

/// The columns of an addend exist.
pub open spec fn addend_ok(a: Addend<'_>, t: Held) -> bool {
    match a {
        Addend::Two(_, l, r) => operand_ok(l, t) && operand_ok(r, t),
        Addend::Discounted(x, y) => x < t.columns.len() && y < t.columns.len(),
        Addend::Charged(x, y, z) => x < t.columns.len() && y < t.columns.len() && z < t.columns.len(),
        Addend::Cell(x) => x < t.columns.len(),
        Addend::Each(_) => true,
    }
}

/// Evaluates an expression without columns.
pub fn eval_const<
    F: Fn(FloatOp, u64, u64) -> u64,
    P: Fn(&str) -> Option<u64>,
    S: Fn(&Expr2, &ExecTable, usize) -> Result<Value2, Error>,
>(c: &Ctx<'_, F, P, S>, e: &Expr2, t: &ExecTable) -> (r: Result<Value2, Error>)
    requires
        ctx_ok(*c),
        t.wf(),
    ensures
        outcome(r) == fixed_value(c@, *e, t@),
{
    eval(c, e, t, 0)
}

fn as_number<
    F: Fn(FloatOp, u64, u64) -> u64,
    P: Fn(&str) -> Option<u64>,
    S: Fn(&Expr2, &ExecTable, usize) -> Result<Value2, Error>,
>(c: &Ctx<'_, F, P, S>, v: &Value2) -> (b: u64)
    requires
        ctx_ok(*c),
    ensures
        b == number_in(c@, v@),
{
    match v.as_f64(c.fpu, c.reader) {
        Some(b) => b,
        None => 0,
    }
}

fn column_operand<'a>(t: &ExecTable, i: usize) -> (o: Operand<'a>)
    requires
        t.wf(),
        i < t.columns.len(),
    ensures
        o == cell_operand::<'a>(t@, i),
        operand_ok(o, t@),
{
    if t.col_types[i] == ColType::Float {
        Operand::Bits(i)
    } else {
        Operand::Word(i)
    }
}

fn plan_side<
    'a,
    F: Fn(FloatOp, u64, u64) -> u64,
    P: Fn(&str) -> Option<u64>,
    S: Fn(&Expr2, &ExecTable, usize) -> Result<Value2, Error>,
>(c: &Ctx<'_, F, P, S>, e: &'a Expr2, t: &ExecTable) -> (r: Result<Operand<'a>, Error>)
    requires
        ctx_ok(*c),
        t.wf(),
    ensures
        match r {
            Ok(o) => side_operand(c@, e, t@) == Ok::<Operand<'a>, Fail>(o) && operand_ok(o, t@),
            Err(f) => side_operand(c@, e, t@) == Err::<Operand<'a>, Fail>(f@),
        },
{
    if expr_has_col(e) {
        Ok(Operand::Of(e))
    } else {
        match eval_const(c, e, t) {
            Ok(v) => Ok(Operand::Fixed(as_number(c, &v))),
            Err(f) => Err(f),
        }
    }
}

fn plan_two<'a>(t: &ExecTable, op: FloatOp, a: usize, b: usize) -> (r: Addend<'a>)
    requires
        t.wf(),
        a < t.columns.len(),
        b < t.columns.len(),
    ensures
        r == two_columns::<'a>(t@, op, a, b),
        addend_ok(r, t@),
{
    if t.col_types[a] == ColType::Float && t.col_types[b] == ColType::Float {
        Addend::Two(op, Operand::Bits(a), Operand::Bits(b))
    } else {
        Addend::Two(op, Operand::Word(a), Operand::Word(b))
    }
}

fn plan_product<
    'a,
    F: Fn(FloatOp, u64, u64) -> u64,
    P: Fn(&str) -> Option<u64>,
    S: Fn(&Expr2, &ExecTable, usize) -> Result<Value2, Error>,
>(c: &Ctx<'_, F, P, S>, e: &'a Expr2, left: &'a Expr2, right: &'a Expr2, t: &ExecTable) -> (r: Result<
    Addend<'a>,
    Error,
>)
    requires
        ctx_ok(*c),
        t.wf(),
    ensures
        match r {
            Ok(a) => product_plan(c@, e, left, right, t@) == Ok::<Addend<'a>, Fail>(a) && addend_ok(a, t@),
            Err(f) => product_plan(c@, e, left, right, t@) == Err::<Addend<'a>, Fail>(f@),
        },
{
    match col_in_mul_sub_one(e, t) {
        Some((a, b)) => {
            if t.col_types[a] == ColType::Float && t.col_types[b] == ColType::Float {
                return Ok(Addend::Discounted(a, b));
            }
        },
        None => {},
    }
    match (col_in(left, t), col_in_mul_sub_one_add_one(right, t)) {
        (Some(a), Some((b, d))) => {
            if t.col_types[a] == ColType::Float && t.col_types[b] == ColType::Float && t.col_types[d]
                == ColType::Float {
                return Ok(Addend::Charged(a, b, d));
            }
        },
        _ => {},
    }
    match (col_in(left, t), col_in(right, t)) {
        (Some(a), Some(b)) => Ok(plan_two(t, FloatOp::Mul, a, b)),
        (Some(a), None) => match plan_side(c, right, t) {
            Ok(o) => Ok(Addend::Two(FloatOp::Mul, column_operand(t, a), o)),
            Err(f) => Err(f),
        },
        (None, Some(b)) => match plan_side(c, left, t) {
            Ok(o) => Ok(Addend::Two(FloatOp::Mul, o, column_operand(t, b))),
            Err(f) => Err(f),
        },
        (None, None) => Ok(Addend::Each(e)),
    }
}

fn plan_difference<
    'a,
    F: Fn(FloatOp, u64, u64) -> u64,
    P: Fn(&str) -> Option<u64>,
    S: Fn(&Expr2, &ExecTable, usize) -> Result<Value2, Error>,
>(c: &Ctx<'_, F, P, S>, e: &'a Expr2, left: &'a Expr2, right: &'a Expr2, t: &ExecTable) -> (r: Result<
    Addend<'a>,
    Error,
>)
    requires
        ctx_ok(*c),
        t.wf(),
    ensures
        match r {
            Ok(a) => difference_plan(c@, e, left, right, t@) == Ok::<Addend<'a>, Fail>(a) && addend_ok(a, t@),
            Err(f) => difference_plan(c@, e, left, right, t@) == Err::<Addend<'a>, Fail>(f@),
        },
{
    match (col_in(left, t), col_in(right, t)) {
        (None, Some(b)) => match eval_const(c, left, t) {
            Ok(v) => Ok(Addend::Two(FloatOp::Sub, Operand::Fixed(as_number(c, &v)), column_operand(t, b))),
            Err(f) => Err(f),
        },
        (Some(a), None) => match plan_side(c, right, t) {
            Ok(o) => Ok(Addend::Two(FloatOp::Sub, column_operand(t, a), o)),
            Err(f) => Err(f),
        },
        _ => Ok(Addend::Each(e)),
    }
}

/// Decides how an expression is added up.
pub fn plan_sum<
    'a,
    F: Fn(FloatOp, u64, u64) -> u64,
    P: Fn(&str) -> Option<u64>,
    S: Fn(&Expr2, &ExecTable, usize) -> Result<Value2, Error>,
>(c: &Ctx<'_, F, P, S>, e: &'a Expr2, t: &ExecTable) -> (r: Result<SumPlan<'a>, Error>)
    requires
        ctx_ok(*c),
        t.wf(),
    ensures
        match r {
            Ok(p) => {
                &&& sum_plan(c@, e, t@) == Ok::<SumPlan<'a>, Fail>(p)
                &&& p matches SumPlan::Ints(i) ==> i < t.columns.len()
                &&& p matches SumPlan::Doubles(a) ==> addend_ok(a, t@)
            },
            Err(f) => sum_plan(c@, e, t@) == Err::<SumPlan<'a>, Fail>(f@),
        },
{
    match e {
        Expr2::Col(name) => match t.lookup_col(name.as_str()) {
            Some(i) => Ok(
                match t.col_types[i] {
                    ColType::Float => SumPlan::Doubles(Addend::Cell(i)),
                    ColType::Int => SumPlan::Ints(i),
                    _ => SumPlan::Zero,
                },
            ),
            None => Err(missing_column(name.as_str())),
        },
        Expr2::BinOp { op, left, right } => if *op == BinOp2::Mul {
            match plan_product(c, e, left, right, t) {
                Ok(a) => Ok(SumPlan::Doubles(a)),
                Err(f) => Err(f),
            }
        } else if *op == BinOp2::Sub {
            match plan_difference(c, e, left, right, t) {
                Ok(a) => Ok(SumPlan::Doubles(a)),
                Err(f) => Err(f),
            }
        } else if *op == BinOp2::Add {
            match (col_in(left, t), col_in(right, t)) {
                (Some(a), Some(b)) => Ok(SumPlan::Doubles(plan_two(t, FloatOp::Add, a, b))),
                _ => Ok(SumPlan::Doubles(Addend::Each(e))),
            }
        } else {
            Ok(SumPlan::Doubles(Addend::Each(e)))
        },
        _ => Ok(SumPlan::Doubles(Addend::Each(e))),
    }
}

fn operand_value<
    F: Fn(FloatOp, u64, u64) -> u64,
    P: Fn(&str) -> Option<u64>,
    S: Fn(&Expr2, &ExecTable, usize) -> Result<Value2, Error>,
>(c: &Ctx<'_, F, P, S>, o: &Operand<'_>, t: &ExecTable, row: usize) -> (r: Result<u64, Error>)
    requires
        ctx_ok(*c),
        t.wf(),
        operand_ok(*o, t@),
        row < t.row_count,
    ensures
        match r {
            Ok(x) => operand_in(c@, *o, t@, row) == Ok::<u64, Fail>(x),
            Err(f) => operand_in(c@, *o, t@, row) == Err::<u64, Fail>(f@),
        },
{
    match o {
        Operand::Bits(i) => Ok(t.columns[*i][row]),
        Operand::Word(i) => Ok((c.fpu)(FloatOp::FromU64, t.columns[*i][row], 0)),
        Operand::Fixed(b) => Ok(*b),
        Operand::Of(e) => match eval(c, e, t, row) {
            Ok(v) => Ok(as_number(c, &v)),
            Err(f) => Err(f),
        },
    }
}

fn charge<F: Fn(FloatOp, u64, u64) -> u64>(f: &F, a: u64, b: u64, d: u64) -> (r: u64)
    requires
        is_arith(*f),
    ensures
        r == charged(*f, a, b, d),
{
    let price: u64 = discount_price(f, a, b);
    let rate: u64 = f(FloatOp::Add, ONE_BITS, d);
    f(FloatOp::Mul, price, rate)
}

/// What is added for a row.
pub fn addend_value<
    F: Fn(FloatOp, u64, u64) -> u64,
    P: Fn(&str) -> Option<u64>,
    S: Fn(&Expr2, &ExecTable, usize) -> Result<Value2, Error>,
>(c: &Ctx<'_, F, P, S>, a: &Addend<'_>, t: &ExecTable, row: usize) -> (r: Result<
    Option<u64>,
    Error,
>)
    requires
        ctx_ok(*c),
        t.wf(),
        addend_ok(*a, t@),
        row < t.row_count,
    ensures
        match r {
            Ok(x) => addend_in(c@, *a, t@, row) == Ok::<Option<u64>, Fail>(x),
            Err(f) => addend_in(c@, *a, t@, row) == Err::<Option<u64>, Fail>(f@),
        },
{
    match a {
        Addend::Two(op, l, r) => match operand_value(c, l, t, row) {
            Ok(x) => match operand_value(c, r, t, row) {
                Ok(y) => Ok(Some((c.fpu)(*op, x, y))),
                Err(f) => Err(f),
            },
            Err(f) => Err(f),
        },
        Addend::Discounted(x, y) => Ok(Some(discount_price(c.fpu, t.columns[*x][row], t.columns[*y][row]))),
        Addend::Charged(x, y, z) => Ok(
            Some(charge(c.fpu, t.columns[*x][row], t.columns[*y][row], t.columns[*z][row])),
        ),
        Addend::Cell(x) => Ok(Some(t.columns[*x][row])),
        Addend::Each(e) => match eval(c, e, t, row) {
            Ok(v) => Ok(v.as_f64(c.fpu, c.reader)),
            Err(f) => Err(f),
        },
    }
}

proof fn lemma_total_fails<
    F: Fn(FloatOp, u64, u64) -> u64,
    P: Fn(&str) -> Option<u64>,
>(c: Env<F, P>, a: Addend<'_>, t: Held, rows: Seq<usize>, i: nat, n: nat)
    requires
        i <= n,
        total(c, a, t, rows, i) is Err,
    ensures
        total(c, a, t, rows, n) == total(c, a, t, rows, i),
    decreases n,
{
    if i < n {
        lemma_total_fails(c, a, t, rows, i, (n - 1) as nat);
    }
}

fn add_up<
    F: Fn(FloatOp, u64, u64) -> u64,
    P: Fn(&str) -> Option<u64>,
    S: Fn(&Expr2, &ExecTable, usize) -> Result<Value2, Error>,
>(c: &Ctx<'_, F, P, S>, a: &Addend<'_>, t: &ExecTable, rows: &Vec<usize>) -> (r: Result<u64, Error>)
    requires
        ctx_ok(*c),
        t.wf(),
        addend_ok(*a, t@),
        rows_in(rows@, t@),
    ensures
        match r {
            Ok(x) => total(c@, *a, t@, rows@, rows@.len()) == Ok::<u64, Fail>(x),
            Err(f) => total(c@, *a, t@, rows@, rows@.len()) == Err::<u64, Fail>(f@),
        },
{
    let mut sum: u64 = 0;
    let mut i: usize = 0;
    while i < rows.len()
        invariant
            ctx_ok(*c),
            t.wf(),
            addend_ok(*a, t@),
            rows_in(rows@, t@),
            i <= rows@.len(),
            total(c@, *a, t@, rows@, i as nat) == Ok::<u64, Fail>(sum),
        decreases rows.len() - i,
    {
        match addend_value(c, a, t, rows[i]) {
            Ok(Some(x)) => {
                sum = (c.fpu)(FloatOp::Add, sum, x);
            },
            Ok(None) => {},
            Err(f) => {
                proof {
                    assert(total(c@, *a, t@, rows@, (i + 1) as nat) == Err::<u64, Fail>(f@));
                    lemma_total_fails(c@, *a, t@, rows@, (i + 1) as nat, rows@.len());
                }
                return Err(f);
            },
        }
        i = i + 1;
    }
    Ok(sum)
}

fn add_ints(cells: &Vec<u64>, rows: &Vec<usize>) -> (r: i64)
    requires
        forall|i: int| 0 <= i < rows@.len() ==> #[trigger] rows@[i] < cells@.len(),
    ensures
        r == int_total(cells@, rows@, rows@.len()),
{
    let mut sum: i64 = 0;
    let mut i: usize = 0;
    while i < rows.len()
        invariant
            forall|k: int| 0 <= k < rows@.len() ==> #[trigger] rows@[k] < cells@.len(),
            i <= rows@.len(),
            sum == int_total(cells@, rows@, i as nat),
        decreases rows.len() - i,
    {
        sum = sum.wrapping_add(signed_of(cells[rows[i]]));
        i = i + 1;
    }
    sum
}

/// Adds up an expression over listed rows.
pub fn sum_vec<
    F: Fn(FloatOp, u64, u64) -> u64,
    P: Fn(&str) -> Option<u64>,
    S: Fn(&Expr2, &ExecTable, usize) -> Result<Value2, Error>,
>(c: &Ctx<'_, F, P, S>, e: &Expr2, t: &ExecTable, rows: &Vec<usize>) -> (r: Result<Value2, Error>)
    requires
        ctx_ok(*c),
        t.wf(),
        rows_in(rows@, t@),
    ensures
        outcome(r) == sum_over(c@, e, t@, rows@),
{
    match plan_sum(c, e, t) {
        Ok(SumPlan::Ints(i)) => Ok(Value2::Int(add_ints(&t.columns[i], rows))),
        Ok(SumPlan::Zero) => Ok(Value2::Int(0)),
        Ok(SumPlan::Doubles(a)) => match add_up(c, &a, t, rows) {
            Ok(sum) => Ok(Value2::Float(sum)),
            Err(f) => Err(f),
        },
        Err(f) => Err(f),
    }
}

/// The least or greatest of two doubles, by the operation.
pub open spec fn better<F: Fn(FloatOp, u64, u64) -> u64>(f: F, op: FloatOp, best: Option<u64>, x: u64) -> u64 {
    match best {
        Some(b) => arith(f, op, b, x),
        None => x,
    }
}

/// The best double over the first `n` listed rows.
pub open spec fn best_double<
    F: Fn(FloatOp, u64, u64) -> u64,
    P: Fn(&str) -> Option<u64>,
>(c: Env<F, P>, op: FloatOp, a: Addend<'_>, t: Held, rows: Seq<usize>, n: nat) -> Result<
    Option<u64>,
    Fail,
>
    decreases n,
{
    if n == 0 {
        Ok(None)
    } else {
        match best_double(c, op, a, t, rows, (n - 1) as nat) {
            Ok(best) => match addend_in(c, a, t, rows[n - 1]) {
                Ok(Some(x)) => Ok(Some(better(c.fpu, op, best, x))),
                Ok(None) => Ok(best),
                Err(f) => Err(f),
            },
            Err(f) => Err(f),
        }
    }
}

/// The least or greatest signed integer over the first `n` listed rows.
pub open spec fn best_int(is_min: bool, cells: Seq<u64>, rows: Seq<usize>, n: nat) -> Option<i64>
    decreases n,
{
    if n == 0 {
        None
    } else {
        let x = word_signed(cells[rows[n - 1] as int]);
        match best_int(is_min, cells, rows, (n - 1) as nat) {
            None => Some(x),
            Some(b) => if is_min == (x < b) && x != b {
                Some(x)
            } else {
                Some(b)
            },
        }
    }
}

pub open spec fn best_op(is_min: bool) -> FloatOp {
    if is_min {
        FloatOp::Min
    } else {
        FloatOp::Max
    }
}

pub open spec fn int_or_null(x: Option<i64>) -> Val {
    match x {
        Some(i) => Val::Int(i),
        None => Val::Null,
    }
}

pub open spec fn double_or_null(x: Option<u64>) -> Val {
    match x {
        Some(b) => Val::Float(b),
        None => Val::Null,
    }
}

/// The least or greatest value of an expression over listed rows: of a column
/// as its type says, else as a double.
pub open spec fn best_over<
    F: Fn(FloatOp, u64, u64) -> u64,
    P: Fn(&str) -> Option<u64>,
>(c: Env<F, P>, is_min: bool, e: &Expr2, t: Held, rows: Seq<usize>) -> Result<Val, Fail> {
    match column_of(*e, t) {
        Some(i) => if is_double(t, i) {
            match best_double(c, best_op(is_min), Addend::Cell(i), t, rows, rows.len()) {
                Ok(b) => Ok(double_or_null(b)),
                Err(f) => Err(f),
            }
        } else {
            Ok(int_or_null(best_int(is_min, t.columns[i as int], rows, rows.len())))
        },
        None => match best_double(c, best_op(is_min), Addend::Each(e), t, rows, rows.len()) {
            Ok(b) => Ok(double_or_null(b)),
            Err(f) => Err(f),
        },
    }
}

proof fn lemma_best_fails<
    F: Fn(FloatOp, u64, u64) -> u64,
    P: Fn(&str) -> Option<u64>,
>(
    c: Env<F, P>,
    op: FloatOp,
    a: Addend<'_>,
    t: Held,
    rows: Seq<usize>,
    i: nat,
    n: nat,
)
    requires
        i <= n,
        best_double(c, op, a, t, rows, i) is Err,
    ensures
        best_double(c, op, a, t, rows, n) == best_double(c, op, a, t, rows, i),
    decreases n,
{
    if i < n {
        lemma_best_fails(c, op, a, t, rows, i, (n - 1) as nat);
    }
}

fn find_best_double<
    F: Fn(FloatOp, u64, u64) -> u64,
    P: Fn(&str) -> Option<u64>,
    S: Fn(&Expr2, &ExecTable, usize) -> Result<Value2, Error>,
>(c: &Ctx<'_, F, P, S>, op: FloatOp, a: &Addend<'_>, t: &ExecTable, rows: &Vec<usize>) -> (r: Result<
    Option<u64>,
    Error,
>)
    requires
        ctx_ok(*c),
        t.wf(),
        addend_ok(*a, t@),
        rows_in(rows@, t@),
    ensures
        match r {
            Ok(x) => best_double(c@, op, *a, t@, rows@, rows@.len()) == Ok::<Option<u64>, Fail>(x),
            Err(f) => best_double(c@, op, *a, t@, rows@, rows@.len()) == Err::<Option<u64>, Fail>(f@),
        },
{
    let mut best: Option<u64> = None;
    let mut i: usize = 0;
    while i < rows.len()
        invariant
            ctx_ok(*c),
            t.wf(),
            addend_ok(*a, t@),
            rows_in(rows@, t@),
            i <= rows@.len(),
            best_double(c@, op, *a, t@, rows@, i as nat) == Ok::<Option<u64>, Fail>(best),
        decreases rows.len() - i,
    {
        match addend_value(c, a, t, rows[i]) {
            Ok(Some(x)) => {
                best = Some(
                    match best {
                        Some(b) => (c.fpu)(op, b, x),
                        None => x,
                    },
                );
            },
            Ok(None) => {},
            Err(f) => {
                proof {
                    assert(best_double(c@, op, *a, t@, rows@, (i + 1) as nat) == Err::<Option<u64>, Fail>(f@));
                    lemma_best_fails(c@, op, *a, t@, rows@, (i + 1) as nat, rows@.len());
                }
                return Err(f);
            },
        }
        i = i + 1;
    }
    Ok(best)
}

fn find_best_int(is_min: bool, cells: &Vec<u64>, rows: &Vec<usize>) -> (r: Option<i64>)
    requires
        forall|i: int| 0 <= i < rows@.len() ==> #[trigger] rows@[i] < cells@.len(),
    ensures
        r == best_int(is_min, cells@, rows@, rows@.len()),
{
    let mut best: Option<i64> = None;
    let mut i: usize = 0;
    while i < rows.len()
        invariant
            forall|k: int| 0 <= k < rows@.len() ==> #[trigger] rows@[k] < cells@.len(),
            i <= rows@.len(),
            best == best_int(is_min, cells@, rows@, i as nat),
        decreases rows.len() - i,
    {
        let x: i64 = signed_of(cells[rows[i]]);
        best = match best {
            None => Some(x),
            Some(b) => if is_min == (x < b) && x != b {
                Some(x)
            } else {
                Some(b)
            },
        };
        i = i + 1;
    }
    best
}

/// The least or greatest value of an expression over listed rows.
pub fn minmax_vec<
    F: Fn(FloatOp, u64, u64) -> u64,
    P: Fn(&str) -> Option<u64>,
    S: Fn(&Expr2, &ExecTable, usize) -> Result<Value2, Error>,
>(c: &Ctx<'_, F, P, S>, e: &Expr2, t: &ExecTable, rows: &Vec<usize>, is_min: bool) -> (r: Result<
    Value2,
    Error,
>)
    requires
        ctx_ok(*c),
        t.wf(),
        rows_in(rows@, t@),
    ensures
        outcome(r) == best_over(c@, is_min, e, t@, rows@),
{
    let op: FloatOp = if is_min {
        FloatOp::Min
    } else {
        FloatOp::Max
    };
    let a: Addend<'_> = match col_in(e, t) {
        Some(i) => {
            if t.col_types[i] != ColType::Float {
                return Ok(
                    match find_best_int(is_min, &t.columns[i], rows) {
                        Some(x) => Value2::Int(x),
                        None => Value2::Null,
                    },
                );
            }
            Addend::Cell(i)
        },
        None => Addend::Each(e),
    };
    match find_best_double(c, op, &a, t, rows) {
        Ok(Some(b)) => Ok(Value2::Float(b)),
        Ok(None) => Ok(Value2::Null),
        Err(f) => Err(f),
    }
}

} // verus!
