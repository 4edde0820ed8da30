//! Values of expressions.

use crate::float_bits::{arith, float_eq, float_lt, is_arith, is_reader, less, reads_as, same, FloatOp};
use crate::hashing::{hash_text, text_hash};
use crate::sql::ast::BinOp2;
use crate::text::{chars_of, parse_i64, read_i64, same_text};
use crate::word::{signed_of, signed_word, word_of, word_signed};
use vstd::prelude::*;

verus! {

/// A value. A double is held as its bit pattern.
#[derive(Debug)]
pub enum Value2 {
    Int(i64),
    Float(u64),
    Str(String),
    Date(i32),
    Null,
}

/// What a value is.
pub enum Val {
    Int(i64),
    Float(u64),
    Str(Seq<char>),
    Date(i32),
    Null,
}

impl Value2 {
    pub open spec fn view(&self) -> Val {
        match self {
            Value2::Int(i) => Val::Int(*i),
            Value2::Float(b) => Val::Float(*b),
            Value2::Str(s) => Val::Str(s@),
            Value2::Date(d) => Val::Date(*d),
            Value2::Null => Val::Null,
        }
    }

    /// The same value.
    pub fn duplicate(&self) -> (v: Value2)
        ensures
            v@ == self@,
    {
        match self {
            Value2::Int(i) => Value2::Int(*i),
            Value2::Float(b) => Value2::Float(*b),
            Value2::Str(s) => Value2::Str(s.clone()),
            Value2::Date(d) => Value2::Date(*d),
            Value2::Null => Value2::Null,
        }
    }
}

/// A value as a double.
pub open spec fn as_double<F: Fn(FloatOp, u64, u64) -> u64, P: Fn(&str) -> Option<u64>>(f: F, p: P, v: Val) -> Option<u64> {
    match v {
        Val::Int(i) => Some(arith(f, FloatOp::FromI64, signed_word(i), 0)),
        Val::Float(b) => Some(b),
        Val::Date(d) => Some(arith(f, FloatOp::FromI64, signed_word(d as i64), 0)),
        Val::Null => None,
        Val::Str(s) => reads_as(p, s),
    }
}

/// A value as a signed integer.
pub open spec fn as_int<F: Fn(FloatOp, u64, u64) -> u64>(f: F, v: Val) -> Option<i64> {
    match v {
        Val::Int(i) => Some(i),
        Val::Float(b) => Some(word_signed(arith(f, FloatOp::ToI64, b, 0))),
        Val::Date(d) => Some(d as i64),
        Val::Null => None,
        Val::Str(s) => read_i64(s),
    }
}

/// A value as a word, by its size.
pub open spec fn as_word<F: Fn(FloatOp, u64, u64) -> u64>(f: F, v: Val) -> Option<u64> {
    match v {
        Val::Int(i) => Some(signed_word(i)),
        Val::Float(b) => Some(arith(f, FloatOp::ToU64, b, 0)),
        Val::Date(d) => Some(signed_word(d as i64)),
        _ => None,
    }
}

/// The low half of the word of a day.
pub open spec fn date_half(d: i32) -> u64 {
    if d >= 0 {
        d as u64
    } else {
        (d + 0x1_0000_0000) as u64
    }
}

/// The day in the low half of a word.
pub open spec fn half_date(w: u64) -> i32 {
    let low = w % 0x1_0000_0000;
    if low <= i32::MAX {
        low as i32
    } else {
        (low - 0x1_0000_0000) as i32
    }
}

/// The cell that stores a value.
pub open spec fn to_cell(v: Val) -> u64 {
    match v {
        Val::Int(i) => signed_word(i),
        Val::Float(b) => b,
        Val::Date(d) => date_half(d),
        Val::Null => 0,
        Val::Str(s) => text_hash(s),
    }
}

/// Whether a value counts as true.
pub open spec fn is_true(v: Val) -> bool {
    match v {
        Val::Int(i) => i != 0,
        Val::Float(b) => !float_eq(b, 0),
        _ => false,
    }
}

/// A truth value as an integer.
pub open spec fn truth(b: bool) -> Val {
    Val::Int(if b {
        1
    } else {
        0
    })
}

/// Text `a` comes before text `b`.
pub open spec fn text_lt(a: Seq<char>, b: Seq<char>) -> bool
    decreases a.len(),
{
    if b.len() == 0 {
        false
    } else if a.len() == 0 {
        true
    } else {
        (a[0] as u32) < (b[0] as u32) || (a[0] == b[0] && text_lt(a.skip(1), b.skip(1)))
    }
}

/// Doubles of two values, compared; false where one has none.
pub open spec fn doubles_eq(x: Option<u64>, y: Option<u64>) -> bool {
    x is Some && y is Some && float_eq(x->0, y->0)
}

pub open spec fn doubles_lt(x: Option<u64>, y: Option<u64>) -> bool {
    x is Some && y is Some && float_lt(x->0, y->0)
}

/// Whether two values are equal. Nothing equals the null value. A text and an
/// integer are equal if the integer is the hash of the text.
pub open spec fn vals_eq<F: Fn(FloatOp, u64, u64) -> u64, P: Fn(&str) -> Option<u64>>(f: F, p: P, a: Val, b: Val) -> bool {
    match (a, b) {
        (Val::Null, _) => false,
        (_, Val::Null) => false,
        (Val::Str(x), Val::Str(y)) => x == y,
        (Val::Int(i), Val::Str(s)) => signed_word(i) == text_hash(s),
        (Val::Str(s), Val::Int(i)) => text_hash(s) == signed_word(i),
        _ => doubles_eq(as_double(f, p, a), as_double(f, p, b)),
    }
}

/// Whether one value is less than another.
pub open spec fn vals_lt<F: Fn(FloatOp, u64, u64) -> u64, P: Fn(&str) -> Option<u64>>(f: F, p: P, a: Val, b: Val) -> bool {
    match (a, b) {
        (Val::Null, _) => false,
        (_, Val::Null) => false,
        (Val::Str(x), Val::Str(y)) => text_lt(x, y),
        _ => doubles_lt(as_double(f, p, a), as_double(f, p, b)),
    }
}

pub open spec fn vals_le<F: Fn(FloatOp, u64, u64) -> u64, P: Fn(&str) -> Option<u64>>(f: F, p: P, a: Val, b: Val) -> bool {
    vals_lt(f, p, a, b) || vals_eq(f, p, a, b)
}

/// Arithmetic on two values: on integers where both are integers and nothing is
/// divided, else on doubles. Division by zero gives the null value.
pub open spec fn vals_arith<F: Fn(FloatOp, u64, u64) -> u64, P: Fn(&str) -> Option<u64>>(
    f: F,
    p: P,
    op: BinOp2,
    l: Val,
    r: Val,
) -> Val {
    let x = as_double(f, p, l);
    let y = as_double(f, p, r);
    if x is None || y is None {
        Val::Null
    } else if op == BinOp2::Div {
        if float_eq(y->0, 0) {
            Val::Null
        } else {
            Val::Float(arith(f, FloatOp::Div, x->0, y->0))
        }
    } else if l is Int && r is Int {
        let i = l->Int_0;
        let j = r->Int_0;
        Val::Int(
            match op {
                BinOp2::Add => i.wrapping_add(j),
                BinOp2::Sub => i.wrapping_sub(j),
                _ => i.wrapping_mul(j),
            },
        )
    } else {
        Val::Float(
            match op {
                BinOp2::Add => arith(f, FloatOp::Add, x->0, y->0),
                BinOp2::Sub => arith(f, FloatOp::Sub, x->0, y->0),
                _ => arith(f, FloatOp::Mul, x->0, y->0),
            },
        )
    }
}

/// A binary operation on two values.
pub open spec fn combined<F: Fn(FloatOp, u64, u64) -> u64, P: Fn(&str) -> Option<u64>>(
    f: F,
    p: P,
    op: BinOp2,
    l: Val,
    r: Val,
) -> Val {
    match op {
        BinOp2::Add => vals_arith(f, p, op, l, r),
        BinOp2::Sub => vals_arith(f, p, op, l, r),
        BinOp2::Mul => vals_arith(f, p, op, l, r),
        BinOp2::Div => vals_arith(f, p, op, l, r),
        BinOp2::Eq => truth(vals_eq(f, p, l, r)),
        BinOp2::Ne => truth(!vals_eq(f, p, l, r)),
        BinOp2::Lt => truth(vals_lt(f, p, l, r)),
        BinOp2::Gt => truth(vals_lt(f, p, r, l)),
        BinOp2::Le => truth(vals_le(f, p, l, r)),
        BinOp2::Ge => truth(vals_le(f, p, r, l)),
        BinOp2::And => truth(is_true(l) && is_true(r)),
        BinOp2::Or => truth(is_true(l) || is_true(r)),
    }
}

/// A signed integer negated; the least one stays.
pub open spec fn negated_int(i: i64) -> i64 {
    if i == i64::MIN {
        i
    } else {
        (-i) as i64
    }
}

/// The day in the low half of a word.
pub fn date_of_half(w: u64) -> (d: i32)
    ensures
        d == half_date(w),
{
    let low: u64 = w % 0x1_0000_0000;
    if low <= 0x7FFF_FFFF {
        low as i32
    } else {
        ((low as i64) - 0x1_0000_0000) as i32
    }
}

/// Whether text `a` comes before text `b`.
pub fn text_less(a: &str, b: &str) -> (r: bool)
    ensures
        r == text_lt(a@, b@),
{
    let x: Vec<char> = chars_of(a);
    let y: Vec<char> = chars_of(b);
    let mut i: usize = 0;
    proof {
        assert(x@.skip(0) =~= x@);
        assert(y@.skip(0) =~= y@);
    }
    while i < x.len() && i < y.len() && x[i] == y[i]
        invariant
            i <= x.len(),
            i <= y.len(),
            text_lt(x@, y@) == text_lt(x@.skip(i as int), y@.skip(i as int)),
        decreases x.len() - i,
    {
        proof {
            assert(x@.skip(i as int).skip(1) =~= x@.skip(i + 1));
            assert(y@.skip(i as int).skip(1) =~= y@.skip(i + 1));
        }
        i = i + 1;
    }
    if i < y.len() {
        if i < x.len() {
            (x[i] as u32) < (y[i] as u32)
        } else {
            true
        }
    } else {
        false
    }
}

pub fn negate_int(i: i64) -> (r: i64)
    ensures
        r == negated_int(i),
{
    if i == i64::MIN {
        i
    } else {
        -i
    }
}

impl Value2 {
    /// The value as a double, as a bit pattern.
    pub fn as_f64<F: Fn(FloatOp, u64, u64) -> u64, P: Fn(&str) -> Option<u64>>(&self, fpu: &F, reader: &P) -> (r: Option<u64>)
        requires
            is_arith(*fpu),
            is_reader(*reader),
        ensures
            r == as_double(*fpu, *reader, self@),
    {
        match self {
            Value2::Int(i) => Some(fpu(FloatOp::FromI64, word_of(*i), 0)),
            Value2::Float(b) => Some(*b),
            Value2::Date(d) => Some(fpu(FloatOp::FromI64, word_of(*d as i64), 0)),
            Value2::Null => None,
            Value2::Str(s) => reader(s.as_str()),
        }
    }

    pub fn as_i64<F: Fn(FloatOp, u64, u64) -> u64>(&self, fpu: &F) -> (r: Option<i64>)
        requires
            is_arith(*fpu),
        ensures
            r == as_int(*fpu, self@),
    {
        match self {
            Value2::Int(i) => Some(*i),
            Value2::Float(b) => Some(signed_of(fpu(FloatOp::ToI64, *b, 0))),
            Value2::Date(d) => Some(*d as i64),
            Value2::Null => None,
            Value2::Str(s) => parse_i64(&chars_of(s.as_str())),
        }
    }

    pub fn as_str(&self) -> (r: Option<&str>)
        ensures
            match r {
                Some(s) => self@ == Val::Str(s@),
                None => !(self@ is Str),
            },
    {
        match self {
            Value2::Str(s) => Some(s.as_str()),
            _ => None,
        }
    }

    pub fn as_u64<F: Fn(FloatOp, u64, u64) -> u64>(&self, fpu: &F) -> (r: Option<u64>)
        requires
            is_arith(*fpu),
        ensures
            r == as_word(*fpu, self@),
    {
        match self {
            Value2::Int(i) => Some(word_of(*i)),
            Value2::Float(b) => Some(fpu(FloatOp::ToU64, *b, 0)),
            Value2::Date(d) => Some(word_of(*d as i64)),
            _ => None,
        }
    }

    /// The cell that stores the value.
    pub fn to_u64(&self) -> (c: u64)
        ensures
            c == to_cell(self@),
    {
        match self {
            Value2::Int(i) => word_of(*i),
            Value2::Float(b) => *b,
            Value2::Date(d) => if *d >= 0 {
                *d as u64
            } else {
                (*d as i64 + 0x1_0000_0000) as u64
            },
            Value2::Null => 0,
            Value2::Str(s) => hash_text(s.as_str()),
        }
    }

    /// Whether the value counts as true.
    pub fn truthy(&self) -> (b: bool)
        ensures
            b == is_true(self@),
    {
        match self {
            Value2::Int(i) => *i != 0,
            Value2::Float(b) => !same(*b, 0),
            _ => false,
        }
    }
}

/// A truth value as an integer.
pub fn truth_value(b: bool) -> (v: Value2)
    ensures
        v@ == truth(b),
{
    Value2::Int(
        if b {
            1
        } else {
            0
        },
    )
}

pub fn equal_values<F: Fn(FloatOp, u64, u64) -> u64, P: Fn(&str) -> Option<u64>>(a: &Value2, b: &Value2, fpu: &F, reader: &P) -> (r: bool)
    requires
        is_arith(*fpu),
        is_reader(*reader),
    ensures
        r == vals_eq(*fpu, *reader, a@, b@),
{
    match (a, b) {
        (Value2::Null, _) => false,
        (_, Value2::Null) => false,
        (Value2::Str(x), Value2::Str(y)) => same_text(x.as_str(), y.as_str()),
        (Value2::Int(i), Value2::Str(s)) => word_of(*i) == hash_text(s.as_str()),
        (Value2::Str(s), Value2::Int(i)) => hash_text(s.as_str()) == word_of(*i),
        _ => {
            let x: Option<u64> = a.as_f64(fpu, reader);
            let y: Option<u64> = b.as_f64(fpu, reader);
            match (x, y) {
                (Some(u), Some(v)) => same(u, v),
                _ => false,
            }
        },
    }
}

pub fn value_less<F: Fn(FloatOp, u64, u64) -> u64, P: Fn(&str) -> Option<u64>>(a: &Value2, b: &Value2, fpu: &F, reader: &P) -> (r: bool)
    requires
        is_arith(*fpu),
        is_reader(*reader),
    ensures
        r == vals_lt(*fpu, *reader, a@, b@),
{
    match (a, b) {
        (Value2::Null, _) => false,
        (_, Value2::Null) => false,
        (Value2::Str(x), Value2::Str(y)) => text_less(x.as_str(), y.as_str()),
        _ => {
            let x: Option<u64> = a.as_f64(fpu, reader);
            let y: Option<u64> = b.as_f64(fpu, reader);
            match (x, y) {
                (Some(u), Some(v)) => less(u, v),
                _ => false,
            }
        },
    }
}

pub fn value_at_most<F: Fn(FloatOp, u64, u64) -> u64, P: Fn(&str) -> Option<u64>>(a: &Value2, b: &Value2, fpu: &F, reader: &P) -> (r: bool)
    requires
        is_arith(*fpu),
        is_reader(*reader),
    ensures
        r == vals_le(*fpu, *reader, a@, b@),
{
    value_less(a, b, fpu, reader) || equal_values(a, b, fpu, reader)
}

fn arith_values<F: Fn(FloatOp, u64, u64) -> u64, P: Fn(&str) -> Option<u64>>(
    op: BinOp2,
    l: &Value2,
    r: &Value2,
    fpu: &F,
    reader: &P,
) -> (v: Value2)
    requires
        is_arith(*fpu),
        is_reader(*reader),
    ensures
        v@ == vals_arith(*fpu, *reader, op, l@, r@),
{
    let x: u64 = match l.as_f64(fpu, reader) {
        Some(x) => x,
        None => {
            return Value2::Null;
        },
    };
    let y: u64 = match r.as_f64(fpu, reader) {
        Some(y) => y,
        None => {
            return Value2::Null;
        },
    };
    if op == BinOp2::Div {
        if same(y, 0) {
            return Value2::Null;
        }
        return Value2::Float(fpu(FloatOp::Div, x, y));
    }
    match (l, r) {
        (Value2::Int(i), Value2::Int(j)) => {
            let k: i64 = match op {
                BinOp2::Add => (*i).wrapping_add(*j),
                BinOp2::Sub => (*i).wrapping_sub(*j),
                _ => (*i).wrapping_mul(*j),
            };
            Value2::Int(k)
        },
        _ => {
            let b: u64 = match op {
                BinOp2::Add => fpu(FloatOp::Add, x, y),
                BinOp2::Sub => fpu(FloatOp::Sub, x, y),
                _ => fpu(FloatOp::Mul, x, y),
            };
            Value2::Float(b)
        },
    }
}

/// Carries out a binary operation.
pub fn binop<F: Fn(FloatOp, u64, u64) -> u64, P: Fn(&str) -> Option<u64>>(
    op: BinOp2,
    l: &Value2,
    r: &Value2,
    fpu: &F,
    reader: &P,
) -> (v: Value2)
    requires
        is_arith(*fpu),
        is_reader(*reader),
    ensures
        v@ == combined(*fpu, *reader, op, l@, r@),
{
    match op {
        BinOp2::Add | BinOp2::Sub | BinOp2::Mul | BinOp2::Div => arith_values(op, l, r, fpu, reader),
        BinOp2::Eq => truth_value(equal_values(l, r, fpu, reader)),
        BinOp2::Ne => truth_value(!equal_values(l, r, fpu, reader)),
        BinOp2::Lt => truth_value(value_less(l, r, fpu, reader)),
        BinOp2::Gt => truth_value(value_less(r, l, fpu, reader)),
        BinOp2::Le => truth_value(value_at_most(l, r, fpu, reader)),
        BinOp2::Ge => truth_value(value_at_most(r, l, fpu, reader)),
        BinOp2::And => truth_value(l.truthy() && r.truthy()),
        BinOp2::Or => truth_value(l.truthy() || r.truthy()),
    }
}

/// Exchanging the sides of a comparison along with its operator changes nothing.
pub proof fn swapped_comparison_agrees<F: Fn(FloatOp, u64, u64) -> u64, P: Fn(&str) -> Option<u64>>(
    f: F,
    p: P,
    op: BinOp2,
    l: Val,
    r: Val,
)
    requires
        op == BinOp2::Lt || op == BinOp2::Le || op == BinOp2::Gt || op == BinOp2::Ge || op == BinOp2::Eq || op
            == BinOp2::Ne,
    ensures
        combined(f, p, op, l, r) == combined(f, p, crate::sql::ast::swapped(op), r, l),
{
    assert(vals_eq(f, p, l, r) == vals_eq(f, p, r, l));
}

/// Comparisons with the null value are never true, save for not being equal.
pub proof fn null_compares_as_unequal<F: Fn(FloatOp, u64, u64) -> u64, P: Fn(&str) -> Option<u64>>(f: F, p: P, v: Val)
    ensures
        !vals_eq(f, p, Val::Null, v),
        !vals_lt(f, p, Val::Null, v),
        !vals_le(f, p, v, Val::Null),
        is_true(combined(f, p, BinOp2::Ne, v, Val::Null)),
{
}

} // verus!
