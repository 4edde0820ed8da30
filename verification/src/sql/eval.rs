//! Expressions evaluated on a row of a table.

use crate::dates::{day_and_month, day_of_month, days_since_epoch_to_year, month_of, year_is_unique, year_of};
use crate::error::{Error, Fail};
use crate::float_bits::{arith, float_neg, is_arith, is_reader, negate, FloatOp};
use crate::hashing::{hash_text, text_hash};
use crate::sql::ast::Expr2;
use crate::sql::exec_table::{ExecTable, Held};
use crate::sql::like::{like, like_bytes};
use crate::sql::value::{
    as_int, binop, equal_values, value_at_most, combined, date_of_half, half_date, is_true, negate_int, negated_int, truth,
    truth_value, vals_eq, vals_le, Val, Value2,
};
use crate::text::{append_text, chars_of, lowercase, same_text, slice_chars, string_of, to_lowercase};
use crate::word::{signed_of, signed_word, word_of, word_signed};
use vstd::prelude::*;
use vstd::utf8::encode_utf8;

verus! {

/// Values of expressions that hold a query, by what the table holds and the row.
pub type Nest = spec_fn(Expr2, Held, usize) -> Result<Val, Fail>;

/// What evaluation needs beside the expression: arithmetic on doubles, reading of
/// doubles, values of expressions that hold a query, and the row of the query
/// round this one, if there is one.
pub struct Ctx<'a, F, P, S> {
    pub fpu: &'a F,
    pub reader: &'a P,
    pub sub: &'a S,
    pub outer: Option<(&'a ExecTable, usize)>,
    /// The values that `sub` gives.
    pub nest: Ghost<Nest>,
}

/// What the value of an expression depends on beside the row.
pub struct Env<F, P> {
    pub fpu: F,
    pub reader: P,
    pub nest: Nest,
    pub outer: Option<(Held, usize)>,
}

/// What a row of a query round another one holds.
pub open spec fn outer_held(outer: Option<(&ExecTable, usize)>) -> Option<(Held, usize)> {
    match outer {
        Some((t, row)) => Some((t@, row)),
        None => None,
    }
}

impl<'a, F, P, S> View for Ctx<'a, F, P, S> {
    type V = Env<F, P>;

    open spec fn view(&self) -> Env<F, P> {
        Env { fpu: *self.fpu, reader: *self.reader, nest: self.nest@, outer: outer_held(self.outer) }
    }
}

/// What an evaluation came to.
pub open spec fn outcome(r: Result<Value2, Error>) -> Result<Val, Fail> {
    match r {
        Ok(v) => Ok(v@),
        Err(e) => Err(e@),
    }
}

/// The caller's `s` may come to `o` for an expression on a row of a table that
/// holds `h`.
pub open spec fn may_answer<S: Fn(&Expr2, &ExecTable, usize) -> Result<Value2, Error>>(
    s: S,
    e: Expr2,
    h: Held,
    row: usize,
    o: Result<Val, Fail>,
) -> bool {
    exists|t: &ExecTable, r: Result<Value2, Error>|
        t@ == h && outcome(r) == o && #[trigger] call_ensures(s, (&e, t, row), r)
}

/// The value of an expression that holds a query, as the caller gives it for a
/// table that holds `h`.
pub open spec fn sub_value<S: Fn(&Expr2, &ExecTable, usize) -> Result<Value2, Error>>(
    s: S,
    e: Expr2,
    h: Held,
    row: usize,
) -> Result<Val, Fail> {
    choose|o: Result<Val, Fail>| may_answer(s, e, h, row, o)
}

/// The values that the caller's `s` gives.
pub open spec fn subs<S: Fn(&Expr2, &ExecTable, usize) -> Result<Value2, Error>>(s: S) -> Nest {
    |e: Expr2, h: Held, row: usize| sub_value(s, e, h, row)
}

/// `s` gives a value for every expression that holds a query: the one that `nest`
/// tells.
pub open spec fn gives<S: Fn(&Expr2, &ExecTable, usize) -> Result<Value2, Error>>(s: S, nest: Nest) -> bool {
    &&& forall|e: &Expr2, t: &ExecTable, row: usize| t.wf() ==> #[trigger] call_requires(s, (e, t, row))
    &&& forall|e: &Expr2, t: &ExecTable, row: usize, r: Result<Value2, Error>|
        #[trigger] call_ensures(s, (e, t, row), r) ==> outcome(r) == nest(*e, t@, row)
}

pub open spec fn ctx_ok<
    F: Fn(FloatOp, u64, u64) -> u64,
    P: Fn(&str) -> Option<u64>,
    S: Fn(&Expr2, &ExecTable, usize) -> Result<Value2, Error>,
>(c: Ctx<'_, F, P, S>) -> bool {
    &&& is_arith(*c.fpu)
    &&& is_reader(*c.reader)
    &&& gives(*c.sub, c.nest@)
    &&& c.outer matches Some((t, _)) ==> t.wf()
}

impl<
    'a,
    F: Fn(FloatOp, u64, u64) -> u64,
    P: Fn(&str) -> Option<u64>,
    S: Fn(&Expr2, &ExecTable, usize) -> Result<Value2, Error>,
> Ctx<'a, F, P, S> {
    /// What a caller gives who has values for expressions that hold a query.
    pub fn new(fpu: &'a F, reader: &'a P, sub: &'a S, outer: Option<(&'a ExecTable, usize)>) -> (c: Self)
        requires
            is_arith(*fpu),
            is_reader(*reader),
            gives(*sub, subs(*sub)),
            outer matches Some((t, _)) ==> t.wf(),
        ensures
            ctx_ok(c),
            c@ == (Env { fpu: *fpu, reader: *reader, nest: subs(*sub), outer: outer_held(outer) }),
    {
        Ctx { fpu, reader, sub, outer, nest: Ghost(subs(*sub)) }
    }
}

/// The message on a column that is missing.
pub open spec fn no_column(name: Seq<char>) -> Seq<char> {
    "column '"@ + name + "'"@
}

pub fn missing_column(name: &str) -> (e: Error)
    ensures
        e@ == Fail::NotFound(no_column(name@)),
{
    let mut text: Vec<char> = Vec::new();
    append_text(&mut text, "column '");
    append_text(&mut text, name);
    append_text(&mut text, "'");
    proof {
        assert(text@ =~= no_column(name@));
    }
    Error::NotFound(string_of(&text))
}

/// Whether a pattern has a wildcard.
pub open spec fn has_wildcard(p: Seq<char>) -> bool {
    p.contains('%') || p.contains('_')
}

/// Whether a value fits a pattern. The hash of a text fits only that text.
pub open spec fn like_vals(v: Val, p: Val) -> bool {
    match (v, p) {
        (Val::Str(s), Val::Str(q)) => like_bytes(encode_utf8(s), encode_utf8(q)),
        (Val::Int(h), Val::Str(q)) => !has_wildcard(q) && signed_word(h) == text_hash(q),
        _ => false,
    }
}

pub open spec fn clamped_day(i: i64) -> i32 {
    if i < i32::MIN {
        i32::MIN
    } else if i > i32::MAX {
        i32::MAX
    } else {
        i as i32
    }
}

/// The day that a value stands for.
pub open spec fn day_of<F: Fn(FloatOp, u64, u64) -> u64>(f: F, v: Val) -> Option<i32> {
    match v {
        Val::Date(d) => Some(d),
        Val::Int(i) => Some(half_date(signed_word(i))),
        Val::Float(b) => Some(clamped_day(word_signed(arith(f, FloatOp::ToI64, b, 0)))),
        _ => None,
    }
}

/// A part of a date: the month or the day by those names, else the year.
pub open spec fn part_of_date<F: Fn(FloatOp, u64, u64) -> u64>(f: F, field: Seq<char>, v: Val) -> Val {
    match day_of(f, v) {
        Some(d) => Val::Int(
            if lowercase(field) == "month"@ {
                month_of(d as int) as i64
            } else if lowercase(field) == "day"@ {
                day_of_month(d as int) as i64
            } else {
                year_of(d as int) as i64
            },
        ),
        None => Val::Null,
    }
}

/// Bytes that a character takes.
pub open spec fn char_width(c: char) -> int {
    let n = c as u32;
    if n < 0x80 {
        1
    } else if n < 0x800 {
        2
    } else if n < 0x1_0000 {
        3
    } else {
        4
    }
}

/// Bytes that the first `n` characters take.
pub open spec fn width(s: Seq<char>, n: int) -> int
    decreases n,
{
    if n <= 0 {
        0
    } else {
        width(s, n - 1) + char_width(s[n - 1])
    }
}

/// The character that begins at a byte; the end counts as one. Nothing where
/// the byte is inside a character.
pub open spec fn char_at_byte(s: Seq<char>, b: int, i: int) -> Option<int>
    decreases s.len() - i,
{
    if width(s, i) == b {
        Some(i)
    } else if i >= s.len() {
        None
    } else {
        char_at_byte(s, b, i + 1)
    }
}

pub open spec fn smaller(a: int, b: int) -> int {
    if a < b {
        a
    } else {
        b
    }
}

/// Part of a text: from a byte, counted from one on, as many bytes as asked for
/// and there. A negative length has no end. Nothing where the part does not
/// begin and end between characters.
pub open spec fn part_of_text(s: Seq<char>, start: i64, len: i64) -> Option<Seq<char>> {
    let from = if start < 1 {
        0
    } else {
        start - 1
    };
    let all = width(s, s.len() as int);
    if from >= all {
        Some(Seq::empty())
    } else if len < 0 && from > 0 {
        None
    } else {
        let to = if len < 0 {
            all
        } else {
            smaller(from + len, all)
        };
        match (char_at_byte(s, from as int, 0), char_at_byte(s, to, 0)) {
            (Some(a), Some(b)) => Some(s.subrange(a, b)),
            _ => None,
        }
    }
}

pub open spec fn or_else(x: Option<i64>, d: i64) -> i64 {
    match x {
        Some(i) => i,
        None => d,
    }
}

pub open spec fn substring<F: Fn(FloatOp, u64, u64) -> u64>(f: F, s: Val, start: Val, len: Val) -> Result<Val, Fail> {
    match s {
        Val::Str(text) => match part_of_text(text, or_else(as_int(f, start), 1), or_else(as_int(f, len), 0)) {
            Some(part) => Ok(Val::Str(part)),
            None => Err(Fail::Other("substring bounds"@)),
        },
        _ => Ok(Val::Null),
    }
}

pub open spec fn flipped(b: bool, negate: bool) -> Val {
    truth(if negate {
        !b
    } else {
        b
    })
}

/// The value of an expression on a row, or the error that comes instead.
pub open spec fn value_of<
    F: Fn(FloatOp, u64, u64) -> u64,
    P: Fn(&str) -> Option<u64>,
>(c: Env<F, P>, e: Expr2, t: Held, row: usize) -> Result<Val, Fail>
    decreases e, 0int,
{
    match e {
        Expr2::Col(name) => match t.named_value(name@, row as int) {
            Some(v) => Ok(v),
            None => match c.outer {
                Some((u, r)) => match u.named_value(name@, r as int) {
                    Some(v) => Ok(v),
                    None => Err(Fail::NotFound(no_column(name@))),
                },
                None => Err(Fail::NotFound(no_column(name@))),
            },
        },
        Expr2::Int(i) => Ok(Val::Int(i)),
        Expr2::Float(b) => Ok(Val::Float(b)),
        Expr2::Str(s) => Ok(Val::Str(s@)),
        Expr2::Date(d) => Ok(Val::Date(d)),
        Expr2::Neg(x) => match value_of(c, *x, t, row) {
            Ok(Val::Int(i)) => Ok(Val::Int(negated_int(i))),
            Ok(Val::Float(b)) => Ok(Val::Float(float_neg(b))),
            Ok(_) => Ok(Val::Null),
            Err(f) => Err(f),
        },
        Expr2::Not(x) => match value_of(c, *x, t, row) {
            Ok(v) => Ok(truth(!is_true(v))),
            Err(f) => Err(f),
        },
        Expr2::BinOp { op, left, right } => match value_of(c, *left, t, row) {
            Ok(l) => match value_of(c, *right, t, row) {
                Ok(r) => Ok(combined(c.fpu, c.reader, op, l, r)),
                Err(f) => Err(f),
            },
            Err(f) => Err(f),
        },
        Expr2::Like { expr, pattern, negated } => match value_of(c, *expr, t, row) {
            Ok(v) => match value_of(c, *pattern, t, row) {
                Ok(p) => Ok(flipped(like_vals(v, p), negated)),
                Err(f) => Err(f),
            },
            Err(f) => Err(f),
        },
        Expr2::Between { expr, low, high, negated } => match value_of(c, *expr, t, row) {
            Ok(v) => match value_of(c, *low, t, row) {
                Ok(lo) => match value_of(c, *high, t, row) {
                    Ok(hi) => Ok(
                        flipped(
                            vals_le(c.fpu, c.reader, lo, v) && vals_le(c.fpu, c.reader, v, hi),
                            negated,
                        ),
                    ),
                    Err(f) => Err(f),
                },
                Err(f) => Err(f),
            },
            Err(f) => Err(f),
        },
        Expr2::InList { expr, list, negated } => match value_of(c, *expr, t, row) {
            Ok(v) => match in_list(c, v, list, 0, t, row) {
                Ok(b) => Ok(flipped(b, negated)),
                Err(f) => Err(f),
            },
            Err(f) => Err(f),
        },
        Expr2::Case { whens, else_ } => match chosen(c, whens, 0, t, row) {
            Ok(Some(v)) => Ok(v),
            Ok(None) => match else_ {
                Some(x) => value_of(c, *x, t, row),
                None => Ok(Val::Null),
            },
            Err(f) => Err(f),
        },
        Expr2::Extract { field, expr } => match value_of(c, *expr, t, row) {
            Ok(v) => Ok(part_of_date(c.fpu, field@, v)),
            Err(f) => Err(f),
        },
        Expr2::Substr { expr, start, len } => match value_of(c, *expr, t, row) {
            Ok(s) => match value_of(c, *start, t, row) {
                Ok(st) => match value_of(c, *len, t, row) {
                    Ok(ln) => substring(c.fpu, s, st, ln),
                    Err(f) => Err(f),
                },
                Err(f) => Err(f),
            },
            Err(f) => Err(f),
        },
        Expr2::Subquery(_) => (c.nest)(e, t, row),
        Expr2::Exists { query, negated } => (c.nest)(e, t, row),
        Expr2::InSubquery { expr, query, negated } => (c.nest)(e, t, row),
        Expr2::Agg { func, arg, distinct } => Err(Fail::Other("aggregate in non-agg context"@)),
        Expr2::CountStar => Err(Fail::Other("aggregate in non-agg context"@)),
    }
}

/// Whether a value equals one of a list, from place `k` on. Items behind the
/// first equal one are not looked at.
pub open spec fn in_list<
    F: Fn(FloatOp, u64, u64) -> u64,
    P: Fn(&str) -> Option<u64>,
>(c: Env<F, P>, v: Val, list: Vec<Expr2>, k: nat, t: Held, row: usize) -> Result<bool, Fail>
    decreases list, list@.len() - k,
{
    if k >= list@.len() {
        Ok(false)
    } else {
        match value_of(c, list@[k as int], t, row) {
            Ok(x) => if vals_eq(c.fpu, c.reader, v, x) {
                Ok(true)
            } else {
                in_list(c, v, list, k + 1, t, row)
            },
            Err(f) => Err(f),
        }
    }
}

/// The result of the first branch, from place `k` on, whose condition is true.
pub open spec fn chosen<
    F: Fn(FloatOp, u64, u64) -> u64,
    P: Fn(&str) -> Option<u64>,
>(c: Env<F, P>, whens: Vec<(Expr2, Expr2)>, k: nat, t: Held, row: usize) -> Result<Option<Val>, Fail>
    decreases whens, whens@.len() - k,
{
    if k >= whens@.len() {
        Ok(None)
    } else {
        match value_of(c, whens@[k as int].0, t, row) {
            Ok(x) => if is_true(x) {
                match value_of(c, whens@[k as int].1, t, row) {
                    Ok(v) => Ok(Some(v)),
                    Err(f) => Err(f),
                }
            } else {
                chosen(c, whens, k + 1, t, row)
            },
            Err(f) => Err(f),
        }
    }
}

/// Whether a text has a wildcard.
fn any_wildcard(p: &str) -> (b: bool)
    ensures
        b == has_wildcard(p@),
{
    let v: Vec<char> = chars_of(p);
    let mut i: usize = 0;
    while i < v.len()
        invariant
            i <= v.len(),
            v@ == p@,
            forall|k: int| 0 <= k < i ==> #[trigger] v@[k] != '%' && v@[k] != '_',
        decreases v.len() - i,
    {
        if v[i] == '%' || v[i] == '_' {
            proof {
                assert(p@[i as int] == v@[i as int]);
            }
            return true;
        }
        i = i + 1;
    }
    false
}

pub fn like_value(v: &Value2, p: &Value2) -> (b: bool)
    ensures
        b == like_vals(v@, p@),
{
    match (v, p) {
        (Value2::Str(s), Value2::Str(q)) => like(s.as_str().as_bytes(), q.as_str().as_bytes()),
        (Value2::Int(h), Value2::Str(q)) => !any_wildcard(q.as_str()) && word_of(*h) == hash_text(q.as_str()),
        _ => false,
    }
}

/// A part of a date.
pub fn extract<F: Fn(FloatOp, u64, u64) -> u64>(fpu: &F, field: &str, v: &Value2) -> (r: Value2)
    requires
        is_arith(*fpu),
    ensures
        r@ == part_of_date(*fpu, field@, v@),
{
    let d: i32 = match v {
        Value2::Date(d) => *d,
        Value2::Int(i) => date_of_half(word_of(*i)),
        Value2::Float(b) => {
            let i: i64 = signed_of(fpu(FloatOp::ToI64, *b, 0));
            if i < -0x8000_0000 {
                i32::MIN
            } else if i > 0x7FFF_FFFF {
                i32::MAX
            } else {
                i as i32
            }
        },
        _ => {
            return Value2::Null;
        },
    };
    let lower: String = to_lowercase(field);
    if same_text(lower.as_str(), "month") {
        let (m, _) = day_and_month(d);
        Value2::Int(m)
    } else if same_text(lower.as_str(), "day") {
        let (_, n) = day_and_month(d);
        Value2::Int(n)
    } else {
        let y: i64 = days_since_epoch_to_year(d as i64);
        proof {
            year_is_unique(d as int, y as int, year_of(d as int));
        }
        Value2::Int(y)
    }
}

fn width_of(c: char) -> (n: usize)
    ensures
        n == char_width(c),
{
    let n: u32 = c as u32;
    if n < 0x80 {
        1
    } else if n < 0x800 {
        2
    } else if n < 0x1_0000 {
        3
    } else {
        4
    }
}

proof fn lemma_width_grows(s: Seq<char>, i: int, j: int)
    requires
        0 <= i <= j,
    ensures
        width(s, i) + (j - i) <= width(s, j),
    decreases j - i,
{
    if i < j {
        lemma_width_grows(s, i, j - 1);
    }
}

/// Past its place a byte begins no character.
proof fn lemma_past_byte(s: Seq<char>, b: int, i: int)
    requires
        0 <= i <= s.len(),
        width(s, i) > b,
    ensures
        char_at_byte(s, b, i) is None,
    decreases s.len() - i,
{
    if i < s.len() {
        lemma_width_grows(s, i, i + 1);
        lemma_past_byte(s, b, i + 1);
    }
}

/// The character that begins at a byte.
fn find_char(v: &Vec<char>, b: u128) -> (r: Option<usize>)
    ensures
        match r {
            Some(i) => i <= v@.len() && char_at_byte(v@, b as int, 0) == Some(i as int),
            None => char_at_byte(v@, b as int, 0) is None,
        },
{
    let mut i: usize = 0;
    let mut at: u128 = 0;
    while i < v.len() && at < b
        invariant
            i <= v@.len(),
            at == width(v@, i as int),
            at <= 4 * i,
            char_at_byte(v@, b as int, 0) == char_at_byte(v@, b as int, i as int),
        decreases v.len() - i,
    {
        at = at + width_of(v[i]) as u128;
        i = i + 1;
    }
    if at == b {
        Some(i)
    } else {
        proof {
            if at > b {
                lemma_past_byte(v@, b as int, i as int);
            }
        }
        None
    }
}

/// Bytes that all characters take.
fn full_width(v: &Vec<char>) -> (n: u128)
    ensures
        n == width(v@, v@.len() as int),
        n <= 4 * v@.len(),
{
    let mut i: usize = 0;
    let mut at: u128 = 0;
    while i < v.len()
        invariant
            i <= v@.len(),
            at == width(v@, i as int),
            at <= 4 * i,
        decreases v.len() - i,
    {
        at = at + width_of(v[i]) as u128;
        i = i + 1;
    }
    at
}

/// Part of a text, by bytes.
fn cut_text(s: &str, start: i64, len: i64) -> (r: Option<String>)
    ensures
        match r {
            Some(x) => part_of_text(s@, start, len) == Some(x@),
            None => part_of_text(s@, start, len) is None,
        },
{
    let v: Vec<char> = chars_of(s);
    let from: u64 = if start < 1 {
        0
    } else {
        (start - 1) as u64
    };
    let all: u128 = full_width(&v);
    if from as u128 >= all {
        let none: Vec<char> = Vec::new();
        return Some(string_of(&none));
    }
    if len < 0 && from > 0 {
        return None;
    }
    let to: u128 = if len < 0 || from as u128 + len as u128 >= all {
        all
    } else {
        from as u128 + len as u128
    };
    let a: Option<usize> = find_char(&v, from as u128);
    let b: Option<usize> = find_char(&v, to);
    match (a, b) {
        (Some(i), Some(j)) => {
            proof {
                lemma_found(v@, from as int, 0);
                lemma_found(v@, to as int, 0);
                if j < i {
                    lemma_width_grows(v@, j as int, i as int);
                }
            }
            let part: Vec<char> = slice_chars(&v, i, j);
            Some(string_of(&part))
        },
        _ => None,
    }
}

proof fn lemma_found(s: Seq<char>, b: int, i: int)
    ensures
        char_at_byte(s, b, i) matches Some(k) ==> width(s, k) == b && i <= k,
    decreases s.len() - i,
{
    if width(s, i) != b && i < s.len() {
        lemma_found(s, b, i + 1);
    }
}

/// Part of a text value.
pub fn substr<F: Fn(FloatOp, u64, u64) -> u64>(fpu: &F, s: &Value2, start: &Value2, len: &Value2) -> (r: Result<
    Value2,
    Error,
>)
    requires
        is_arith(*fpu),
    ensures
        outcome(r) == substring(*fpu, s@, start@, len@),
{
    match s {
        Value2::Str(text) => {
            let st: i64 = match start.as_i64(fpu) {
                Some(i) => i,
                None => 1,
            };
            let ln: i64 = match len.as_i64(fpu) {
                Some(i) => i,
                None => 0,
            };
            match cut_text(text.as_str(), st, ln) {
                Some(part) => Ok(Value2::Str(part)),
                None => Err(Error::Other("substring bounds".to_owned())),
            }
        },
        _ => Ok(Value2::Null),
    }
}

/// Evaluates an expression on a row.
pub fn eval<
    F: Fn(FloatOp, u64, u64) -> u64,
    P: Fn(&str) -> Option<u64>,
    S: Fn(&Expr2, &ExecTable, usize) -> Result<Value2, Error>,
>(c: &Ctx<'_, F, P, S>, e: &Expr2, t: &ExecTable, row: usize) -> (r: Result<Value2, Error>)
    requires
        ctx_ok(*c),
        t.wf(),
    ensures
        outcome(r) == value_of(c@, *e, t@, row),
    decreases *e, 0int,
{
    match e {
        Expr2::Col(name) => match t.get_named(name.as_str(), row) {
            Some(v) => Ok(v),
            None => match c.outer {
                Some((u, r)) => match u.get_named(name.as_str(), r) {
                    Some(v) => Ok(v),
                    None => Err(missing_column(name.as_str())),
                },
                None => Err(missing_column(name.as_str())),
            },
        },
        Expr2::Int(i) => Ok(Value2::Int(*i)),
        Expr2::Float(b) => Ok(Value2::Float(*b)),
        Expr2::Str(s) => Ok(Value2::Str(s.clone())),
        Expr2::Date(d) => Ok(Value2::Date(*d)),
        Expr2::Neg(x) => match eval(c, x, t, row) {
            Ok(v) => match v {
                Value2::Int(i) => Ok(Value2::Int(negate_int(i))),
                Value2::Float(b) => Ok(Value2::Float(negate(b))),
                _ => Ok(Value2::Null),
            },
            Err(f) => Err(f),
        },
        Expr2::Not(x) => match eval(c, x, t, row) {
            Ok(v) => Ok(truth_value(!v.truthy())),
            Err(f) => Err(f),
        },
        Expr2::BinOp { op, left, right } => match eval(c, left, t, row) {
            Ok(l) => match eval(c, right, t, row) {
                Ok(r) => Ok(binop(*op, &l, &r, c.fpu, c.reader)),
                Err(f) => Err(f),
            },
            Err(f) => Err(f),
        },
        Expr2::Like { expr, pattern, negated } => match eval(c, expr, t, row) {
            Ok(v) => match eval(c, pattern, t, row) {
                Ok(p) => Ok(truth_value(like_value(&v, &p) != *negated)),
                Err(f) => Err(f),
            },
            Err(f) => Err(f),
        },
        Expr2::Between { expr, low, high, negated } => match eval(c, expr, t, row) {
            Ok(v) => match eval(c, low, t, row) {
                Ok(lo) => match eval(c, high, t, row) {
                    Ok(hi) => {
                        let inside: bool = value_at_most(&lo, &v, c.fpu, c.reader) && value_at_most(&v, &hi, c.fpu, c.reader);
                        Ok(truth_value(inside != *negated))
                    },
                    Err(f) => Err(f),
                },
                Err(f) => Err(f),
            },
            Err(f) => Err(f),
        },
        Expr2::InList { expr, list, negated } => match eval(c, expr, t, row) {
            Ok(v) => match find_in_list(c, &v, list, t, row) {
                Ok(b) => Ok(truth_value(b != *negated)),
                Err(f) => Err(f),
            },
            Err(f) => Err(f),
        },
        Expr2::Case { whens, else_ } => match choose_branch(c, whens, t, row) {
            Ok(Some(v)) => Ok(v),
            Ok(None) => match else_ {
                Some(x) => eval(c, x, t, row),
                None => Ok(Value2::Null),
            },
            Err(f) => Err(f),
        },
        Expr2::Extract { field, expr } => match eval(c, expr, t, row) {
            Ok(v) => Ok(extract(c.fpu, field.as_str(), &v)),
            Err(f) => Err(f),
        },
        Expr2::Substr { expr, start, len } => match eval(c, expr, t, row) {
            Ok(s) => match eval(c, start, t, row) {
                Ok(st) => match eval(c, len, t, row) {
                    Ok(ln) => substr(c.fpu, &s, &st, &ln),
                    Err(f) => Err(f),
                },
                Err(f) => Err(f),
            },
            Err(f) => Err(f),
        },
        Expr2::Subquery(_) => (c.sub)(e, t, row),
        Expr2::Exists { .. } => (c.sub)(e, t, row),
        Expr2::InSubquery { .. } => (c.sub)(e, t, row),
        Expr2::Agg { .. } => Err(Error::Other("aggregate in non-agg context".to_owned())),
        Expr2::CountStar => Err(Error::Other("aggregate in non-agg context".to_owned())),
    }
}

fn find_in_list<
    F: Fn(FloatOp, u64, u64) -> u64,
    P: Fn(&str) -> Option<u64>,
    S: Fn(&Expr2, &ExecTable, usize) -> Result<Value2, Error>,
>(c: &Ctx<'_, F, P, S>, v: &Value2, list: &Vec<Expr2>, t: &ExecTable, row: usize) -> (r: Result<bool, Error>)
    requires
        ctx_ok(*c),
        t.wf(),
    ensures
        match r {
            Ok(b) => in_list(c@, v@, *list, 0, t@, row) == Ok::<bool, Fail>(b),
            Err(e) => in_list(c@, v@, *list, 0, t@, row) == Err::<bool, Fail>(e@),
        },
    decreases *list, 1int,
{
    let mut k: usize = 0;
    while k < list.len()
        invariant
            ctx_ok(*c),
            t.wf(),
            k <= list@.len(),
            in_list(c@, v@, *list, 0, t@, row) == in_list(c@, v@, *list, k as nat, t@, row),
        decreases list.len() - k,
    {
        match eval(c, &list[k], t, row) {
            Ok(x) => {
                if equal_values(v, &x, c.fpu, c.reader) {
                    return Ok(true);
                }
            },
            Err(f) => {
                return Err(f);
            },
        }
        k = k + 1;
    }
    Ok(false)
}

fn choose_branch<
    F: Fn(FloatOp, u64, u64) -> u64,
    P: Fn(&str) -> Option<u64>,
    S: Fn(&Expr2, &ExecTable, usize) -> Result<Value2, Error>,
>(c: &Ctx<'_, F, P, S>, whens: &Vec<(Expr2, Expr2)>, t: &ExecTable, row: usize) -> (r: Result<Option<Value2>, Error>)
    requires
        ctx_ok(*c),
        t.wf(),
    ensures
        match r {
            Ok(Some(v)) => chosen(c@, *whens, 0, t@, row) == Ok::<Option<Val>, Fail>(Some(v@)),
            Ok(None) => chosen(c@, *whens, 0, t@, row) == Ok::<Option<Val>, Fail>(None),
            Err(e) => chosen(c@, *whens, 0, t@, row) == Err::<Option<Val>, Fail>(e@),
        },
    decreases *whens, 1int,
{
    let mut k: usize = 0;
    while k < whens.len()
        invariant
            ctx_ok(*c),
            t.wf(),
            k <= whens@.len(),
            chosen(c@, *whens, 0, t@, row) == chosen(c@, *whens, k as nat, t@, row),
        decreases whens.len() - k,
    {
        match eval(c, &whens[k].0, t, row) {
            Ok(x) => {
                if x.truthy() {
                    return match eval(c, &whens[k].1, t, row) {
                        Ok(v) => Ok(Some(v)),
                        Err(f) => Err(f),
                    };
                }
            },
            Err(f) => {
                return Err(f);
            },
        }
        k = k + 1;
    }
    Ok(None)
}

} // verus!
