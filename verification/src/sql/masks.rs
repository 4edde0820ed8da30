//! Conditions evaluated on all rows of a table. A condition narrows a mask: a
//! row that is out stays out.

use crate::error::{Error, Fail};
use crate::float_bits::{
    arith, at_most, float_eq, float_le, float_lt, less, same, FloatOp, INFINITY_BITS, NEG_INFINITY_BITS,
};
use crate::hashing::{hash_text, text_hash};
use crate::sql::ast::{swap_op, swapped, BinOp2, ColType, Expr2};
use crate::sql::eval::{ctx_ok, eval, value_of, Ctx, Env};
use crate::sql::exec_table::{behind_dot, last_dot, short_name, ExecTable, Held};
use crate::sql::like::{like, like_bytes};
use crate::sql::shape::{col_in, column_of, expr_has_col, referents, varies};
use crate::sql::totals::{eval_const, fixed_value};
use crate::sql::value::{
    as_double, as_int, as_word, date_of_half, equal_values, half_date, is_true, to_cell, vals_eq, vals_le, vals_lt,
    value_at_most, value_less, Val, Value2,
};
use crate::table::StringSearchColumn;
use crate::text::{chars_of, same_text, slice_chars, string_of};
use crate::tpch::support::{ends_with, text_ends_with};
use crate::word::{signed_of, signed_word, word_of, word_signed};
use vstd::prelude::*;
use vstd::utf8::encode_utf8;

verus! {

/// The parts of an expression under one operation, from left to right.
pub open spec fn flat(e: Expr2, op: BinOp2) -> Seq<Expr2>
    decreases e,
{
    match e {
        Expr2::BinOp { op: o, left, right } => if o == op {
            flat(*left, op) + flat(*right, op)
        } else {
            seq![e]
        },
        _ => seq![e],
    }
}

fn add_flat<'a>(e: &'a Expr2, op: BinOp2, out: &mut Vec<&'a Expr2>)
    ensures
        referents(final(out)@) == referents(old(out)@) + flat(*e, op),
    decreases *e,
{
    let ghost start = out@;
    match e {
        Expr2::BinOp { op: o, left, right } => {
            if *o == op {
                add_flat(left, op, out);
                add_flat(right, op, out);
                proof {
                    assert(referents(out@) =~= referents(start) + flat(*e, op));
                }
            } else {
                out.push(e);
                proof {
                    assert(referents(out@) =~= referents(start) + flat(*e, op));
                }
            }
        },
        _ => {
            out.push(e);
            proof {
                assert(referents(out@) =~= referents(start) + flat(*e, op));
            }
        },
    }
}

/// Lists the parts of an expression under one operation.
pub fn flatten<'a>(e: &'a Expr2, op: BinOp2) -> (r: Vec<&'a Expr2>)
    ensures
        referents(r@) == flat(*e, op),
{
    let mut out: Vec<&'a Expr2> = Vec::new();
    add_flat(e, op, &mut out);
    proof {
        assert(referents(out@) =~= flat(*e, op));
    }
    out
}

/// An expression has a part, and no part is itself under the operation.
pub proof fn flat_parts_are_flat(e: Expr2, op: BinOp2)
    ensures
        flat(e, op).len() >= 1,
        forall|i: int|
            0 <= i < flat(e, op).len() ==> !(#[trigger] flat(e, op)[i] matches Expr2::BinOp { op: o, .. } && o == op),
    decreases e,
{
    match e {
        Expr2::BinOp { op: o, left, right } => {
            if o == op {
                flat_parts_are_flat(*left, op);
                flat_parts_are_flat(*right, op);
                let l = flat(*left, op);
                let r = flat(*right, op);
                assert forall|i: int| 0 <= i < flat(e, op).len() implies !(#[trigger] flat(e, op)[i] matches Expr2::BinOp {
                    op: o2,
                    ..
                } && o2 == op) by {
                    if i < l.len() {
                        assert(flat(e, op)[i] == l[i]);
                    } else {
                        assert(flat(e, op)[i] == r[i - l.len()]);
                    }
                }
            }
        },
        _ => {},
    }
}

/// A mask of rows that are all in.
pub open spec fn all_in(n: nat) -> Seq<bool> {
    Seq::new(n, |i: int| true)
}

/// The first `n` rows of a mask, narrowed by whether an expression is true.
pub open spec fn true_rows<
    F: Fn(FloatOp, u64, u64) -> u64,
    P: Fn(&str) -> Option<u64>,
>(c: Env<F, P>, e: Expr2, t: Held, mask: Seq<bool>, n: nat) -> Result<Seq<bool>, Fail>
    decreases n,
{
    if n == 0 {
        Ok(Seq::empty())
    } else {
        match true_rows(c, e, t, mask, (n - 1) as nat) {
            Ok(before) => if mask[n - 1] {
                match value_of(c, e, t, (n - 1) as usize) {
                    Ok(v) => Ok(before.push(is_true(v))),
                    Err(f) => Err(f),
                }
            } else {
                Ok(before.push(false))
            },
            Err(f) => Err(f),
        }
    }
}

/// Whether one value, as a text, fits another.
pub open spec fn text_fits(v: Val, p: Val) -> bool {
    match (v, p) {
        (Val::Str(s), Val::Str(q)) => like_bytes(encode_utf8(s), encode_utf8(q)),
        _ => false,
    }
}

/// The first `n` rows of a mask, narrowed by whether texts fit a pattern.
pub open spec fn like_rows<
    F: Fn(FloatOp, u64, u64) -> u64,
    P: Fn(&str) -> Option<u64>,
>(
    c: Env<F, P>,
    e: Expr2,
    pattern: Expr2,
    negated: bool,
    t: Held,
    mask: Seq<bool>,
    n: nat,
) -> Result<Seq<bool>, Fail>
    decreases n,
{
    if n == 0 {
        Ok(Seq::empty())
    } else {
        match like_rows(c, e, pattern, negated, t, mask, (n - 1) as nat) {
            Ok(before) => if mask[n - 1] {
                match value_of(c, e, t, (n - 1) as usize) {
                    Ok(v) => match value_of(c, pattern, t, (n - 1) as usize) {
                        Ok(p) => Ok(before.push(text_fits(v, p) != negated)),
                        Err(f) => Err(f),
                    },
                    Err(f) => Err(f),
                }
            } else {
                Ok(before.push(false))
            },
            Err(f) => Err(f),
        }
    }
}

/// A cell compared as signed integers with a number. Other operations than
/// comparisons let every cell pass.
pub open spec fn int_passes(op: BinOp2, cell: u64, i: i64) -> bool {
    let x = word_signed(cell);
    match op {
        BinOp2::Eq => x == i,
        BinOp2::Ne => x != i,
        BinOp2::Lt => x < i,
        BinOp2::Le => x <= i,
        BinOp2::Gt => x > i,
        BinOp2::Ge => x >= i,
        _ => true,
    }
}

/// A cell compared as an unsigned word.
pub open spec fn word_passes(op: BinOp2, cell: u64, w: u64) -> bool {
    match op {
        BinOp2::Eq => cell == w,
        BinOp2::Ne => cell != w,
        BinOp2::Lt => cell < w,
        BinOp2::Le => cell <= w,
        BinOp2::Gt => cell > w,
        BinOp2::Ge => cell >= w,
        _ => true,
    }
}

/// A cell compared as a double; equality with a double is up to rounding.
pub open spec fn double_passes<F: Fn(FloatOp, u64, u64) -> u64>(f: F, near: bool, op: BinOp2, cell: u64, b: u64) -> bool {
    match op {
        BinOp2::Eq => if near {
            arith(f, FloatOp::Near, cell, b) != 0
        } else {
            float_eq(cell, b)
        },
        BinOp2::Ne => !float_eq(cell, b),
        BinOp2::Lt => float_lt(cell, b),
        BinOp2::Le => float_le(cell, b),
        BinOp2::Gt => float_lt(b, cell),
        BinOp2::Ge => float_le(b, cell),
        _ => true,
    }
}

/// A cell as a value by the type of its column, without its text.
pub open spec fn plain_value(kind: ColType, cell: u64) -> Val {
    match kind {
        ColType::Int => Val::Int(word_signed(cell)),
        ColType::Float => Val::Float(cell),
        ColType::Date => Val::Date(half_date(cell)),
        ColType::String => Val::Str(Seq::empty()),
    }
}

/// Two values compared; here greater is what is not less or equal.
pub open spec fn value_passes<
    F: Fn(FloatOp, u64, u64) -> u64,
    P: Fn(&str) -> Option<u64>,
>(c: Env<F, P>, op: BinOp2, v: Val, w: Val) -> bool {
    match op {
        BinOp2::Eq => vals_eq(c.fpu, c.reader, v, w),
        BinOp2::Ne => !vals_eq(c.fpu, c.reader, v, w),
        BinOp2::Lt => vals_lt(c.fpu, c.reader, v, w),
        BinOp2::Le => vals_le(c.fpu, c.reader, v, w),
        BinOp2::Gt => !vals_le(c.fpu, c.reader, v, w),
        BinOp2::Ge => !vals_lt(c.fpu, c.reader, v, w),
        _ => false,
    }
}

/// Whether a cell of a column passes a comparison with a value.
pub open spec fn cell_passes<
    F: Fn(FloatOp, u64, u64) -> u64,
    P: Fn(&str) -> Option<u64>,
>(c: Env<F, P>, op: BinOp2, kind: ColType, v: Val, cell: u64) -> bool {
    match (kind, v) {
        (ColType::Int, Val::Int(i)) => int_passes(op, cell, i),
        (ColType::Date, Val::Date(d)) => word_passes(op, cell, signed_word(d as i64)),
        (ColType::Float, Val::Float(b)) => double_passes(c.fpu, true, op, cell, b),
        (ColType::Float, Val::Int(i)) => double_passes(
            c.fpu,
            false,
            op,
            cell,
            arith(c.fpu, FloatOp::FromI64, signed_word(i), 0),
        ),
        (ColType::String, Val::Str(s)) => match op {
            BinOp2::Eq => cell == text_hash(s),
            BinOp2::Ne => cell != text_hash(s),
            _ => true,
        },
        _ => value_passes(c, op, plain_value(kind, cell), v),
    }
}

/// A mask narrowed by a comparison of a column with a value.
pub open spec fn column_rows<
    F: Fn(FloatOp, u64, u64) -> u64,
    P: Fn(&str) -> Option<u64>,
>(c: Env<F, P>, op: BinOp2, col: usize, v: Val, t: Held, mask: Seq<bool>) -> Seq<bool> {
    Seq::new(
        mask.len(),
        |i: int| mask[i] && cell_passes(c, op, t.col_types[col as int], v, t.columns[col as int][i]),
    )
}

/// The column of the row round the query that a name stands for, if it stands
/// for none in the table itself.
pub open spec fn outer_column(e: Expr2, t: Held, u: Held) -> Option<usize> {
    match e {
        Expr2::Col(name) => if t.number(name@) is Some {
            None
        } else {
            match u.number(name@) {
                Some(i) => Some(i),
                None => if last_dot(name@) is Some {
                    u.number(short_name(name@))
                } else {
                    None
                },
            }
        },
        _ => None,
    }
}

/// The value of that column, without its text.
pub open spec fn outer_value(u: Held, col: usize, row: usize) -> Val {
    let cell = u.cell(col as int, row as int);
    match u.col_types[col as int] {
        ColType::Int => Val::Int(word_signed(cell)),
        ColType::Float => Val::Float(cell),
        ColType::Date => Val::Date(half_date(cell)),
        ColType::String => Val::Int(word_signed(cell)),
    }
}

/// How a comparison is carried out.
pub enum Comparison {
    /// A column with a value.
    Column(BinOp2, usize, Val),
    /// Two columns, cell by cell: whether they are equal, or differ.
    Words(bool, usize, usize),
    /// Row by row.
    Rows,
}

/// A column of the table against one of the row round the query.
pub open spec fn outer_comparison(
    op: BinOp2,
    left: Expr2,
    right: Expr2,
    t: Held,
    outer: Option<(Held, usize)>,
) -> Option<Comparison> {
    match outer {
        Some((u, row)) => match (column_of(left, t), outer_column(right, t, u)) {
            (Some(i), Some(j)) => Some(Comparison::Column(op, i, outer_value(u, j, row))),
            _ => match (column_of(right, t), outer_column(left, t, u)) {
                (Some(i), Some(j)) => Some(Comparison::Column(swapped(op), i, outer_value(u, j, row))),
                _ => None,
            },
        },
        None => None,
    }
}

/// Two columns of one type that compares by cells, under equality or its
/// opposite.
pub open spec fn word_comparison(op: BinOp2, left: Expr2, right: Expr2, t: Held) -> Comparison {
    match (column_of(left, t), column_of(right, t)) {
        (Some(i), Some(j)) => if t.col_types[i as int] == t.col_types[j as int] && t.col_types[i as int]
            != ColType::Float && op == BinOp2::Eq {
            Comparison::Words(true, i, j)
        } else if t.col_types[i as int] == t.col_types[j as int] && t.col_types[i as int] != ColType::Float && op
            == BinOp2::Ne {
            Comparison::Words(false, i, j)
        } else {
            Comparison::Rows
        },
        _ => Comparison::Rows,
    }
}

/// How a comparison is carried out, or the error of its fixed side.
pub open spec fn comparison_plan<
    F: Fn(FloatOp, u64, u64) -> u64,
    P: Fn(&str) -> Option<u64>,
>(c: Env<F, P>, op: BinOp2, left: Expr2, right: Expr2, t: Held) -> Result<
    Comparison,
    Fail,
> {
    if column_of(left, t) is Some && !varies(right) {
        match fixed_value(c, right, t) {
            Ok(v) => Ok(Comparison::Column(op, column_of(left, t)->0, v)),
            Err(f) => Err(f),
        }
    } else if column_of(right, t) is Some && !varies(left) {
        match fixed_value(c, left, t) {
            Ok(v) => Ok(Comparison::Column(swapped(op), column_of(right, t)->0, v)),
            Err(f) => Err(f),
        }
    } else {
        match outer_comparison(op, left, right, t, c.outer) {
            Some(k) => Ok(k),
            None => Ok(word_comparison(op, left, right, t)),
        }
    }
}

/// A mask narrowed by an operation on two sides.
pub open spec fn compared<
    F: Fn(FloatOp, u64, u64) -> u64,
    P: Fn(&str) -> Option<u64>,
>(
    c: Env<F, P>,
    e: Expr2,
    op: BinOp2,
    left: Expr2,
    right: Expr2,
    t: Held,
    mask: Seq<bool>,
) -> Result<Seq<bool>, Fail> {
    match comparison_plan(c, op, left, right, t) {
        Ok(Comparison::Column(o, i, v)) => Ok(column_rows(c, o, i, v, t, mask)),
        Ok(Comparison::Words(equal, i, j)) => Ok(
            Seq::new(
                mask.len(),
                |k: int| mask[k] && (t.columns[i as int][k] == t.columns[j as int][k]) == equal,
            ),
        ),
        Ok(Comparison::Rows) => true_rows(c, e, t, mask, mask.len()),
        Err(f) => Err(f),
    }
}

pub open spec fn int_or(x: Option<i64>, d: i64) -> i64 {
    match x {
        Some(i) => i,
        None => d,
    }
}

pub open spec fn word_or(x: Option<u64>, d: u64) -> u64 {
    match x {
        Some(i) => i,
        None => d,
    }
}

/// Whether a cell of a column lies between two values. A bound that is no number
/// is no bound.
pub open spec fn cell_between<
    F: Fn(FloatOp, u64, u64) -> u64,
    P: Fn(&str) -> Option<u64>,
>(c: Env<F, P>, kind: ColType, lo: Val, hi: Val, negated: bool, cell: u64) -> bool {
    match kind {
        ColType::Int => (int_or(as_int(c.fpu, lo), i64::MIN) <= word_signed(cell) <= int_or(
            as_int(c.fpu, hi),
            i64::MAX,
        )) != negated,
        ColType::Float => {
            let l = word_or(as_double(c.fpu, c.reader, lo), NEG_INFINITY_BITS);
            let h = word_or(as_double(c.fpu, c.reader, hi), INFINITY_BITS);
            if negated {
                float_lt(cell, l) || float_lt(h, cell)
            } else {
                float_le(l, cell) && float_le(cell, h)
            }
        },
        _ => (word_or(as_word(c.fpu, lo), 0) <= cell <= word_or(as_word(c.fpu, hi), u64::MAX)) != negated,
    }
}

/// The cells of the first `n` items of a list: of a column its first cell, else
/// of the value, if there is one.
pub open spec fn list_cells<
    F: Fn(FloatOp, u64, u64) -> u64,
    P: Fn(&str) -> Option<u64>,
>(c: Env<F, P>, list: Seq<Expr2>, t: Held, n: nat) -> Seq<u64>
    decreases n,
{
    if n == 0 {
        Seq::empty()
    } else {
        let before = list_cells(c, list, t, (n - 1) as nat);
        match column_of(list[n - 1], t) {
            Some(i) => before.push(t.cell(i as int, 0)),
            None => match fixed_value(c, list[n - 1], t) {
                Ok(v) => before.push(to_cell(v)),
                Err(_) => before,
            },
        }
    }
}

/// The pattern is a percent sign and a text without wildcards.
pub open spec fn is_suffix_pattern(p: Seq<char>) -> bool {
    &&& p.len() > 0
    &&& p[0] == '%'
    &&& forall|i: int| 1 <= i < p.len() ==> #[trigger] p[i] != '%' && p[i] != '_'
}

/// The pattern has no wildcards.
pub open spec fn is_plain_pattern(p: Seq<char>) -> bool {
    forall|i: int| 0 <= i < p.len() ==> #[trigger] p[i] != '%' && p[i] != '_'
}

/// Whether a text of a column fits a pattern.
pub open spec fn column_text_fits(text: Seq<char>, p: Seq<char>) -> bool {
    if is_suffix_pattern(p) {
        ends_with(text, p.skip(1))
    } else if is_plain_pattern(p) {
        text == p
    } else {
        like_bytes(encode_utf8(text), encode_utf8(p))
    }
}

/// The text of a pattern; empty where it has none.
pub open spec fn pattern_text<
    F: Fn(FloatOp, u64, u64) -> u64,
    P: Fn(&str) -> Option<u64>,
>(c: Env<F, P>, pattern: Expr2, t: Held) -> Seq<char> {
    match fixed_value(c, pattern, t) {
        Ok(Val::Str(s)) => s,
        _ => Seq::empty(),
    }
}

/// The texts of a column that a pattern is held against, if they are kept for
/// every row.
pub open spec fn kept_texts(e: Expr2, t: Held) -> Option<Seq<Seq<char>>> {
    match column_of(e, t) {
        Some(i) => match t.strings[i as int] {
            Some(texts) => if texts.len() >= t.row_count {
                Some(texts)
            } else {
                None
            },
            None => None,
        },
        None => None,
    }
}

/// The column and the hash of a condition that a column equals a text.
pub open spec fn text_atom(e: Expr2, t: Held) -> Option<(usize, u64)> {
    match e {
        Expr2::BinOp { op, left, right } => if op == BinOp2::Eq {
            match (*left, *right) {
                (Expr2::Col(n), Expr2::Str(s)) => named_atom(n@, s@, t),
                (Expr2::Str(s), Expr2::Col(n)) => named_atom(n@, s@, t),
                _ => None,
            }
        } else {
            None
        },
        _ => None,
    }
}

pub open spec fn named_atom(name: Seq<char>, text: Seq<char>, t: Held) -> Option<(usize, u64)> {
    match t.number(name) {
        Some(i) => if t.col_types[i as int] == ColType::String {
            Some((i, text_hash(text)))
        } else {
            None
        },
        None => None,
    }
}

/// The conditions of a branch are all on one of two columns.
pub open spec fn atoms_on(atoms: Seq<Expr2>, t: Held, a: usize, b: usize) -> bool {
    forall|i: int|
        0 <= i < atoms.len() ==> (text_atom(#[trigger] atoms[i], t) matches Some((col, _)) && (col == a || col == b))
}

/// The hash that the last of the first `n` conditions on a column asks for.
pub open spec fn last_hash(atoms: Seq<Expr2>, t: Held, col: usize, n: nat) -> Option<u64>
    decreases n,
{
    if n == 0 {
        None
    } else {
        match text_atom(atoms[n - 1], t) {
            Some((k, h)) => if k == col {
                Some(h)
            } else {
                last_hash(atoms, t, col, (n - 1) as nat)
            },
            None => last_hash(atoms, t, col, (n - 1) as nat),
        }
    }
}

/// The pair of hashes that a branch asks for.
pub open spec fn branch_pair(e: Expr2, t: Held, a: usize, b: usize) -> Option<(u64, u64)> {
    let atoms = flat(e, BinOp2::And);
    if atoms_on(atoms, t, a, b) {
        match (last_hash(atoms, t, a, atoms.len()), last_hash(atoms, t, b, atoms.len())) {
            (Some(x), Some(y)) => Some((x, y)),
            _ => None,
        }
    } else {
        None
    }
}

/// The two columns of the first two conditions of a branch, if they differ.
pub open spec fn branch_columns(e: Expr2, t: Held) -> Option<(usize, usize)> {
    let atoms = flat(e, BinOp2::And);
    if atoms.len() < 2 {
        None
    } else {
        match (text_atom(atoms[0], t), text_atom(atoms[1], t)) {
            (Some((a, _)), Some((b, _))) => if a != b {
                Some((a, b))
            } else {
                None
            },
            _ => None,
        }
    }
}

/// Every branch asks for a pair on the two columns.
pub open spec fn branches_pair(branches: Seq<Expr2>, t: Held, a: usize, b: usize) -> bool {
    forall|i: int| 0 <= i < branches.len() ==> branch_pair(#[trigger] branches[i], t, a, b) is Some
}

/// The columns of a choice between pairs of texts, if the expression is one.
pub open spec fn pair_columns(e: Expr2, t: Held) -> Option<(usize, usize)> {
    let branches = flat(e, BinOp2::Or);
    match branch_columns(branches[0], t) {
        Some((a, b)) => if branches_pair(branches, t, a, b) {
            Some((a, b))
        } else {
            None
        },
        None => None,
    }
}

/// Whether two cells are one of the pairs.
pub open spec fn is_pair(e: Expr2, t: Held, a: usize, b: usize, x: u64, y: u64) -> bool {
    let branches = flat(e, BinOp2::Or);
    exists|i: int| 0 <= i < branches.len() && branch_pair(#[trigger] branches[i], t, a, b) == Some((x, y))
}

pub open spec fn pair_rows(e: Expr2, t: Held, a: usize, b: usize, mask: Seq<bool>) -> Seq<bool> {
    Seq::new(
        mask.len(),
        |i: int| mask[i] && is_pair(e, t, a, b, t.columns[a as int][i], t.columns[b as int][i]),
    )
}

/// A mask narrowed by a condition.
pub open spec fn narrowed<
    F: Fn(FloatOp, u64, u64) -> u64,
    P: Fn(&str) -> Option<u64>,
>(c: Env<F, P>, e: Expr2, t: Held, mask: Seq<bool>) -> Result<Seq<bool>, Fail>
    decreases e,
{
    match e {
        Expr2::BinOp { op, left, right } => if op == BinOp2::And {
            match narrowed(c, *left, t, mask) {
                Ok(m) => narrowed(c, *right, t, m),
                Err(f) => Err(f),
            }
        } else if op == BinOp2::Or {
            match pair_columns(e, t) {
                Some((a, b)) => Ok(pair_rows(e, t, a, b, mask)),
                None => match narrowed(c, *left, t, all_in(mask.len())) {
                    Ok(l) => match narrowed(c, *right, t, all_in(mask.len())) {
                        Ok(r) => Ok(Seq::new(mask.len(), |i: int| mask[i] && (l[i] || r[i]))),
                        Err(f) => Err(f),
                    },
                    Err(f) => Err(f),
                },
            }
        } else {
            compared(c, e, op, *left, *right, t, mask)
        },
        Expr2::Between { expr, low, high, negated } => match column_of(*expr, t) {
            Some(i) => match fixed_value(c, *low, t) {
                Ok(lo) => match fixed_value(c, *high, t) {
                    Ok(hi) => Ok(
                        Seq::new(
                            mask.len(),
                            |k: int|
                                mask[k] && cell_between(
                                    c,
                                    t.col_types[i as int],
                                    lo,
                                    hi,
                                    negated,
                                    t.columns[i as int][k],
                                ),
                        ),
                    ),
                    Err(f) => Err(f),
                },
                Err(f) => Err(f),
            },
            None => true_rows(c, e, t, mask, mask.len()),
        },
        Expr2::InList { expr, list, negated } => match column_of(*expr, t) {
            Some(i) => Ok(
                Seq::new(
                    mask.len(),
                    |k: int|
                        mask[k] && list_cells(c, list@, t, list@.len()).contains(t.columns[i as int][k]) != negated,
                ),
            ),
            None => true_rows(c, e, t, mask, mask.len()),
        },
        Expr2::Like { expr, pattern, negated } => {
            let p = pattern_text(c, *pattern, t);
            match kept_texts(*expr, t) {
                Some(texts) => if p.len() > 0 {
                    Ok(Seq::new(mask.len(), |k: int| mask[k] && column_text_fits(texts[k], p) != negated))
                } else {
                    like_rows(c, *expr, *pattern, negated, t, mask, mask.len())
                },
                None => like_rows(c, *expr, *pattern, negated, t, mask, mask.len()),
            }
        },
        _ => true_rows(c, e, t, mask, mask.len()),
    }
}

pub open spec fn mask_outcome(r: Result<Vec<bool>, Error>) -> Result<Seq<bool>, Fail> {
    match r {
        Ok(m) => Ok(m@),
        Err(e) => Err(e@),
    }
}

proof fn lemma_true_rows_fail<
    F: Fn(FloatOp, u64, u64) -> u64,
    P: Fn(&str) -> Option<u64>,
>(c: Env<F, P>, e: Expr2, t: Held, mask: Seq<bool>, i: nat, n: nat)
    requires
        i <= n,
        true_rows(c, e, t, mask, i) is Err,
    ensures
        true_rows(c, e, t, mask, n) == true_rows(c, e, t, mask, i),
    decreases n,
{
    if i < n {
        lemma_true_rows_fail(c, e, t, mask, i, (n - 1) as nat);
    }
}

fn keep_true<
    F: Fn(FloatOp, u64, u64) -> u64,
    P: Fn(&str) -> Option<u64>,
    S: Fn(&Expr2, &ExecTable, usize) -> Result<Value2, Error>,
>(c: &Ctx<'_, F, P, S>, e: &Expr2, t: &ExecTable, mask: &Vec<bool>) -> (r: Result<Vec<bool>, Error>)
    requires
        ctx_ok(*c),
        t.wf(),
    ensures
        mask_outcome(r) == true_rows(c@, *e, t@, mask@, mask@.len()),
{
    let mut out: Vec<bool> = Vec::new();
    let mut i: usize = 0;
    while i < mask.len()
        invariant
            ctx_ok(*c),
            t.wf(),
            i <= mask@.len(),
            true_rows(c@, *e, t@, mask@, i as nat) == Ok::<Seq<bool>, Fail>(out@),
        decreases mask.len() - i,
    {
        if mask[i] {
            match eval(c, e, t, i) {
                Ok(v) => {
                    out.push(v.truthy());
                },
                Err(f) => {
                    proof {
                        assert(true_rows(c@, *e, t@, mask@, (i + 1) as nat) == Err::<Seq<bool>, Fail>(f@));
                        lemma_true_rows_fail(c@, *e, t@, mask@, (i + 1) as nat, mask@.len());
                    }
                    return Err(f);
                },
            }
        } else {
            out.push(false);
        }
        i = i + 1;
    }
    Ok(out)
}

proof fn lemma_like_rows_fail<
    F: Fn(FloatOp, u64, u64) -> u64,
    P: Fn(&str) -> Option<u64>,
>(
    c: Env<F, P>,
    e: Expr2,
    pattern: Expr2,
    negated: bool,
    t: Held,
    mask: Seq<bool>,
    i: nat,
    n: nat,
)
    requires
        i <= n,
        like_rows(c, e, pattern, negated, t, mask, i) is Err,
    ensures
        like_rows(c, e, pattern, negated, t, mask, n) == like_rows(c, e, pattern, negated, t, mask, i),
    decreases n,
{
    if i < n {
        lemma_like_rows_fail(c, e, pattern, negated, t, mask, i, (n - 1) as nat);
    }
}

fn keep_like<
    F: Fn(FloatOp, u64, u64) -> u64,
    P: Fn(&str) -> Option<u64>,
    S: Fn(&Expr2, &ExecTable, usize) -> Result<Value2, Error>,
>(c: &Ctx<'_, F, P, S>, e: &Expr2, pattern: &Expr2, negated: bool, t: &ExecTable, mask: &Vec<bool>) -> (r: Result<
    Vec<bool>,
    Error,
>)
    requires
        ctx_ok(*c),
        t.wf(),
    ensures
        mask_outcome(r) == like_rows(c@, *e, *pattern, negated, t@, mask@, mask@.len()),
{
    let mut out: Vec<bool> = Vec::new();
    let mut i: usize = 0;
    while i < mask.len()
        invariant
            ctx_ok(*c),
            t.wf(),
            i <= mask@.len(),
            like_rows(c@, *e, *pattern, negated, t@, mask@, i as nat) == Ok::<Seq<bool>, Fail>(out@),
        decreases mask.len() - i,
    {
        if mask[i] {
            let v: Value2 = match eval(c, e, t, i) {
                Ok(v) => v,
                Err(f) => {
                    proof {
                        assert(like_rows(c@, *e, *pattern, negated, t@, mask@, (i + 1) as nat) is Err);
                        lemma_like_rows_fail(c@, *e, *pattern, negated, t@, mask@, (i + 1) as nat, mask@.len());
                    }
                    return Err(f);
                },
            };
            let p: Value2 = match eval(c, pattern, t, i) {
                Ok(p) => p,
                Err(f) => {
                    proof {
                        assert(like_rows(c@, *e, *pattern, negated, t@, mask@, (i + 1) as nat) is Err);
                        lemma_like_rows_fail(c@, *e, *pattern, negated, t@, mask@, (i + 1) as nat, mask@.len());
                    }
                    return Err(f);
                },
            };
            let fit: bool = match (&v, &p) {
                (Value2::Str(s), Value2::Str(q)) => like(s.as_str().as_bytes(), q.as_str().as_bytes()),
                _ => false,
            };
            out.push(fit != negated);
        } else {
            out.push(false);
        }
        i = i + 1;
    }
    Ok(out)
}

fn pass_int(op: BinOp2, cell: u64, i: i64) -> (b: bool)
    ensures
        b == int_passes(op, cell, i),
{
    let x: i64 = signed_of(cell);
    match op {
        BinOp2::Eq => x == i,
        BinOp2::Ne => x != i,
        BinOp2::Lt => x < i,
        BinOp2::Le => x <= i,
        BinOp2::Gt => x > i,
        BinOp2::Ge => x >= i,
        _ => true,
    }
}

fn pass_word(op: BinOp2, cell: u64, w: u64) -> (b: bool)
    ensures
        b == word_passes(op, cell, w),
{
    match op {
        BinOp2::Eq => cell == w,
        BinOp2::Ne => cell != w,
        BinOp2::Lt => cell < w,
        BinOp2::Le => cell <= w,
        BinOp2::Gt => cell > w,
        BinOp2::Ge => cell >= w,
        _ => true,
    }
}

fn pass_double<
    F: Fn(FloatOp, u64, u64) -> u64,
    P: Fn(&str) -> Option<u64>,
    S: Fn(&Expr2, &ExecTable, usize) -> Result<Value2, Error>,
>(c: &Ctx<'_, F, P, S>, near: bool, op: BinOp2, cell: u64, v: u64) -> (b: bool)
    requires
        ctx_ok(*c),
    ensures
        b == double_passes(*c.fpu, near, op, cell, v),
{
    match op {
        BinOp2::Eq => if near {
            (c.fpu)(FloatOp::Near, cell, v) != 0
        } else {
            same(cell, v)
        },
        BinOp2::Ne => !same(cell, v),
        BinOp2::Lt => less(cell, v),
        BinOp2::Le => at_most(cell, v),
        BinOp2::Gt => less(v, cell),
        BinOp2::Ge => at_most(v, cell),
        _ => true,
    }
}

fn pass_value<
    F: Fn(FloatOp, u64, u64) -> u64,
    P: Fn(&str) -> Option<u64>,
    S: Fn(&Expr2, &ExecTable, usize) -> Result<Value2, Error>,
>(c: &Ctx<'_, F, P, S>, op: BinOp2, v: &Value2, w: &Value2) -> (b: bool)
    requires
        ctx_ok(*c),
    ensures
        b == value_passes(c@, op, v@, w@),
{
    match op {
        BinOp2::Eq => equal_values(v, w, c.fpu, c.reader),
        BinOp2::Ne => !equal_values(v, w, c.fpu, c.reader),
        BinOp2::Lt => value_less(v, w, c.fpu, c.reader),
        BinOp2::Le => value_at_most(v, w, c.fpu, c.reader),
        BinOp2::Gt => !value_at_most(v, w, c.fpu, c.reader),
        BinOp2::Ge => !value_less(v, w, c.fpu, c.reader),
        _ => false,
    }
}

fn pass_cell<
    F: Fn(FloatOp, u64, u64) -> u64,
    P: Fn(&str) -> Option<u64>,
    S: Fn(&Expr2, &ExecTable, usize) -> Result<Value2, Error>,
>(c: &Ctx<'_, F, P, S>, op: BinOp2, kind: ColType, v: &Value2, cell: u64) -> (b: bool)
    requires
        ctx_ok(*c),
    ensures
        b == cell_passes(c@, op, kind, v@, cell),
{
    match (kind, v) {
        (ColType::Int, Value2::Int(i)) => pass_int(op, cell, *i),
        (ColType::Date, Value2::Date(d)) => pass_word(op, cell, word_of(*d as i64)),
        (ColType::Float, Value2::Float(b)) => pass_double(c, true, op, cell, *b),
        (ColType::Float, Value2::Int(i)) => {
            let b: u64 = (c.fpu)(FloatOp::FromI64, word_of(*i), 0);
            pass_double(c, false, op, cell, b)
        },
        (ColType::String, Value2::Str(s)) => match op {
            BinOp2::Eq => cell == hash_text(s.as_str()),
            BinOp2::Ne => cell != hash_text(s.as_str()),
            _ => true,
        },
        _ => {
            let x: Value2 = match kind {
                ColType::Int => Value2::Int(signed_of(cell)),
                ColType::Float => Value2::Float(cell),
                ColType::Date => Value2::Date(date_of_half(cell)),
                ColType::String => {
                    let none: Vec<char> = Vec::new();
                    proof {
                        assert(none@ =~= Seq::<char>::empty());
                    }
                    Value2::Str(string_of(&none))
                },
            };
            pass_value(c, op, &x, v)
        },
    }
}

/// Narrows a mask by a comparison of a column with a value.
pub fn apply_comparison<
    F: Fn(FloatOp, u64, u64) -> u64,
    P: Fn(&str) -> Option<u64>,
    S: Fn(&Expr2, &ExecTable, usize) -> Result<Value2, Error>,
>(c: &Ctx<'_, F, P, S>, op: BinOp2, col: usize, v: &Value2, t: &ExecTable, mask: &Vec<bool>) -> (r: Vec<bool>)
    requires
        ctx_ok(*c),
        t.wf(),
        col < t.columns.len(),
        mask@.len() == t.row_count,
    ensures
        r@ == column_rows(c@, op, col, v@, t@, mask@),
{
    let kind: ColType = t.col_types[col];
    let cells: &Vec<u64> = &t.columns[col];
    let mut out: Vec<bool> = Vec::new();
    let mut i: usize = 0;
    while i < mask.len()
        invariant
            ctx_ok(*c),
            cells@.len() == mask@.len(),
            i <= mask@.len(),
            out@.len() == i,
            forall|k: int| 0 <= k < i ==> #[trigger] out@[k] == (mask@[k] && cell_passes(c@, op, kind, v@, cells@[k])),
        decreases mask.len() - i,
    {
        out.push(mask[i] && pass_cell(c, op, kind, v, cells[i]));
        i = i + 1;
    }
    proof {
        assert(out@ =~= column_rows(c@, op, col, v@, t@, mask@));
    }
    out
}

fn find_outer(e: &Expr2, t: &ExecTable, u: &ExecTable) -> (r: Option<usize>)
    ensures
        r == outer_column(*e, t@, u@),
        u.wf() ==> (r matches Some(i) ==> i < u.columns.len()),
{
    match e {
        Expr2::Col(name) => match t.lookup_col(name.as_str()) {
            Some(_) => None,
            None => match u.lookup_col(name.as_str()) {
                Some(i) => Some(i),
                None => match behind_dot(name.as_str()) {
                    Some(short) => u.lookup_col(short.as_str()),
                    None => None,
                },
            },
        },
        _ => None,
    }
}

fn outer_cell_value(u: &ExecTable, col: usize, row: usize) -> (v: Value2)
    requires
        u.wf(),
        col < u.columns.len(),
    ensures
        v@ == outer_value(u@, col, row),
{
    let cell: u64 = if row < u.columns[col].len() {
        u.columns[col][row]
    } else {
        0
    };
    match u.col_types[col] {
        ColType::Int => Value2::Int(signed_of(cell)),
        ColType::Float => Value2::Float(cell),
        ColType::Date => Value2::Date(date_of_half(cell)),
        ColType::String => Value2::Int(signed_of(cell)),
    }
}

fn compare_words(equal: bool, a: &Vec<u64>, b: &Vec<u64>, mask: &Vec<bool>) -> (r: Vec<bool>)
    requires
        a@.len() == mask@.len(),
        b@.len() == mask@.len(),
    ensures
        r@ == Seq::new(mask@.len(), |k: int| mask@[k] && (a@[k] == b@[k]) == equal),
{
    let mut out: Vec<bool> = Vec::new();
    let mut i: usize = 0;
    while i < mask.len()
        invariant
            a@.len() == mask@.len(),
            b@.len() == mask@.len(),
            i <= mask@.len(),
            out@.len() == i,
            forall|k: int| 0 <= k < i ==> #[trigger] out@[k] == (mask@[k] && (a@[k] == b@[k]) == equal),
        decreases mask.len() - i,
    {
        out.push(mask[i] && (a[i] == b[i]) == equal);
        i = i + 1;
    }
    proof {
        assert(out@ =~= Seq::new(mask@.len(), |k: int| mask@[k] && (a@[k] == b@[k]) == equal));
    }
    out
}

/// Narrows a mask by an operation on two sides.
pub fn eval_comparison_vec<
    F: Fn(FloatOp, u64, u64) -> u64,
    P: Fn(&str) -> Option<u64>,
    S: Fn(&Expr2, &ExecTable, usize) -> Result<Value2, Error>,
>(
    c: &Ctx<'_, F, P, S>,
    e: &Expr2,
    op: BinOp2,
    left: &Expr2,
    right: &Expr2,
    t: &ExecTable,
    mask: &Vec<bool>,
) -> (r: Result<Vec<bool>, Error>)
    requires
        ctx_ok(*c),
        t.wf(),
        mask@.len() == t.row_count,
    ensures
        mask_outcome(r) == compared(c@, *e, op, *left, *right, t@, mask@),
{
    let l: Option<usize> = col_in(left, t);
    let r: Option<usize> = col_in(right, t);
    match l {
        Some(i) => {
            if !expr_has_col(right) {
                return match eval_const(c, right, t) {
                    Ok(v) => Ok(apply_comparison(c, op, i, &v, t, mask)),
                    Err(f) => Err(f),
                };
            }
        },
        None => {},
    }
    match r {
        Some(j) => {
            if !expr_has_col(left) {
                return match eval_const(c, left, t) {
                    Ok(v) => Ok(apply_comparison(c, swap_op(op), j, &v, t, mask)),
                    Err(f) => Err(f),
                };
            }
        },
        None => {},
    }
    match c.outer {
        Some((u, row)) => {
            match (l, find_outer(right, t, u)) {
                (Some(i), Some(j)) => {
                    let v: Value2 = outer_cell_value(u, j, row);
                    return Ok(apply_comparison(c, op, i, &v, t, mask));
                },
                _ => {},
            }
            match (r, find_outer(left, t, u)) {
                (Some(i), Some(j)) => {
                    let v: Value2 = outer_cell_value(u, j, row);
                    return Ok(apply_comparison(c, swap_op(op), i, &v, t, mask));
                },
                _ => {},
            }
        },
        None => {},
    }
    match (l, r) {
        (Some(i), Some(j)) => {
            if t.col_types[i] == t.col_types[j] && t.col_types[i] != ColType::Float {
                if op == BinOp2::Eq {
                    return Ok(compare_words(true, &t.columns[i], &t.columns[j], mask));
                }
                if op == BinOp2::Ne {
                    return Ok(compare_words(false, &t.columns[i], &t.columns[j], mask));
                }
            }
        },
        _ => {},
    }
    keep_true(c, e, t, mask)
}

fn cells_between<
    F: Fn(FloatOp, u64, u64) -> u64,
    P: Fn(&str) -> Option<u64>,
    S: Fn(&Expr2, &ExecTable, usize) -> Result<Value2, Error>,
>(
    c: &Ctx<'_, F, P, S>,
    kind: ColType,
    cells: &Vec<u64>,
    lo: &Value2,
    hi: &Value2,
    negated: bool,
    mask: &Vec<bool>,
) -> (r: Vec<bool>)
    requires
        ctx_ok(*c),
        cells@.len() == mask@.len(),
    ensures
        r@ == Seq::new(mask@.len(), |k: int| mask@[k] && cell_between(c@, kind, lo@, hi@, negated, cells@[k])),
{
    let il: i64 = match lo.as_i64(c.fpu) {
        Some(i) => i,
        None => i64::MIN,
    };
    let ih: i64 = match hi.as_i64(c.fpu) {
        Some(i) => i,
        None => i64::MAX,
    };
    let wl: u64 = match lo.as_u64(c.fpu) {
        Some(i) => i,
        None => 0,
    };
    let wh: u64 = match hi.as_u64(c.fpu) {
        Some(i) => i,
        None => u64::MAX,
    };
    let dl: u64 = match lo.as_f64(c.fpu, c.reader) {
        Some(i) => i,
        None => NEG_INFINITY_BITS,
    };
    let dh: u64 = match hi.as_f64(c.fpu, c.reader) {
        Some(i) => i,
        None => INFINITY_BITS,
    };
    let mut out: Vec<bool> = Vec::new();
    let mut i: usize = 0;
    while i < mask.len()
        invariant
            cells@.len() == mask@.len(),
            il == int_or(as_int(*c.fpu, lo@), i64::MIN),
            ih == int_or(as_int(*c.fpu, hi@), i64::MAX),
            wl == word_or(as_word(*c.fpu, lo@), 0),
            wh == word_or(as_word(*c.fpu, hi@), u64::MAX),
            dl == word_or(as_double(*c.fpu, *c.reader, lo@), NEG_INFINITY_BITS),
            dh == word_or(as_double(*c.fpu, *c.reader, hi@), INFINITY_BITS),
            i <= mask@.len(),
            out@.len() == i,
            forall|k: int|
                0 <= k < i ==> #[trigger] out@[k] == (mask@[k] && cell_between(c@, kind, lo@, hi@, negated, cells@[k])),
        decreases mask.len() - i,
    {
        let cell: u64 = cells[i];
        let inside: bool = match kind {
            ColType::Int => {
                let x: i64 = signed_of(cell);
                (il <= x && x <= ih) != negated
            },
            ColType::Float => if negated {
                less(cell, dl) || less(dh, cell)
            } else {
                at_most(dl, cell) && at_most(cell, dh)
            },
            _ => (wl <= cell && cell <= wh) != negated,
        };
        out.push(mask[i] && inside);
        i = i + 1;
    }
    proof {
        assert(out@ =~= Seq::new(mask@.len(), |k: int| mask@[k] && cell_between(c@, kind, lo@, hi@, negated, cells@[k])));
    }
    out
}

fn gather_cells<
    F: Fn(FloatOp, u64, u64) -> u64,
    P: Fn(&str) -> Option<u64>,
    S: Fn(&Expr2, &ExecTable, usize) -> Result<Value2, Error>,
>(c: &Ctx<'_, F, P, S>, list: &Vec<Expr2>, t: &ExecTable) -> (r: Vec<u64>)
    requires
        ctx_ok(*c),
        t.wf(),
    ensures
        r@ == list_cells(c@, list@, t@, list@.len()),
{
    let mut out: Vec<u64> = Vec::new();
    let mut k: usize = 0;
    while k < list.len()
        invariant
            ctx_ok(*c),
            t.wf(),
            k <= list@.len(),
            out@ == list_cells(c@, list@, t@, k as nat),
        decreases list.len() - k,
    {
        match col_in(&list[k], t) {
            Some(i) => {
                if t.columns[i].len() > 0 {
                    out.push(t.columns[i][0]);
                } else {
                    out.push(0);
                }
            },
            None => match eval_const(c, &list[k], t) {
                Ok(v) => {
                    out.push(v.to_u64());
                },
                Err(_) => {},
            },
        }
        k = k + 1;
    }
    out
}

fn occurs(words: &Vec<u64>, x: u64) -> (b: bool)
    ensures
        b == words@.contains(x),
{
    let mut i: usize = 0;
    while i < words.len()
        invariant
            i <= words@.len(),
            forall|k: int| 0 <= k < i ==> #[trigger] words@[k] != x,
        decreases words.len() - i,
    {
        if words[i] == x {
            return true;
        }
        i = i + 1;
    }
    false
}

fn cells_among(words: &Vec<u64>, cells: &Vec<u64>, negated: bool, mask: &Vec<bool>) -> (r: Vec<bool>)
    requires
        cells@.len() == mask@.len(),
    ensures
        r@ == Seq::new(mask@.len(), |k: int| mask@[k] && words@.contains(cells@[k]) != negated),
{
    let mut out: Vec<bool> = Vec::new();
    let mut i: usize = 0;
    while i < mask.len()
        invariant
            cells@.len() == mask@.len(),
            i <= mask@.len(),
            out@.len() == i,
            forall|k: int| 0 <= k < i ==> #[trigger] out@[k] == (mask@[k] && words@.contains(cells@[k]) != negated),
        decreases mask.len() - i,
    {
        out.push(mask[i] && occurs(words, cells[i]) != negated);
        i = i + 1;
    }
    proof {
        assert(out@ =~= Seq::new(mask@.len(), |k: int| mask@[k] && words@.contains(cells@[k]) != negated));
    }
    out
}

/// How a pattern is held against a text: 0 for a suffix, 1 for the whole text,
/// 2 for a pattern proper.
fn pattern_kind(p: &Vec<char>) -> (k: u8)
    ensures
        k == 0 <==> is_suffix_pattern(p@),
        k == 1 <==> !is_suffix_pattern(p@) && is_plain_pattern(p@),
        k <= 2,
{
    let mut i: usize = 1;
    while i < p.len()
        invariant
            1 <= i,
            p@.len() >= 1 ==> i <= p@.len(),
            forall|k: int| 1 <= k < i && k < p@.len() ==> #[trigger] p@[k] != '%' && p@[k] != '_',
        decreases p.len() - i,
    {
        if p[i] == '%' || p[i] == '_' {
            proof {
                assert(p@[i as int] == '%' || p@[i as int] == '_');
            }
            return 2;
        }
        i = i + 1;
    }
    if p.len() == 0 {
        return 1;
    }
    if p[0] == '%' {
        0
    } else if p[0] == '_' {
        proof {
            assert(p@[0] == '_');
        }
        2
    } else {
        1
    }
}

/// Marks the texts that fit a pattern.
pub fn like_mask(sc: &StringSearchColumn, pattern: &str) -> (r: Vec<bool>)
    ensures
        r@ == Seq::new(sc.strings@.len(), |k: int| column_text_fits(sc.strings@[k]@, pattern@)),
{
    let p: Vec<char> = chars_of(pattern);
    let kind: u8 = pattern_kind(&p);
    let tail: String = if p.len() > 0 {
        let v: Vec<char> = slice_chars(&p, 1, p.len());
        proof {
            assert(p@.subrange(1, p@.len() as int) =~= p@.skip(1));
        }
        string_of(&v)
    } else {
        let none: Vec<char> = Vec::new();
        string_of(&none)
    };
    let mut out: Vec<bool> = Vec::new();
    let mut i: usize = 0;
    while i < sc.strings.len()
        invariant
            p@ == pattern@,
            kind == 0 <==> is_suffix_pattern(p@),
            kind == 1 <==> !is_suffix_pattern(p@) && is_plain_pattern(p@),
            p@.len() > 0 ==> tail@ == p@.skip(1),
            i <= sc.strings@.len(),
            out@.len() == i,
            forall|k: int| 0 <= k < i ==> #[trigger] out@[k] == column_text_fits(sc.strings@[k]@, pattern@),
        decreases sc.strings.len() - i,
    {
        let text: &str = sc.strings[i].as_str();
        let fit: bool = if kind == 0 {
            text_ends_with(text, tail.as_str())
        } else if kind == 1 {
            same_text(text, pattern)
        } else {
            like(text.as_bytes(), pattern.as_bytes())
        };
        out.push(fit);
        i = i + 1;
    }
    proof {
        assert(out@ =~= Seq::new(sc.strings@.len(), |k: int| column_text_fits(sc.strings@[k]@, pattern@)));
    }
    out
}

fn combine_marks(marks: &Vec<bool>, negated: bool, mask: &Vec<bool>) -> (r: Vec<bool>)
    requires
        marks@.len() >= mask@.len(),
    ensures
        r@ == Seq::new(mask@.len(), |k: int| mask@[k] && marks@[k] != negated),
{
    let mut out: Vec<bool> = Vec::new();
    let mut i: usize = 0;
    while i < mask.len()
        invariant
            marks@.len() >= mask@.len(),
            i <= mask@.len(),
            out@.len() == i,
            forall|k: int| 0 <= k < i ==> #[trigger] out@[k] == (mask@[k] && marks@[k] != negated),
        decreases mask.len() - i,
    {
        out.push(mask[i] && marks[i] != negated);
        i = i + 1;
    }
    proof {
        assert(out@ =~= Seq::new(mask@.len(), |k: int| mask@[k] && marks@[k] != negated));
    }
    out
}

fn find_atom(e: &Expr2, t: &ExecTable) -> (r: Option<(usize, u64)>)
    requires
        t.wf(),
    ensures
        r == text_atom(*e, t@),
        r matches Some((i, _)) ==> i < t.columns.len(),
{
    match e {
        Expr2::BinOp { op, left, right } => {
            if *op != BinOp2::Eq {
                return None;
            }
            let (name, text): (&str, &str) = match (&**left, &**right) {
                (Expr2::Col(n), Expr2::Str(s)) => (n.as_str(), s.as_str()),
                (Expr2::Str(s), Expr2::Col(n)) => (n.as_str(), s.as_str()),
                _ => {
                    return None;
                },
            };
            match t.lookup_col(name) {
                Some(i) => if t.col_types[i] == ColType::String {
                    Some((i, hash_text(text)))
                } else {
                    None
                },
                None => None,
            }
        },
        _ => None,
    }
}

fn find_branch_pair(e: &Expr2, t: &ExecTable, a: usize, b: usize) -> (r: Option<(u64, u64)>)
    requires
        t.wf(),
    ensures
        r == branch_pair(*e, t@, a, b),
{
    let atoms: Vec<&Expr2> = flatten(e, BinOp2::And);
    let ghost parts = flat(*e, BinOp2::And);
    let mut ha: Option<u64> = None;
    let mut hb: Option<u64> = None;
    let mut i: usize = 0;
    proof {
        assert(atoms@.len() == referents(atoms@).len());
    }
    while i < atoms.len()
        invariant
            t.wf(),
            parts == flat(*e, BinOp2::And),
            referents(atoms@) == parts,
            atoms@.len() == parts.len(),
            i <= atoms@.len(),
            ha == last_hash(parts, t@, a, i as nat),
            hb == last_hash(parts, t@, b, i as nat),
            forall|k: int|
                0 <= k < i ==> (text_atom(#[trigger] parts[k], t@) matches Some((col, _)) && (col == a || col == b)),
        decreases atoms.len() - i,
    {
        proof {
            assert(referents(atoms@)[i as int] == parts[i as int]);
        }
        match find_atom(atoms[i], t) {
            Some((col, h)) => {
                if col != a && col != b {
                    proof {
                        assert(!atoms_on(parts, t@, a, b)) by {
                            assert(text_atom(parts[i as int], t@) == Some((col, h)));
                        }
                    }
                    return None;
                }
                if col == a {
                    ha = Some(h);
                }
                if col == b {
                    hb = Some(h);
                }
            },
            None => {
                proof {
                    assert(!atoms_on(parts, t@, a, b)) by {
                        assert(text_atom(parts[i as int], t@) is None);
                    }
                }
                return None;
            },
        }
        i = i + 1;
    }
    proof {
        assert(atoms_on(parts, t@, a, b));
    }
    match (ha, hb) {
        (Some(x), Some(y)) => Some((x, y)),
        _ => None,
    }
}

fn find_branch_columns(e: &Expr2, t: &ExecTable) -> (r: Option<(usize, usize)>)
    requires
        t.wf(),
    ensures
        r == branch_columns(*e, t@),
        r matches Some((a, b)) ==> a < t.columns.len() && b < t.columns.len(),
{
    let atoms: Vec<&Expr2> = flatten(e, BinOp2::And);
    proof {
        assert(atoms@.len() == referents(atoms@).len());
    }
    if atoms.len() < 2 {
        return None;
    }
    proof {
        assert(referents(atoms@)[0] == flat(*e, BinOp2::And)[0]);
        assert(referents(atoms@)[1] == flat(*e, BinOp2::And)[1]);
    }
    match (find_atom(atoms[0], t), find_atom(atoms[1], t)) {
        (Some((a, _)), Some((b, _))) => if a != b {
            Some((a, b))
        } else {
            None
        },
        _ => None,
    }
}

/// The columns of a choice between pairs of texts, and the pairs.
fn find_pairs(e: &Expr2, t: &ExecTable) -> (r: Option<(usize, usize, Vec<(u64, u64)>)>)
    requires
        t.wf(),
    ensures
        match r {
            Some((a, b, pairs)) => {
                &&& pair_columns(*e, t@) == Some((a, b))
                &&& a < t.columns.len() && b < t.columns.len()
                &&& pairs@.len() == flat(*e, BinOp2::Or).len()
                &&& forall|i: int|
                    0 <= i < pairs@.len() ==> branch_pair(flat(*e, BinOp2::Or)[i], t@, a, b) == Some(#[trigger] pairs@[i])
            },
            None => pair_columns(*e, t@) is None,
        },
{
    let branches: Vec<&Expr2> = flatten(e, BinOp2::Or);
    let ghost parts = flat(*e, BinOp2::Or);
    proof {
        flat_parts_are_flat(*e, BinOp2::Or);
        assert(branches@.len() == referents(branches@).len());
        assert(referents(branches@)[0] == parts[0]);
    }
    let (a, b): (usize, usize) = match find_branch_columns(branches[0], t) {
        Some((a, b)) => (a, b),
        None => {
            return None;
        },
    };
    let mut pairs: Vec<(u64, u64)> = Vec::new();
    let mut i: usize = 0;
    while i < branches.len()
        invariant
            t.wf(),
            parts == flat(*e, BinOp2::Or),
            referents(branches@) == parts,
            branches@.len() == parts.len(),
            branch_columns(parts[0], t@) == Some((a, b)),
            i <= branches@.len(),
            pairs@.len() == i,
            forall|k: int| 0 <= k < i ==> branch_pair(parts[k], t@, a, b) == Some(#[trigger] pairs@[k]),
        decreases branches.len() - i,
    {
        proof {
            assert(referents(branches@)[i as int] == parts[i as int]);
        }
        match find_branch_pair(branches[i], t, a, b) {
            Some(p) => {
                pairs.push(p);
            },
            None => {
                proof {
                    assert(!branches_pair(parts, t@, a, b)) by {
                        assert(branch_pair(parts[i as int], t@, a, b) is None);
                    }
                }
                return None;
            },
        }
        i = i + 1;
    }
    proof {
        assert(branches_pair(parts, t@, a, b)) by {
            assert forall|k: int| 0 <= k < parts.len() implies branch_pair(#[trigger] parts[k], t@, a, b) is Some by {
                assert(branch_pair(parts[k], t@, a, b) == Some(pairs@[k]));
            }
        }
    }
    Some((a, b, pairs))
}

fn pair_occurs(pairs: &Vec<(u64, u64)>, x: u64, y: u64) -> (r: bool)
    ensures
        r == exists|i: int| 0 <= i < pairs@.len() && #[trigger] pairs@[i] == (x, y),
{
    let mut i: usize = 0;
    while i < pairs.len()
        invariant
            i <= pairs@.len(),
            forall|k: int| 0 <= k < i ==> #[trigger] pairs@[k] != (x, y),
        decreases pairs.len() - i,
    {
        if pairs[i].0 == x && pairs[i].1 == y {
            proof {
                assert(pairs@[i as int] == (x, y));
            }
            return true;
        }
        i = i + 1;
    }
    false
}

/// Narrows a mask by a choice between pairs of texts in two columns; nothing if
/// the expression is none.
pub fn try_nation_pair_or_lut(e: &Expr2, t: &ExecTable, mask: &Vec<bool>) -> (r: Option<Vec<bool>>)
    requires
        t.wf(),
        mask@.len() == t.row_count,
    ensures
        match r {
            Some(m) => pair_columns(*e, t@) matches Some((a, b)) && m@ == pair_rows(*e, t@, a, b, mask@),
            None => pair_columns(*e, t@) is None,
        },
{
    let (a, b, pairs): (usize, usize, Vec<(u64, u64)>) = match find_pairs(e, t) {
        Some(p) => p,
        None => {
            return None;
        },
    };
    let ca: &Vec<u64> = &t.columns[a];
    let cb: &Vec<u64> = &t.columns[b];
    let mut out: Vec<bool> = Vec::new();
    let mut i: usize = 0;
    while i < mask.len()
        invariant
            t.wf(),
            a < t.columns.len(),
            b < t.columns.len(),
            *ca == t.columns@[a as int],
            *cb == t.columns@[b as int],
            mask@.len() == t.row_count,
            pairs@.len() == flat(*e, BinOp2::Or).len(),
            forall|k: int|
                0 <= k < pairs@.len() ==> branch_pair(flat(*e, BinOp2::Or)[k], t@, a, b) == Some(#[trigger] pairs@[k]),
            i <= mask@.len(),
            out@.len() == i,
            forall|k: int| 0 <= k < i ==> #[trigger] out@[k] == pair_rows(*e, t@, a, b, mask@)[k],
        decreases mask.len() - i,
    {
        let found: bool = pair_occurs(&pairs, ca[i], cb[i]);
        proof {
            let branches = flat(*e, BinOp2::Or);
            let x = ca@[i as int];
            let y = cb@[i as int];
            assert(found == is_pair(*e, t@, a, b, x, y)) by {
                if found {
                    let k = choose|k: int| 0 <= k < pairs@.len() && #[trigger] pairs@[k] == (x, y);
                    assert(branch_pair(branches[k], t@, a, b) == Some((x, y)));
                }
                if is_pair(*e, t@, a, b, x, y) {
                    let k = choose|k: int|
                        0 <= k < branches.len() && branch_pair(#[trigger] branches[k], t@, a, b) == Some((x, y));
                    assert(pairs@[k] == (x, y));
                }
            }
        }
        out.push(mask[i] && found);
        i = i + 1;
    }
    proof {
        assert(out@ =~= pair_rows(*e, t@, a, b, mask@));
    }
    Some(out)
}

fn full_mask(n: usize) -> (r: Vec<bool>)
    ensures
        r@ == all_in(n as nat),
{
    let mut out: Vec<bool> = Vec::new();
    let mut i: usize = 0;
    while i < n
        invariant
            i <= n,
            out@.len() == i,
            forall|k: int| 0 <= k < i ==> #[trigger] out@[k],
        decreases n - i,
    {
        out.push(true);
        i = i + 1;
    }
    proof {
        assert(out@ =~= all_in(n as nat));
    }
    out
}

proof fn lemma_true_rows_len<
    F: Fn(FloatOp, u64, u64) -> u64,
    P: Fn(&str) -> Option<u64>,
>(c: Env<F, P>, e: Expr2, t: Held, mask: Seq<bool>, n: nat)
    requires
        n <= mask.len(),
    ensures
        true_rows(c, e, t, mask, n) matches Ok(m) ==> m.len() == n && forall|i: int|
            0 <= i < n ==> (#[trigger] m[i] ==> mask[i]),
    decreases n,
{
    if n > 0 {
        lemma_true_rows_len(c, e, t, mask, (n - 1) as nat);
    }
}

proof fn lemma_like_rows_len<
    F: Fn(FloatOp, u64, u64) -> u64,
    P: Fn(&str) -> Option<u64>,
>(
    c: Env<F, P>,
    e: Expr2,
    pattern: Expr2,
    negated: bool,
    t: Held,
    mask: Seq<bool>,
    n: nat,
)
    requires
        n <= mask.len(),
    ensures
        like_rows(c, e, pattern, negated, t, mask, n) matches Ok(m) ==> m.len() == n && forall|i: int|
            0 <= i < n ==> (#[trigger] m[i] ==> mask[i]),
    decreases n,
{
    if n > 0 {
        lemma_like_rows_len(c, e, pattern, negated, t, mask, (n - 1) as nat);
    }
}

/// A condition only narrows: it keeps the number of rows, and a row that was out
/// stays out.
pub proof fn conditions_only_narrow<
    F: Fn(FloatOp, u64, u64) -> u64,
    P: Fn(&str) -> Option<u64>,
>(c: Env<F, P>, e: Expr2, t: Held, mask: Seq<bool>)
    ensures
        narrowed(c, e, t, mask) matches Ok(m) ==> m.len() == mask.len() && forall|i: int|
            0 <= i < mask.len() ==> (#[trigger] m[i] ==> mask[i]),
    decreases e,
{
    lemma_true_rows_len(c, e, t, mask, mask.len());
    match e {
        Expr2::BinOp { op, left, right } => {
            if op == BinOp2::And {
                conditions_only_narrow(c, *left, t, mask);
                match narrowed(c, *left, t, mask) {
                    Ok(m) => {
                        conditions_only_narrow(c, *right, t, m);
                    },
                    Err(_) => {},
                }
            }
        },
        Expr2::Like { expr, pattern, negated } => {
            lemma_like_rows_len(c, *expr, *pattern, negated, t, mask, mask.len());
        },
        _ => {},
    }
}

/// Narrows a mask with a mark for each row.
fn narrow_mask<
    F: Fn(FloatOp, u64, u64) -> u64,
    P: Fn(&str) -> Option<u64>,
    S: Fn(&Expr2, &ExecTable, usize) -> Result<Value2, Error>,
>(c: &Ctx<'_, F, P, S>, e: &Expr2, t: &ExecTable, mask: &Vec<bool>) -> (r: Result<
    Vec<bool>,
    Error,
>)
    requires
        ctx_ok(*c),
        t.wf(),
        mask@.len() == t.row_count,
    ensures
        mask_outcome(r) == narrowed(c@, *e, t@, mask@),
        r matches Ok(m) ==> m@.len() == mask@.len(),
    decreases *e,
{
    proof {
        conditions_only_narrow(c@, *e, t@, mask@);
    }
    match e {
        Expr2::BinOp { op, left, right } => {
            if *op == BinOp2::And {
                match narrow_mask(c, left, t, mask) {
                    Ok(m) => narrow_mask(c, right, t, &m),
                    Err(f) => Err(f),
                }
            } else if *op == BinOp2::Or {
                match try_nation_pair_or_lut(e, t, mask) {
                    Some(m) => Ok(m),
                    None => {
                        let all: Vec<bool> = full_mask(mask.len());
                        let l: Vec<bool> = match narrow_mask(c, left, t, &all) {
                            Ok(m) => m,
                            Err(f) => {
                                return Err(f);
                            },
                        };
                        let r: Vec<bool> = match narrow_mask(c, right, t, &all) {
                            Ok(m) => m,
                            Err(f) => {
                                return Err(f);
                            },
                        };
                        let mut out: Vec<bool> = Vec::new();
                        let mut i: usize = 0;
                        while i < mask.len()
                            invariant
                                l@.len() == mask@.len(),
                                r@.len() == mask@.len(),
                                i <= mask@.len(),
                                out@.len() == i,
                                forall|k: int| 0 <= k < i ==> #[trigger] out@[k] == (mask@[k] && (l@[k] || r@[k])),
                            decreases mask.len() - i,
                        {
                            out.push(mask[i] && (l[i] || r[i]));
                            i = i + 1;
                        }
                        proof {
                            assert(out@ =~= Seq::new(mask@.len(), |k: int| mask@[k] && (l@[k] || r@[k])));
                        }
                        Ok(out)
                    },
                }
            } else {
                eval_comparison_vec(c, e, *op, left, right, t, mask)
            }
        },
        Expr2::Between { expr, low, high, negated } => match col_in(expr, t) {
            Some(i) => {
                let lo: Value2 = match eval_const(c, low, t) {
                    Ok(v) => v,
                    Err(f) => {
                        return Err(f);
                    },
                };
                let hi: Value2 = match eval_const(c, high, t) {
                    Ok(v) => v,
                    Err(f) => {
                        return Err(f);
                    },
                };
                Ok(cells_between(c, t.col_types[i], &t.columns[i], &lo, &hi, *negated, mask))
            },
            None => keep_true(c, e, t, mask),
        },
        Expr2::InList { expr, list, negated } => match col_in(expr, t) {
            Some(i) => {
                let words: Vec<u64> = gather_cells(c, list, t);
                Ok(cells_among(&words, &t.columns[i], *negated, mask))
            },
            None => keep_true(c, e, t, mask),
        },
        Expr2::Like { expr, pattern, negated } => {
            match col_in(expr, t) {
                Some(i) => match &t.string_columns[i] {
                    Some(sc) => {
                        let text: String = match eval_const(c, pattern, t) {
                            Ok(Value2::Str(s)) => s,
                            _ => {
                                let none: Vec<char> = Vec::new();
                                proof {
                                    assert(none@ =~= Seq::<char>::empty());
                                }
                                string_of(&none)
                            },
                        };
                        let letters: Vec<char> = chars_of(text.as_str());
                        if letters.len() > 0 && sc.strings.len() >= t.row_count {
                            let marks: Vec<bool> = like_mask(sc, text.as_str());
                            let out: Vec<bool> = combine_marks(&marks, *negated, mask);
                            proof {
                                let p = pattern_text(c@, **pattern, t@);
                                let texts = kept_texts(**expr, t@)->0;
                                assert(out@ =~= Seq::new(
                                    mask@.len(),
                                    |k: int| mask@[k] && column_text_fits(texts[k], p) != *negated,
                                ));
                            }
                            return Ok(out);
                        }
                    },
                    None => {},
                },
                None => {},
            }
            keep_like(c, expr, pattern, *negated, t, mask)
        },
        _ => keep_true(c, e, t, mask),
    }
}

/// A mask that may be longer than the table, narrowed by a condition: what
/// stands behind the rows of the table stays.
pub open spec fn narrowed_head<
    F: Fn(FloatOp, u64, u64) -> u64,
    P: Fn(&str) -> Option<u64>,
>(c: Env<F, P>, e: Expr2, t: Held, mask: Seq<bool>) -> Result<Seq<bool>, Fail> {
    let n = t.row_count as int;
    match narrowed(c, e, t, mask.take(n)) {
        Ok(m) => Ok(m + mask.skip(n)),
        Err(f) => Err(f),
    }
}

/// Narrows a mask by a condition.
pub fn eval_bool_mask_vec<
    F: Fn(FloatOp, u64, u64) -> u64,
    P: Fn(&str) -> Option<u64>,
    S: Fn(&Expr2, &ExecTable, usize) -> Result<Value2, Error>,
>(c: &Ctx<'_, F, P, S>, e: &Expr2, t: &ExecTable, mask: &Vec<bool>) -> (r: Result<
    Vec<bool>,
    Error,
>)
    requires
        ctx_ok(*c),
        t.wf(),
        mask@.len() >= t.row_count,
    ensures
        mask_outcome(r) == narrowed_head(c@, *e, t@, mask@),
        mask@.len() == t.row_count ==> mask_outcome(r) == narrowed(c@, *e, t@, mask@),
        r matches Ok(m) ==> m@.len() == mask@.len(),
{
    let n: usize = t.row_count;
    if mask.len() == n {
        proof {
            assert(mask@.take(n as int) =~= mask@);
            conditions_only_narrow(c@, *e, t@, mask@);
            if let Ok(m) = narrowed(c@, *e, t@, mask@) {
                assert(m + mask@.skip(n as int) =~= m);
            }
        }
        return narrow_mask(c, e, t, mask);
    }
    let mut first: Vec<bool> = Vec::new();
    while first.len() < n
        invariant
            first@.len() <= n <= mask@.len(),
            first@ == mask@.take(first@.len() as int),
        decreases n - first.len(),
    {
        let i: usize = first.len();
        first.push(mask[i]);
        proof {
            assert(first@ =~= mask@.take(i + 1));
        }
    }
    match narrow_mask(c, e, t, &first) {
        Ok(m) => {
            let ghost head = m@;
            let mut out: Vec<bool> = m;
            while out.len() < mask.len()
                invariant
                    n <= out@.len() <= mask@.len(),
                    head.len() == n,
                    out@ == head + mask@.subrange(n as int, out@.len() as int),
                decreases mask.len() - out.len(),
            {
                let i: usize = out.len();
                out.push(mask[i]);
                proof {
                    assert(out@ =~= head + mask@.subrange(n as int, i + 1));
                }
            }
            proof {
                assert(out@ =~= head + mask@.skip(n as int));
            }
            Ok(out)
        },
        Err(f) => Err(f),
    }
}

proof fn lemma_true_rows_agree<
    F: Fn(FloatOp, u64, u64) -> u64,
    P: Fn(&str) -> Option<u64>,
>(c: Env<F, P>, e: Expr2, t: Held, a: Seq<bool>, b: Seq<bool>, n: nat)
    requires
        n <= a.len(),
        n <= b.len(),
        true_rows(c, e, t, a, n) is Ok,
        true_rows(c, e, t, b, n) is Ok,
    ensures
        true_rows(c, e, t, a, n)->Ok_0.len() == n,
        true_rows(c, e, t, b, n)->Ok_0.len() == n,
        forall|i: int|
            0 <= i < n && a[i] && b[i] ==> #[trigger] true_rows(c, e, t, a, n)->Ok_0[i] == true_rows(c, e, t, b, n)->Ok_0[i],
    decreases n,
{
    if n > 0 {
        lemma_true_rows_agree(c, e, t, a, b, (n - 1) as nat);
    }
}

proof fn lemma_like_rows_agree<
    F: Fn(FloatOp, u64, u64) -> u64,
    P: Fn(&str) -> Option<u64>,
>(c: Env<F, P>, e: Expr2, pattern: Expr2, negated: bool, t: Held, a: Seq<bool>, b: Seq<bool>, n: nat)
    requires
        n <= a.len(),
        n <= b.len(),
        like_rows(c, e, pattern, negated, t, a, n) is Ok,
        like_rows(c, e, pattern, negated, t, b, n) is Ok,
    ensures
        like_rows(c, e, pattern, negated, t, a, n)->Ok_0.len() == n,
        like_rows(c, e, pattern, negated, t, b, n)->Ok_0.len() == n,
        forall|i: int|
            0 <= i < n && a[i] && b[i] ==> #[trigger] like_rows(c, e, pattern, negated, t, a, n)->Ok_0[i] == like_rows(
                c,
                e,
                pattern,
                negated,
                t,
                b,
                n,
            )->Ok_0[i],
    decreases n,
{
    if n > 0 {
        lemma_like_rows_agree(c, e, pattern, negated, t, a, b, (n - 1) as nat);
    }
}

/// Two masks that a condition narrows agree on the rows that both held.
proof fn lemma_masks_agree<
    F: Fn(FloatOp, u64, u64) -> u64,
    P: Fn(&str) -> Option<u64>,
>(c: Env<F, P>, e: Expr2, t: Held, a: Seq<bool>, b: Seq<bool>)
    requires
        a.len() == b.len(),
        narrowed(c, e, t, a) is Ok,
        narrowed(c, e, t, b) is Ok,
    ensures
        forall|i: int|
            0 <= i < a.len() && a[i] && b[i] ==> #[trigger] narrowed(c, e, t, a)->Ok_0[i] == narrowed(c, e, t, b)->Ok_0[i],
    decreases e,
{
    let n = a.len();
    if true_rows(c, e, t, a, n) is Ok && true_rows(c, e, t, b, n) is Ok {
        lemma_true_rows_agree(c, e, t, a, b, n);
    }
    match e {
        Expr2::BinOp { op, left, right } => {
            if op == BinOp2::And {
                lemma_masks_agree(c, *left, t, a, b);
                conditions_only_narrow(c, *left, t, a);
                conditions_only_narrow(c, *left, t, b);
                let x = narrowed(c, *left, t, a)->Ok_0;
                let y = narrowed(c, *left, t, b)->Ok_0;
                lemma_masks_agree(c, *right, t, x, y);
                conditions_only_narrow(c, *right, t, x);
                conditions_only_narrow(c, *right, t, y);
            }
        },
        Expr2::Like { expr, pattern, negated } => {
            if like_rows(c, *expr, *pattern, negated, t, a, n) is Ok && like_rows(c, *expr, *pattern, negated, t, b, n) is Ok {
                lemma_like_rows_agree(c, *expr, *pattern, negated, t, a, b, n);
            }
        },
        _ => {},
    }
}

/// A mask narrowed by a condition is the old mask and the full mask narrowed by
/// it, together.
pub proof fn narrowing_is_a_conjunction<
    F: Fn(FloatOp, u64, u64) -> u64,
    P: Fn(&str) -> Option<u64>,
>(c: Env<F, P>, e: Expr2, t: Held, mask: Seq<bool>)
    requires
        narrowed(c, e, t, mask) is Ok,
        narrowed(c, e, t, all_in(mask.len())) is Ok,
    ensures
        narrowed(c, e, t, mask)->Ok_0.len() == mask.len(),
        forall|i: int|
            0 <= i < mask.len() ==> #[trigger] narrowed(c, e, t, mask)->Ok_0[i] == (mask[i] && narrowed(
                c,
                e,
                t,
                all_in(mask.len()),
            )->Ok_0[i]),
{
    conditions_only_narrow(c, e, t, mask);
    lemma_masks_agree(c, e, t, mask, all_in(mask.len()));
}

/// Marks the rows on which a condition is true.
pub fn build_mask<
    F: Fn(FloatOp, u64, u64) -> u64,
    P: Fn(&str) -> Option<u64>,
    S: Fn(&Expr2, &ExecTable, usize) -> Result<Value2, Error>,
>(c: &Ctx<'_, F, P, S>, e: &Expr2, t: &ExecTable) -> (r: Result<Vec<bool>, Error>)
    requires
        ctx_ok(*c),
        t.wf(),
    ensures
        mask_outcome(r) == narrowed(c@, *e, t@, all_in(t.row_count as nat)),
        r matches Ok(m) ==> m@.len() == t.row_count,
{
    let all: Vec<bool> = full_mask(t.row_count);
    narrow_mask(c, e, t, &all)
}

/// Where every branch has two conditions, the choice between pairs is what the
/// branches say one by one: a row passes if it passes one of them.
pub proof fn pair_choice_means_its_branches(e: Expr2, t: Held, a: usize, b: usize, x: u64, y: u64)
    requires
        pair_columns(e, t) == Some((a, b)),
        forall|i: int|
            0 <= i < flat(e, BinOp2::Or).len() ==> flat(#[trigger] flat(e, BinOp2::Or)[i], BinOp2::And).len() == 2,
    ensures
        is_pair(e, t, a, b, x, y) <==> exists|i: int|
            0 <= i < flat(e, BinOp2::Or).len() && branch_holds(#[trigger] flat(e, BinOp2::Or)[i], t, a, b, x, y),
{
    let branches = flat(e, BinOp2::Or);
    assert forall|i: int| 0 <= i < branches.len() implies (branch_pair(#[trigger] branches[i], t, a, b) == Some((x, y)) <==> branch_holds(
        branches[i],
        t,
        a,
        b,
        x,
        y,
    )) by {
        let atoms = flat(branches[i], BinOp2::And);
        assert(branch_pair(branches[i], t, a, b) is Some);
        assert(atoms.len() == 2);
        reveal_with_fuel(last_hash, 3);
        assert(text_atom(atoms[0], t) is Some);
        assert(text_atom(atoms[1], t) is Some);
        if branch_holds(branches[i], t, a, b, x, y) {
            assert(atom_holds(atoms[0], t, a, b, x, y));
            assert(atom_holds(atoms[1], t, a, b, x, y));
        }
        if branch_pair(branches[i], t, a, b) == Some((x, y)) {
            assert forall|k: int| 0 <= k < atoms.len() implies atom_holds(#[trigger] atoms[k], t, a, b, x, y) by {
                assert(k == 0 || k == 1);
            }
        }
    }
    if is_pair(e, t, a, b, x, y) {
        let i = choose|i: int| 0 <= i < branches.len() && branch_pair(#[trigger] branches[i], t, a, b) == Some((x, y));
        assert(branch_holds(branches[i], t, a, b, x, y));
    }
    if exists|i: int| 0 <= i < branches.len() && branch_holds(#[trigger] branches[i], t, a, b, x, y) {
        let i = choose|i: int| 0 <= i < branches.len() && branch_holds(#[trigger] branches[i], t, a, b, x, y);
        assert(branch_pair(branches[i], t, a, b) == Some((x, y)));
    }
}

/// A condition that a column equals a text holds of two cells.
pub open spec fn atom_holds(e: Expr2, t: Held, a: usize, b: usize, x: u64, y: u64) -> bool {
    text_atom(e, t) matches Some((col, h)) && (if col == a {
        x == h
    } else {
        col == b && y == h
    })
}

/// All conditions of a branch hold of two cells.
pub open spec fn branch_holds(e: Expr2, t: Held, a: usize, b: usize, x: u64, y: u64) -> bool {
    forall|k: int|
        0 <= k < flat(e, BinOp2::And).len() ==> atom_holds(#[trigger] flat(e, BinOp2::And)[k], t, a, b, x, y)
}

} // verus!
