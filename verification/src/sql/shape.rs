//! The shapes of expressions.

use crate::float_bits::{float_eq, same, ONE_BITS};
use crate::sql::ast::{BinOp2, ColType, Expr2, SelectItem2};
use crate::sql::exec_table::{ExecTable, Held};
use vstd::prelude::*;

verus! {

/// The innermost parts of an expression, from left to right: columns, literals,
/// aggregates, and whatever holds a query.
pub open spec fn leaves(e: Expr2) -> Seq<Expr2>
    decreases e, 0int,
{
    match e {
        Expr2::BinOp { op, left, right } => leaves(*left) + leaves(*right),
        Expr2::Case { whens, else_ } => leaves_of_whens(whens, whens@.len()) + (match else_ {
            Some(x) => leaves(*x),
            None => Seq::empty(),
        }),
        Expr2::Like { expr, pattern, negated } => leaves(*expr) + leaves(*pattern),
        Expr2::Between { expr, low, high, negated } => leaves(*expr) + leaves(*low) + leaves(*high),
        Expr2::InList { expr, list, negated } => leaves(*expr) + leaves_of_list(list, list@.len()),
        Expr2::Neg(x) => leaves(*x),
        Expr2::Not(x) => leaves(*x),
        Expr2::Extract { field, expr } => leaves(*expr),
        Expr2::Substr { expr, start, len } => leaves(*expr) + leaves(*start) + leaves(*len),
        other => seq![other],
    }
}

pub open spec fn leaves_of_list(list: Vec<Expr2>, n: nat) -> Seq<Expr2>
    decreases list, n,
{
    if n == 0 || n > list@.len() {
        Seq::empty()
    } else {
        leaves_of_list(list, (n - 1) as nat) + leaves(list@[n - 1])
    }
}

pub open spec fn leaves_of_whens(whens: Vec<(Expr2, Expr2)>, n: nat) -> Seq<Expr2>
    decreases whens, n,
{
    if n == 0 || n > whens@.len() {
        Seq::empty()
    } else {
        leaves_of_whens(whens, (n - 1) as nat) + leaves(whens@[n - 1].0) + leaves(whens@[n - 1].1)
    }
}

/// What references refer to.
pub open spec fn referents(refs: Seq<&Expr2>) -> Seq<Expr2> {
    Seq::new(refs.len(), |i: int| *refs[i])
}

fn add_leaves<'a>(e: &'a Expr2, out: &mut Vec<&'a Expr2>)
    ensures
        referents(final(out)@) == referents(old(out)@) + leaves(*e),
    decreases *e, 0int,
{
    let ghost start = out@;
    match e {
        Expr2::BinOp { left, right, .. } => {
            add_leaves(left, out);
            add_leaves(right, out);
            proof {
                assert(referents(out@) =~= referents(start) + leaves(*e));
            }
        },
        Expr2::Case { whens, else_ } => {
            add_leaves_of_whens(whens, out);
            match else_ {
                Some(x) => {
                    add_leaves(x, out);
                },
                None => {},
            }
            proof {
                assert(referents(out@) =~= referents(start) + leaves(*e));
            }
        },
        Expr2::Like { expr, pattern, .. } => {
            add_leaves(expr, out);
            add_leaves(pattern, out);
            proof {
                assert(referents(out@) =~= referents(start) + leaves(*e));
            }
        },
        Expr2::Between { expr, low, high, .. } => {
            add_leaves(expr, out);
            add_leaves(low, out);
            add_leaves(high, out);
            proof {
                assert(referents(out@) =~= referents(start) + leaves(*e));
            }
        },
        Expr2::InList { expr, list, .. } => {
            add_leaves(expr, out);
            add_leaves_of_list(list, out);
            proof {
                assert(referents(out@) =~= referents(start) + leaves(*e));
            }
        },
        Expr2::Neg(x) => {
            add_leaves(x, out);
        },
        Expr2::Not(x) => {
            add_leaves(x, out);
        },
        Expr2::Extract { expr, .. } => {
            add_leaves(expr, out);
        },
        Expr2::Substr { expr, start: from, len } => {
            add_leaves(expr, out);
            add_leaves(from, out);
            add_leaves(len, out);
            proof {
                assert(referents(out@) =~= referents(start) + leaves(*e));
            }
        },
        _ => {
            out.push(e);
            proof {
                assert(leaves(*e) == seq![*e]);
                assert(referents(out@) =~= referents(start) + leaves(*e));
            }
        },
    }
}

fn add_leaves_of_list<'a>(list: &'a Vec<Expr2>, out: &mut Vec<&'a Expr2>)
    ensures
        referents(final(out)@) == referents(old(out)@) + leaves_of_list(*list, list@.len()),
    decreases *list, 1int,
{
    let ghost start = out@;
    let mut k: usize = 0;
    proof {
        assert(referents(out@) =~= referents(start) + leaves_of_list(*list, 0));
    }
    while k < list.len()
        invariant
            k <= list@.len(),
            referents(out@) == referents(start) + leaves_of_list(*list, k as nat),
        decreases list.len() - k,
    {
        add_leaves(&list[k], out);
        k = k + 1;
        proof {
            assert(referents(out@) =~= referents(start) + leaves_of_list(*list, k as nat));
        }
    }
}

fn add_leaves_of_whens<'a>(whens: &'a Vec<(Expr2, Expr2)>, out: &mut Vec<&'a Expr2>)
    ensures
        referents(final(out)@) == referents(old(out)@) + leaves_of_whens(*whens, whens@.len()),
    decreases *whens, 1int,
{
    let ghost start = out@;
    let mut k: usize = 0;
    proof {
        assert(referents(out@) =~= referents(start) + leaves_of_whens(*whens, 0));
    }
    while k < whens.len()
        invariant
            k <= whens@.len(),
            referents(out@) == referents(start) + leaves_of_whens(*whens, k as nat),
        decreases whens.len() - k,
    {
        add_leaves(&whens[k].0, out);
        add_leaves(&whens[k].1, out);
        k = k + 1;
        proof {
            assert(referents(out@) =~= referents(start) + leaves_of_whens(*whens, k as nat));
        }
    }
}

/// Lists the innermost parts of an expression.
pub fn list_leaves<'a>(e: &'a Expr2) -> (r: Vec<&'a Expr2>)
    ensures
        referents(r@) == leaves(*e),
{
    let mut out: Vec<&'a Expr2> = Vec::new();
    add_leaves(e, &mut out);
    proof {
        assert(referents(out@) =~= leaves(*e));
    }
    out
}

pub open spec fn is_agg(e: Expr2) -> bool {
    e is Agg || e is CountStar
}

/// Whether an expression holds an aggregate outside the queries in it.
pub open spec fn has_aggregate(e: Expr2) -> bool {
    exists|i: int| 0 <= i < leaves(e).len() && is_agg(#[trigger] leaves(e)[i])
}

pub open spec fn is_row_bound(e: Expr2) -> bool {
    e is Col || e is Subquery || e is Exists || e is InSubquery
}

/// Whether the value of an expression may differ from row to row. A query in it
/// may refer to the row.
pub open spec fn varies(e: Expr2) -> bool {
    exists|i: int| 0 <= i < leaves(e).len() && is_row_bound(#[trigger] leaves(e)[i])
}

pub fn expr_has_agg(e: &Expr2) -> (b: bool)
    ensures
        b == has_aggregate(*e),
{
    let v: Vec<&Expr2> = list_leaves(e);
    let mut i: usize = 0;
    while i < v.len()
        invariant
            i <= v.len(),
            referents(v@) == leaves(*e),
            forall|k: int| 0 <= k < i ==> !is_agg(#[trigger] leaves(*e)[k]),
        decreases v.len() - i,
    {
        proof {
            assert(referents(v@)[i as int] == leaves(*e)[i as int]);
        }
        match v[i] {
            Expr2::Agg { .. } => {
                return true;
            },
            Expr2::CountStar => {
                return true;
            },
            _ => {},
        }
        i = i + 1;
    }
    proof {
        assert(v@.len() == referents(v@).len());
    }
    false
}

/// Whether an expression holds column references.
pub fn expr_has_col(e: &Expr2) -> (b: bool)
    ensures
        b == varies(*e),
{
    let v: Vec<&Expr2> = list_leaves(e);
    let mut i: usize = 0;
    while i < v.len()
        invariant
            i <= v.len(),
            referents(v@) == leaves(*e),
            forall|k: int| 0 <= k < i ==> !is_row_bound(#[trigger] leaves(*e)[k]),
        decreases v.len() - i,
    {
        proof {
            assert(referents(v@)[i as int] == leaves(*e)[i as int]);
        }
        match v[i] {
            Expr2::Col(_) => {
                return true;
            },
            Expr2::Subquery(_) => {
                return true;
            },
            Expr2::Exists { .. } => {
                return true;
            },
            Expr2::InSubquery { .. } => {
                return true;
            },
            _ => {},
        }
        i = i + 1;
    }
    proof {
        assert(v@.len() == referents(v@).len());
    }
    false
}

/// Whether one of the selected items holds an aggregate.
pub fn has_agg(select: &Vec<SelectItem2>) -> (b: bool)
    ensures
        b == exists|i: int| 0 <= i < select@.len() && has_aggregate((#[trigger] select@[i]).expr),
{
    let mut i: usize = 0;
    while i < select.len()
        invariant
            i <= select@.len(),
            forall|k: int| 0 <= k < i ==> !has_aggregate((#[trigger] select@[k]).expr),
        decreases select.len() - i,
    {
        if expr_has_agg(&select[i].expr) {
            return true;
        }
        i = i + 1;
    }
    false
}

/// The column that an expression is.
pub open spec fn column_of(e: Expr2, t: Held) -> Option<usize> {
    match e {
        Expr2::Col(name) => t.number(name@),
        _ => None,
    }
}

/// The expression is the literal one.
pub open spec fn is_one(e: Expr2) -> bool {
    match e {
        Expr2::Int(i) => i == 1,
        Expr2::Float(b) => float_eq(b, ONE_BITS),
        _ => false,
    }
}

/// The column `c` where the expression is `1 - c`.
pub open spec fn one_minus(e: Expr2, t: Held) -> Option<usize> {
    match e {
        Expr2::BinOp { op, left, right } => if op == BinOp2::Sub && is_one(*left) {
            column_of(*right, t)
        } else {
            None
        },
        _ => None,
    }
}

/// The column `c` where the expression is `1 + c`.
pub open spec fn one_plus(e: Expr2, t: Held) -> Option<usize> {
    match e {
        Expr2::BinOp { op, left, right } => if op == BinOp2::Add && is_one(*left) {
            column_of(*right, t)
        } else {
            None
        },
        _ => None,
    }
}

pub open spec fn both(a: Option<usize>, b: Option<usize>) -> Option<(usize, usize)> {
    match (a, b) {
        (Some(x), Some(y)) => Some((x, y)),
        _ => None,
    }
}

/// One pair, or another where there is none.
pub open spec fn first_of(a: Option<(usize, usize)>, b: Option<(usize, usize)>) -> Option<(usize, usize)> {
    match a {
        Some(p) => Some(p),
        None => b,
    }
}

/// The columns `a` and `b` of `a * (1 - b)` or `(1 - b) * a`.
pub open spec fn times_one_minus(e: Expr2, t: Held) -> Option<(usize, usize)> {
    match e {
        Expr2::BinOp { op, left, right } => if op == BinOp2::Mul {
            first_of(
                both(column_of(*left, t), one_minus(*right, t)),
                both(column_of(*right, t), one_minus(*left, t)),
            )
        } else {
            None
        },
        _ => None,
    }
}

/// The columns of `(1 - b) * (1 + c)`, in either order.
pub open spec fn minus_times_plus(e: Expr2, t: Held) -> Option<(usize, usize)> {
    match e {
        Expr2::BinOp { op, left, right } => if op == BinOp2::Mul {
            first_of(
                both(one_minus(*left, t), one_plus(*right, t)),
                both(one_minus(*right, t), one_plus(*left, t)),
            )
        } else {
            None
        },
        _ => None,
    }
}

/// The columns exist.
pub open spec fn within(p: Option<(usize, usize)>, t: Held) -> bool {
    p matches Some((a, b)) ==> a < t.columns.len() && b < t.columns.len()
}

pub fn col_in(e: &Expr2, t: &ExecTable) -> (r: Option<usize>)
    ensures
        r == column_of(*e, t@),
        t.wf() ==> (r matches Some(i) ==> i < t.columns.len()),
{
    match e {
        Expr2::Col(name) => t.lookup_col(name.as_str()),
        _ => None,
    }
}

fn literal_one(e: &Expr2) -> (b: bool)
    ensures
        b == is_one(*e),
{
    match e {
        Expr2::Int(i) => *i == 1,
        Expr2::Float(b) => same(*b, ONE_BITS),
        _ => false,
    }
}

/// Detects `1 - c`.
pub fn col_in_sub_one_right(e: &Expr2, t: &ExecTable) -> (r: Option<usize>)
    ensures
        r == one_minus(*e, t@),
        t.wf() ==> (r matches Some(i) ==> i < t.columns.len()),
{
    match e {
        Expr2::BinOp { op, left, right } => if *op == BinOp2::Sub && literal_one(left) {
            col_in(right, t)
        } else {
            None
        },
        _ => None,
    }
}

/// Detects `1 + c`.
pub fn col_in_add_one_right(e: &Expr2, t: &ExecTable) -> (r: Option<usize>)
    ensures
        r == one_plus(*e, t@),
        t.wf() ==> (r matches Some(i) ==> i < t.columns.len()),
{
    match e {
        Expr2::BinOp { op, left, right } => if *op == BinOp2::Add && literal_one(left) {
            col_in(right, t)
        } else {
            None
        },
        _ => None,
    }
}

fn pair_up(a: Option<usize>, b: Option<usize>) -> (r: Option<(usize, usize)>)
    ensures
        r == both(a, b),
{
    match (a, b) {
        (Some(x), Some(y)) => Some((x, y)),
        _ => None,
    }
}

/// Detects `a * (1 - b)` and `(1 - b) * a`.
pub fn col_in_mul_sub_one(e: &Expr2, t: &ExecTable) -> (r: Option<(usize, usize)>)
    ensures
        r == times_one_minus(*e, t@),
        t.wf() ==> within(r, t@),
{
    match e {
        Expr2::BinOp { op, left, right } => if *op == BinOp2::Mul {
            match pair_up(col_in(left, t), col_in_sub_one_right(right, t)) {
                Some(p) => Some(p),
                None => pair_up(col_in(right, t), col_in_sub_one_right(left, t)),
            }
        } else {
            None
        },
        _ => None,
    }
}

/// Detects `(1 - b) * (1 + c)`.
pub fn col_in_mul_sub_one_add_one(e: &Expr2, t: &ExecTable) -> (r: Option<(usize, usize)>)
    ensures
        r == minus_times_plus(*e, t@),
        t.wf() ==> within(r, t@),
{
    match e {
        Expr2::BinOp { op, left, right } => if *op == BinOp2::Mul {
            match pair_up(col_in_sub_one_right(left, t), col_in_add_one_right(right, t)) {
                Some(p) => Some(p),
                None => pair_up(col_in_sub_one_right(right, t), col_in_add_one_right(left, t)),
            }
        } else {
            None
        },
        _ => None,
    }
}

/// Whether a column holds doubles.
pub open spec fn is_double(t: Held, c: usize) -> bool {
    t.col_types[c as int] == ColType::Float
}

} // verus!
