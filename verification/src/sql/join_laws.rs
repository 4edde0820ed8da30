//! Which rows a join pairs, and what the paired rows hold.

use crate::error::Fail;
use crate::float_bits::FloatOp;
use crate::sql::ast::{BinOp2, Expr2, JoinType2};
use crate::sql::eval::{value_of, Env};
use crate::sql::exec_table::Held;
use crate::sql::joins::{
    all_pairs, crossed, direct_key, direct_keys, equates_columns, join_outcome, joined, key_cells,
    key_pairs, key_pairs_match, keys_equal, lemma_rows_with, left_columns, on_keys, on_others, on_pairs, on_pairs_of, other_conditions,
    pair_passes, pair_value, pairs_by_left, pairs_by_right, pairs_of_left, pairs_of_right, product, refers_to,
    right_columns, rows_with, side_by_side, JoinKey2,
};
use crate::sql::masks::flat;
use crate::sql::value::is_true;
use vstd::prelude::*;

verus! {

/// A left row with a right row, or alone.
pub type Pair = (usize, Option<usize>);

/// The columns that a condition equates, one of the left table and one of the right.
pub open spec fn equated(e: Expr2, l: Held, r: Held) -> Option<(usize, usize)> {
    match e {
        Expr2::BinOp { op, left, right } => match (op, *left, *right) {
            (BinOp2::Eq, Expr2::Col(x), Expr2::Col(y)) => match (l.number(x@), r.number(y@)) {
                (Some(i), Some(j)) => Some((i, j)),
                _ => match (l.number(y@), r.number(x@)) {
                    (Some(i), Some(j)) => Some((i, j)),
                    _ => None,
                },
            },
            _ => None,
        },
        _ => None,
    }
}

/// The condition is the equality of two names.
pub open spec fn equates_names(e: Expr2) -> bool {
    match e {
        Expr2::BinOp { op, left, right } => op == BinOp2::Eq && *left is Col && *right is Col,
        _ => false,
    }
}

/// The condition is true of a pair of rows: the cells that it equates are equal, or else
/// its value is true. The equality of two names that are not one of each table says
/// nothing.
pub open spec fn part_met<F: Fn(FloatOp, u64, u64) -> u64, P: Fn(&str) -> Option<u64>>(
    c: Env<F, P>,
    e: Expr2,
    l: Held,
    a: usize,
    r: Held,
    b: usize,
) -> bool {
    match equated(e, l, r) {
        Some((i, j)) => l.columns[i as int][a as int] == r.columns[j as int][b as int],
        None => equates_names(e) || (pair_value(c, e, l, a, r, b) matches Ok(v) && is_true(v)),
    }
}

/// Every part of a conjunction is true of a pair of rows.
pub open spec fn all_met<F: Fn(FloatOp, u64, u64) -> u64, P: Fn(&str) -> Option<u64>>(
    c: Env<F, P>,
    e: Expr2,
    l: Held,
    a: usize,
    r: Held,
    b: usize,
) -> bool
    decreases e,
{
    match e {
        Expr2::BinOp { op, left, right } => if op == BinOp2::And {
            all_met(c, *left, l, a, r, b) && all_met(c, *right, l, a, r, b)
        } else {
            part_met(c, e, l, a, r, b)
        },
        _ => part_met(c, e, l, a, r, b),
    }
}

/// Some part of a conjunction equates a column of each table.
pub open spec fn some_equated(e: Expr2, l: Held, r: Held) -> bool
    decreases e,
{
    match e {
        Expr2::BinOp { op, left, right } => if op == BinOp2::And {
            some_equated(*left, l, r) || some_equated(*right, l, r)
        } else {
            equated(e, l, r) is Some
        },
        _ => false,
    }
}

/// The left row has the condition met with no right row.
pub open spec fn unmatched<F: Fn(FloatOp, u64, u64) -> u64, P: Fn(&str) -> Option<u64>>(
    c: Env<F, P>,
    on: Expr2,
    l: Held,
    a: usize,
    r: Held,
) -> bool {
    forall|b: usize| b < r.row_count ==> !#[trigger] all_met(c, on, l, a, r, b)
}

/// One pair stands before another: by the left row, then by the right.
pub open spec fn pair_before(x: Pair, y: Pair) -> bool {
    x.0 < y.0 || (x.0 == y.0 && (x.1 matches Some(b) && y.1 matches Some(d) && b < d))
}

/// Every pair comes once, by the left row and then by the right.
pub open spec fn pairs_ascend(pairs: Seq<Pair>) -> bool {
    forall|i: int, j: int| 0 <= i < j < pairs.len() ==> pair_before(#[trigger] pairs[i], #[trigger] pairs[j])
}

/// The table holds, row by row, the cells of the paired rows, those of the left table
/// first; zero where a left row stands alone.
pub open spec fn holds_pairs(t: Held, l: Held, r: Held, pairs: Seq<Pair>) -> bool {
    &&& t.row_count == pairs.len()
    &&& t.columns.len() == l.columns.len() + r.columns.len()
    &&& forall|k: int, i: int|
        0 <= k < l.columns.len() && 0 <= i < pairs.len() ==> #[trigger] t.columns[k][i]
            == l.columns[k][pairs[i].0 as int]
    &&& forall|k: int, i: int|
        l.columns.len() <= k < t.columns.len() && 0 <= i < pairs.len() ==> #[trigger] t.columns[k][i] == (
        match pairs[i].1 {
            Some(b) => r.columns[k - l.columns.len()][b as int],
            None => 0,
        })
}

/// The pairs are those of the rows of the two tables that meet a condition and, in a left
/// join, the left rows that meet it with none.
pub open spec fn pairs_by_condition<F: Fn(FloatOp, u64, u64) -> u64, P: Fn(&str) -> Option<u64>>(
    c: Env<F, P>,
    on: Expr2,
    l: Held,
    r: Held,
    jt: JoinType2,
    pairs: Seq<Pair>,
) -> bool {
    &&& forall|a: usize, b: usize| #[trigger]
        pairs.contains((a, Some(b))) <==> a < l.row_count && b < r.row_count && all_met(c, on, l, a, r, b)
    &&& forall|a: usize| #[trigger]
        pairs.contains((a, None)) <==> a < l.row_count && jt == JoinType2::Left && unmatched(c, on, l, a, r)
}

proof fn lemma_passes<F: Fn(FloatOp, u64, u64) -> u64, P: Fn(&str) -> Option<u64>>(
    c: Env<F, P>,
    es: Seq<Expr2>,
    k: nat,
    l: Held,
    a: usize,
    r: Held,
    b: usize,
)
    requires
        k <= es.len(),
    ensures
        pair_passes(c, es, k, l, a, r, b) == Ok::<bool, Fail>(true) <==> (forall|i: int|
            k <= i < es.len() ==> (pair_value(c, #[trigger] es[i], l, a, r, b) matches Ok(v) && is_true(v))),
    decreases es.len() - k,
{
    if k < es.len() {
        lemma_passes(c, es, k + 1, l, a, r, b);
        if pair_passes(c, es, k, l, a, r, b) == Ok::<bool, Fail>(true) {
            assert forall|i: int| k <= i < es.len() implies (pair_value(c, #[trigger] es[i], l, a, r, b) matches Ok(v)
                && is_true(v)) by {
                if i > k {
                    assert(k + 1 <= i);
                }
            }
        }
        if forall|i: int|
            k <= i < es.len() ==> (pair_value(c, #[trigger] es[i], l, a, r, b) matches Ok(v) && is_true(v)) {
            assert(pair_value(c, es[k as int], l, a, r, b) matches Ok(v) && is_true(v));
        }
    }
}

proof fn lemma_row_pairs<F: Fn(FloatOp, u64, u64) -> u64, P: Fn(&str) -> Option<u64>>(
    c: Env<F, P>,
    keys: Seq<JoinKey2>,
    es: Seq<Expr2>,
    l: Held,
    a: usize,
    r: Held,
    n: nat,
)
    requires
        n <= usize::MAX,
    ensures
        on_pairs_of(c, keys, es, l, a, r, n) matches Ok(s) ==> {
            &&& forall|x: usize, b: usize| #[trigger]
                s.contains((x, Some(b))) <==> x == a && b < n && keys_equal(keys, l, a as int, r, b as int)
                    && pair_passes(c, es, 0, l, a, r, b) == Ok::<bool, Fail>(true)
            &&& forall|i: int|
                0 <= i < s.len() ==> (#[trigger] s[i]).0 == a && (s[i].1 matches Some(b) && b < n)
            &&& pairs_ascend(s)
        },
    decreases n,
{
    if n > 0 {
        lemma_row_pairs(c, keys, es, l, a, r, (n - 1) as nat);
        let m = (n - 1) as usize;
        match on_pairs_of(c, keys, es, l, a, r, (n - 1) as nat) {
            Ok(before) => {
                match on_pairs_of(c, keys, es, l, a, r, n) {
                    Ok(s) => {
                        let hit = keys_equal(keys, l, a as int, r, n - 1) && pair_passes(c, es, 0, l, a, r, m)
                            == Ok::<bool, Fail>(true);
                        assert(s == if hit {
                            before.push((a, Some(m)))
                        } else {
                            before
                        });
                        assert forall|x: usize, b: usize| #[trigger]
                            s.contains((x, Some(b))) <==> x == a && b < n && keys_equal(keys, l, a as int, r, b as int)
                                && pair_passes(c, es, 0, l, a, r, b) == Ok::<bool, Fail>(true) by {
                            let y: Pair = (x, Some(b));
                            if before.contains(y) {
                                let i = choose|i: int| 0 <= i < before.len() && before[i] == y;
                                assert(s[i] == y);
                            }
                            if s.contains(y) {
                                let i = choose|i: int| 0 <= i < s.len() && s[i] == y;
                                if i < before.len() {
                                    assert(before[i] == y);
                                    assert(before.contains(y));
                                }
                            }
                            if hit {
                                assert(s[before.len() as int] == (a, Some(m)));
                            }
                        }
                        assert forall|i: int| 0 <= i < s.len() implies (#[trigger] s[i]).0 == a && (s[i].1 matches Some(
                            b,
                        ) && b < n) by {
                            if i < before.len() {
                                assert(s[i] == before[i]);
                            }
                        }
                        assert forall|i: int, j: int| 0 <= i < j < s.len() implies pair_before(
                            #[trigger] s[i],
                            #[trigger] s[j],
                        ) by {
                            assert(s[i] == before[i]);
                            if j < before.len() {
                                assert(s[j] == before[j]);
                            }
                        }
                    },
                    Err(_) => {},
                }
            },
            Err(_) => {},
        }
    }
}

/// The pairs of the first `n` left rows that meet keys and further conditions.
spec fn met_by<F: Fn(FloatOp, u64, u64) -> u64, P: Fn(&str) -> Option<u64>>(
    c: Env<F, P>,
    keys: Seq<JoinKey2>,
    es: Seq<Expr2>,
    l: Held,
    a: usize,
    r: Held,
    b: usize,
) -> bool {
    keys_equal(keys, l, a as int, r, b as int) && pair_passes(c, es, 0, l, a, r, b) == Ok::<bool, Fail>(true)
}

proof fn lemma_pairs<F: Fn(FloatOp, u64, u64) -> u64, P: Fn(&str) -> Option<u64>>(
    c: Env<F, P>,
    keys: Seq<JoinKey2>,
    es: Seq<Expr2>,
    l: Held,
    r: Held,
    jt: JoinType2,
    n: nat,
)
    requires
        n <= usize::MAX,
        0 <= r.row_count <= usize::MAX,
    ensures
        on_pairs(c, keys, es, l, r, jt, n) matches Ok(s) ==> {
            &&& forall|a: usize, b: usize| #[trigger]
                s.contains((a, Some(b))) <==> a < n && b < r.row_count && met_by(c, keys, es, l, a, r, b)
            &&& forall|a: usize| #[trigger]
                s.contains((a, None)) <==> a < n && jt == JoinType2::Left && (forall|b: usize|
                    b < r.row_count ==> !#[trigger] met_by(c, keys, es, l, a, r, b))
            &&& forall|i: int| 0 <= i < s.len() ==> (#[trigger] s[i]).0 < n
            &&& pairs_ascend(s)
        },
    decreases n,
{
    if n > 0 {
        lemma_pairs(c, keys, es, l, r, jt, (n - 1) as nat);
        let m = (n - 1) as usize;
        lemma_row_pairs(c, keys, es, l, m, r, r.row_count as nat);
        match on_pairs(c, keys, es, l, r, jt, n) {
            Ok(s) => {
                let before = on_pairs(c, keys, es, l, r, jt, (n - 1) as nat)->Ok_0;
                let here = on_pairs_of(c, keys, es, l, m, r, r.row_count as nat)->Ok_0;
                let alone = here.len() == 0 && jt == JoinType2::Left;
                let tail: Seq<Pair> = if alone {
                    seq![(m, None)]
                } else {
                    here
                };
                assert(s =~= before + tail);
                assert forall|y: Pair| #[trigger] s.contains(y) <==> before.contains(y) || tail.contains(y) by {
                    if before.contains(y) {
                        let i = choose|i: int| 0 <= i < before.len() && before[i] == y;
                        assert(s[i] == y);
                    }
                    if tail.contains(y) {
                        let i = choose|i: int| 0 <= i < tail.len() && tail[i] == y;
                        assert(s[before.len() + i] == y);
                    }
                    if s.contains(y) {
                        let i = choose|i: int| 0 <= i < s.len() && s[i] == y;
                        if i < before.len() {
                            assert(before[i] == y);
                        } else {
                            assert(tail[i - before.len()] == y);
                        }
                    }
                }
                assert(alone ==> tail[0] == (m, None::<usize>));
                assert forall|a: usize, b: usize| #[trigger]
                    s.contains((a, Some(b))) <==> a < n && b < r.row_count && met_by(c, keys, es, l, a, r, b) by {
                    let y: Pair = (a, Some(b));
                    assert(before.contains(y) <==> a < n - 1 && b < r.row_count && met_by(c, keys, es, l, a, r, b));
                    assert(here.contains(y) <==> a == m && b < r.row_count && met_by(c, keys, es, l, m, r, b));
                    if here.contains(y) {
                        let i = choose|i: int| 0 <= i < here.len() && here[i] == y;
                        assert(here.len() > 0);
                    }
                    if alone && tail.contains(y) {
                        let i = choose|i: int| 0 <= i < tail.len() && tail[i] == y;
                        assert(tail[i] == (m, None::<usize>));
                    }
                }
                assert forall|a: usize| #[trigger]
                    s.contains((a, None)) <==> a < n && jt == JoinType2::Left && (forall|b: usize|
                        b < r.row_count ==> !#[trigger] met_by(c, keys, es, l, a, r, b)) by {
                    let y: Pair = (a, None);
                    if tail.contains(y) {
                        let i = choose|i: int| 0 <= i < tail.len() && tail[i] == y;
                        if !alone {
                            assert(here[i].1 is Some);
                        }
                        assert forall|b: usize| b < r.row_count implies !#[trigger] met_by(c, keys, es, l, a, r, b) by {
                            if met_by(c, keys, es, l, a, r, b) {
                                assert(here.contains((m, Some(b))));
                            }
                        }
                    }
                    if a == m && jt == JoinType2::Left && (forall|b: usize|
                        b < r.row_count ==> !#[trigger] met_by(c, keys, es, l, a, r, b)) {
                        if here.len() > 0 {
                            let b = here[0].1->Some_0;
                            assert(here[0] == (m, Some(b)));
                            assert(here.contains((m, Some(b))));
                            assert(met_by(c, keys, es, l, a, r, b));
                        }
                    }
                    if before.contains(y) {
                        assert(a < n - 1);
                    }
                }
                assert forall|i: int| 0 <= i < s.len() implies (#[trigger] s[i]).0 < n by {
                    if i < before.len() {
                        assert(s[i] == before[i]);
                    } else {
                        assert(s[i] == tail[i - before.len()]);
                        if !alone {
                            assert(here[i - before.len()].0 == m);
                        }
                    }
                }
                assert forall|i: int, j: int| 0 <= i < j < s.len() implies pair_before(
                    #[trigger] s[i],
                    #[trigger] s[j],
                ) by {
                    if j < before.len() {
                        assert(s[i] == before[i] && s[j] == before[j]);
                    } else {
                        assert(s[j] == tail[j - before.len()]);
                        if !alone {
                            assert(here[j - before.len()].0 == m);
                        }
                        if i < before.len() {
                            assert(s[i] == before[i]);
                            assert(before[i].0 < n - 1);
                        } else {
                            assert(s[i] == tail[i - before.len()]);
                            assert(!alone);
                            assert(pair_before(here[i - before.len()], here[j - before.len()]));
                        }
                    }
                }
            },
            Err(_) => {},
        }
    }
}

proof fn lemma_equated(e: Expr2, l: Held, r: Held)
    ensures
        match direct_key(e, l, r) {
            Some(k) => equated(e, l, r) == Some((k.left, k.right)) && equates_names(e),
            None => equated(e, l, r) is None,
        },
        equates_names(e) == equates_columns(e),
{
}

proof fn lemma_keys_equal(es: Seq<Expr2>, l: Held, r: Held, n: nat, a: int, b: int)
    requires
        n <= es.len(),
    ensures
        keys_equal(direct_keys(es, l, r, n), l, a, r, b) <==> (forall|i: int|
            0 <= i < n ==> (direct_key(#[trigger] es[i], l, r) matches Some(k) ==> l.columns[k.left as int][a]
                == r.columns[k.right as int][b])),
        direct_keys(es, l, r, n).len() > 0 <==> (exists|i: int|
            0 <= i < n && direct_key(#[trigger] es[i], l, r) is Some),
    decreases n,
{
    if n > 0 {
        lemma_keys_equal(es, l, r, (n - 1) as nat, a, b);
        let before = direct_keys(es, l, r, (n - 1) as nat);
        let now = direct_keys(es, l, r, n);
        match direct_key(es[n - 1], l, r) {
            Some(k) => {
                assert(now == before.push(k));
                if keys_equal(now, l, a, r, b) {
                    assert(keys_equal(before, l, a, r, b)) by {
                        assert forall|i: int| 0 <= i < before.len() implies l.columns[(#[trigger] before[i]).left as int][a]
                            == r.columns[before[i].right as int][b] by {
                            assert(now[i] == before[i]);
                        }
                    }
                    assert(now[before.len() as int] == k);
                }
                if keys_equal(before, l, a, r, b) && l.columns[k.left as int][a] == r.columns[k.right as int][b] {
                    assert forall|i: int| 0 <= i < now.len() implies l.columns[(#[trigger] now[i]).left as int][a]
                        == r.columns[now[i].right as int][b] by {
                        if i < before.len() {
                            assert(now[i] == before[i]);
                        }
                    }
                }
            },
            None => {},
        }
    }
}

proof fn lemma_others<F: Fn(FloatOp, u64, u64) -> u64, P: Fn(&str) -> Option<u64>>(
    c: Env<F, P>,
    es: Seq<Expr2>,
    n: nat,
    l: Held,
    a: usize,
    r: Held,
    b: usize,
)
    requires
        n <= es.len(),
    ensures
        (forall|i: int|
            0 <= i < other_conditions(es, n).len() ==> (pair_value(
                c,
                #[trigger] other_conditions(es, n)[i],
                l,
                a,
                r,
                b,
            ) matches Ok(v) && is_true(v))) <==> (forall|i: int|
            0 <= i < n ==> equates_columns(#[trigger] es[i]) || (pair_value(c, es[i], l, a, r, b) matches Ok(v)
                && is_true(v))),
    decreases n,
{
    if n > 0 {
        lemma_others(c, es, (n - 1) as nat, l, a, r, b);
        let before = other_conditions(es, (n - 1) as nat);
        let now = other_conditions(es, n);
        if !equates_columns(es[n - 1]) {
            assert(now == before.push(es[n - 1]));
            if forall|i: int|
                0 <= i < now.len() ==> (pair_value(c, #[trigger] now[i], l, a, r, b) matches Ok(v) && is_true(v)) {
                assert forall|i: int| 0 <= i < before.len() implies (pair_value(
                    c,
                    #[trigger] before[i],
                    l,
                    a,
                    r,
                    b,
                ) matches Ok(v) && is_true(v)) by {
                    assert(now[i] == before[i]);
                }
                assert(now[before.len() as int] == es[n - 1]);
            }
        }
    }
}

proof fn lemma_all_met<F: Fn(FloatOp, u64, u64) -> u64, P: Fn(&str) -> Option<u64>>(
    c: Env<F, P>,
    e: Expr2,
    l: Held,
    a: usize,
    r: Held,
    b: usize,
)
    ensures
        all_met(c, e, l, a, r, b) <==> (forall|i: int|
            0 <= i < flat(e, BinOp2::And).len() ==> part_met(c, #[trigger] flat(e, BinOp2::And)[i], l, a, r, b)),
        some_equated(e, l, r) <==> (exists|i: int|
            0 <= i < flat(e, BinOp2::And).len() && equated(#[trigger] flat(e, BinOp2::And)[i], l, r) is Some),
    decreases e,
{
    let parts = flat(e, BinOp2::And);
    match e {
        Expr2::BinOp { op, left, right } => {
            if op == BinOp2::And {
                lemma_all_met(c, *left, l, a, r, b);
                lemma_all_met(c, *right, l, a, r, b);
                let x = flat(*left, BinOp2::And);
                let y = flat(*right, BinOp2::And);
                assert(parts == x + y);
                assert forall|i: int| 0 <= i < x.len() implies parts[i] == #[trigger] x[i] by {}
                assert forall|i: int| 0 <= i < y.len() implies parts[x.len() + i] == #[trigger] y[i] by {}
                assert forall|i: int| 0 <= i < parts.len() implies #[trigger] parts[i] == (if i < x.len() {
                    x[i]
                } else {
                    y[i - x.len()]
                }) by {}
                if some_equated(e, l, r) {
                    if some_equated(*left, l, r) {
                        let i = choose|i: int| 0 <= i < x.len() && equated(#[trigger] x[i], l, r) is Some;
                        assert(equated(parts[i], l, r) is Some);
                    } else {
                        let i = choose|i: int| 0 <= i < y.len() && equated(#[trigger] y[i], l, r) is Some;
                        assert(equated(parts[x.len() + i], l, r) is Some);
                    }
                }
            } else {
                assert(parts =~= seq![e]);
                assert(parts[0] == e);
            }
        },
        _ => {
            assert(parts =~= seq![e]);
            assert(parts[0] == e);
        },
    }
}

proof fn lemma_met<F: Fn(FloatOp, u64, u64) -> u64, P: Fn(&str) -> Option<u64>>(
    c: Env<F, P>,
    on: Expr2,
    l: Held,
    a: usize,
    r: Held,
    b: usize,
)
    ensures
        met_by(c, on_keys(on, l, r), on_others(on), l, a, r, b) <==> all_met(c, on, l, a, r, b),
        on_keys(on, l, r).len() > 0 <==> some_equated(on, l, r),
{
    let es = flat(on, BinOp2::And);
    lemma_all_met(c, on, l, a, r, b);
    lemma_keys_equal(es, l, r, es.len(), a as int, b as int);
    lemma_others(c, es, es.len(), l, a, r, b);
    lemma_passes(c, on_others(on), 0, l, a, r, b);
    assert forall|i: int| 0 <= i < es.len() implies part_met(c, #[trigger] es[i], l, a, r, b) == ((direct_key(
        es[i],
        l,
        r,
    ) matches Some(k) ==> l.columns[k.left as int][a as int] == r.columns[k.right as int][b as int]) && (
    equates_columns(es[i]) || (pair_value(c, es[i], l, a, r, b) matches Ok(v) && is_true(v)))) by {
        lemma_equated(es[i], l, r);
    }
    assert(on_keys(on, l, r) == direct_keys(es, l, r, es.len()));
    if some_equated(on, l, r) {
        let i = choose|i: int| 0 <= i < es.len() && equated(#[trigger] es[i], l, r) is Some;
        lemma_equated(es[i], l, r);
        assert(direct_key(es[i], l, r) is Some);
    }
    if on_keys(on, l, r).len() > 0 {
        let i = choose|i: int| 0 <= i < es.len() && direct_key(#[trigger] es[i], l, r) is Some;
        lemma_equated(es[i], l, r);
        assert(equated(es[i], l, r) is Some);
    }
}

proof fn lemma_unmatched<F: Fn(FloatOp, u64, u64) -> u64, P: Fn(&str) -> Option<u64>>(
    c: Env<F, P>,
    on: Expr2,
    l: Held,
    a: usize,
    r: Held,
)
    ensures
        unmatched(c, on, l, a, r) <==> (forall|b: usize|
            b < r.row_count ==> !#[trigger] met_by(c, on_keys(on, l, r), on_others(on), l, a, r, b)),
{
    let keys = on_keys(on, l, r);
    let es = on_others(on);
    if unmatched(c, on, l, a, r) {
        assert forall|b: usize| b < r.row_count implies !#[trigger] met_by(c, keys, es, l, a, r, b) by {
            lemma_met(c, on, l, a, r, b);
            assert(!all_met(c, on, l, a, r, b));
        }
    } else {
        let b = choose|b: usize| b < r.row_count && #[trigger] all_met(c, on, l, a, r, b);
        lemma_met(c, on, l, a, r, b);
        assert(met_by(c, keys, es, l, a, r, b));
    }
}

proof fn lemma_condition_pairs<F: Fn(FloatOp, u64, u64) -> u64, P: Fn(&str) -> Option<u64>>(
    c: Env<F, P>,
    l: Held,
    r: Held,
    on: Expr2,
    jt: JoinType2,
    pairs: Seq<Pair>,
)
    requires
        0 <= l.row_count <= usize::MAX,
        0 <= r.row_count <= usize::MAX,
        on_pairs(c, on_keys(on, l, r), on_others(on), l, r, jt, l.row_count as nat) == Ok::<Seq<Pair>, Fail>(pairs),
    ensures
        pairs_by_condition(c, on, l, r, jt, pairs),
        pairs_ascend(pairs),
{
    let keys = on_keys(on, l, r);
    let es = on_others(on);
    lemma_pairs(c, keys, es, l, r, jt, l.row_count as nat);
    assert forall|a: usize, b: usize| #[trigger]
        pairs.contains((a, Some(b))) <==> a < l.row_count && b < r.row_count && all_met(c, on, l, a, r, b) by {
        lemma_met(c, on, l, a, r, b);
    }
    assert forall|a: usize| #[trigger]
        pairs.contains((a, None)) <==> a < l.row_count && jt == JoinType2::Left && unmatched(c, on, l, a, r) by {
        lemma_unmatched(c, on, l, a, r);
    }
}

/// A join on a condition that equates a column of each table pairs exactly the rows of
/// which every part of the condition is true, each pair once. A left join keeps, alone,
/// exactly the left rows that have no such pair.
pub proof fn join_pairs_rows_that_meet_the_condition<F: Fn(FloatOp, u64, u64) -> u64, P: Fn(&str) -> Option<u64>>(
    c: Env<F, P>,
    l: Held,
    r: Held,
    on: Expr2,
    jt: JoinType2,
)
    requires
        0 <= l.row_count <= usize::MAX,
        0 <= r.row_count <= usize::MAX,
        some_equated(on, l, r),
    ensures
        join_outcome(c, l, r, on, jt) matches Ok(t) ==> exists|pairs: Seq<Pair>| #[trigger]
            holds_pairs(t, l, r, pairs) && pairs_by_condition(c, on, l, r, jt, pairs) && pairs_ascend(pairs),
{
    lemma_met(c, on, l, 0, r, 0);
    match on_pairs(c, on_keys(on, l, r), on_others(on), l, r, jt, l.row_count as nat) {
        Ok(pairs) => {
            lemma_condition_pairs(c, l, r, on, jt, pairs);
            let t = joined(l, r, pairs);
            assert(holds_pairs(t, l, r, pairs));
            let o = join_outcome(c, l, r, on, jt);
            assert(o == Ok::<Held, Fail>(t));
            assert(holds_pairs(o->Ok_0, l, r, pairs) && pairs_by_condition(c, on, l, r, jt, pairs) && pairs_ascend(pairs));
        },
        Err(_) => {},
    }
}

/// The pairs are all those of one of `n` rows with one of `m`.
pub open spec fn are_all_pairs(pairs: Seq<Pair>, n: int, m: int) -> bool {
    forall|x: Pair| #[trigger] pairs.contains(x) <==> x.0 < n && (x.1 matches Some(b) && b < m)
}

/// Tables that no part of a condition ties together are joined by pairing every left row
/// with every right row, once each; so are tables without a condition.
pub proof fn crossed_tables_hold_every_pair(l: Held, r: Held)
    requires
        0 <= l.row_count <= usize::MAX,
        0 <= r.row_count <= usize::MAX,
    ensures
        crossed(l, r) is Ok <==> l.row_count * r.row_count <= usize::MAX,
        crossed(l, r) matches Ok(t) ==> exists|pairs: Seq<Pair>| #[trigger]
            holds_pairs(t, l, r, pairs) && pairs_ascend(pairs) && are_all_pairs(pairs, l.row_count, r.row_count),
{
    if l.row_count * r.row_count <= usize::MAX {
        let n = l.row_count;
        let m = r.row_count;
        let t = product(l, r);
        assert(n * m >= 0) by (nonlinear_arith)
            requires
                n >= 0,
                m >= 0,
        ;
        if n == 0 || m == 0 {
            let pairs = Seq::<Pair>::empty();
            let o = crossed(l, r)->Ok_0;
            assert(holds_pairs(o, l, r, pairs) && pairs_ascend(pairs) && are_all_pairs(pairs, n, m));
        } else {
            let pairs = all_pairs(n, m);
            assert forall|i: int| 0 <= i < pairs.len() implies i / m * m + i % m == i && 0 <= i % m < m && 0 <= i / m < n
                && #[trigger] pairs[i] == ((i / m) as usize, Some((i % m) as usize)) by {
                assert(i / m * m + i % m == i && 0 <= i % m < m && 0 <= i / m < n) by (nonlinear_arith)
                    requires
                        0 <= i < n * m,
                        m > 0,
                        n > 0,
                ;
            }
            assert(holds_pairs(t, l, r, pairs));
            assert forall|x: Pair| #[trigger]
                pairs.contains(x) <==> x.0 < n && (x.1 matches Some(b) && b < m) by {
                if x.0 < n && (x.1 matches Some(b) && b < m) {
                    let a = x.0 as int;
                    let b = x.1->Some_0 as int;
                    let i = a * m + b;
                    assert(0 <= i < n * m && i / m == a && i % m == b) by (nonlinear_arith)
                        requires
                            0 <= a < n,
                            0 <= b < m,
                            i == a * m + b,
                    ;
                    assert(pairs[i] == x);
                }
            }
            assert(pairs_ascend(pairs)) by {
                assert forall|i: int, j: int| 0 <= i < j < pairs.len() implies pair_before(
                    #[trigger] pairs[i],
                    #[trigger] pairs[j],
                ) by {
                    vstd::arithmetic::div_mod::lemma_fundamental_div_mod(i, m);
                    vstd::arithmetic::div_mod::lemma_fundamental_div_mod(j, m);
                    vstd::arithmetic::div_mod::lemma_div_is_ordered(i, j, m);
                }
            }
            let o = crossed(l, r)->Ok_0;
            assert(holds_pairs(o, l, r, pairs) && pairs_ascend(pairs) && are_all_pairs(pairs, n, m));
        }
    }
}

/// A condition that ties no columns of the two tables together does not narrow a join.
pub proof fn join_without_keys_is_a_product<F: Fn(FloatOp, u64, u64) -> u64, P: Fn(&str) -> Option<u64>>(
    c: Env<F, P>,
    l: Held,
    r: Held,
    on: Expr2,
    jt: JoinType2,
)
    requires
        !some_equated(on, l, r),
    ensures
        join_outcome(c, l, r, on, jt) == crossed(l, r),
{
    lemma_met(c, on, l, 0, r, 0);
}

/// The rows agree in every key.
pub open spec fn agree(keys: Seq<JoinKey2>, l: Held, a: usize, r: Held, b: usize) -> bool {
    forall|k: int|
        0 <= k < keys.len() ==> l.columns[(#[trigger] keys[k]).left as int][a as int]
            == r.columns[keys[k].right as int][b as int]
}

proof fn lemma_agree(keys: Seq<JoinKey2>, l: Held, a: usize, r: Held, b: usize)
    ensures
        agree(keys, l, a, r, b) <==> key_cells(l, left_columns(keys), a as int) == key_cells(
            r,
            right_columns(keys),
            b as int,
        ),
{
    let x = key_cells(l, left_columns(keys), a as int);
    let y = key_cells(r, right_columns(keys), b as int);
    if agree(keys, l, a, r, b) {
        assert forall|k: int| 0 <= k < x.len() implies x[k] == y[k] by {
            assert(l.columns[keys[k].left as int][a as int] == r.columns[keys[k].right as int][b as int]);
        }
        assert(x =~= y);
    }
    if x == y {
        assert forall|k: int| 0 <= k < keys.len() implies l.columns[(#[trigger] keys[k]).left as int][a as int]
            == r.columns[keys[k].right as int][b as int] by {
            assert(x[k] == y[k]);
        }
    }
}

proof fn lemma_found_ascend(t: Held, cols: Seq<usize>, cells: Seq<u64>, n: nat)
    requires
        n <= usize::MAX,
    ensures
        forall|i: int, j: int|
            0 <= i < j < rows_with(t, cols, cells, n).len() ==> #[trigger] rows_with(t, cols, cells, n)[i]
                < #[trigger] rows_with(t, cols, cells, n)[j],
        forall|i: int| 0 <= i < rows_with(t, cols, cells, n).len() ==> #[trigger] rows_with(t, cols, cells, n)[i] < n,
    decreases n,
{
    if n > 0 {
        lemma_found_ascend(t, cols, cells, (n - 1) as nat);
        let before = rows_with(t, cols, cells, (n - 1) as nat);
        let now = rows_with(t, cols, cells, n);
        assert forall|i: int| 0 <= i < now.len() implies #[trigger] now[i] < n by {
            if i < before.len() {
                assert(now[i] == before[i]);
            }
        }
        assert forall|i: int, j: int| 0 <= i < j < now.len() implies #[trigger] now[i] < #[trigger] now[j] by {
            assert(now[i] == before[i]);
            if j < before.len() {
                assert(now[j] == before[j]);
            }
        }
    }
}

proof fn lemma_left_once(l: Held, r: Held, keys: Seq<JoinKey2>, jt: JoinType2, n: nat)
    requires
        n <= usize::MAX,
        0 <= r.row_count <= usize::MAX,
    ensures
        pairs_by_left(l, r, keys, jt, n).no_duplicates(),
        forall|i: int|
            0 <= i < pairs_by_left(l, r, keys, jt, n).len() ==> (#[trigger] pairs_by_left(l, r, keys, jt, n)[i]).0 < n
                && (pairs_by_left(l, r, keys, jt, n)[i].1 matches Some(b) ==> b < r.row_count),
        forall|a: usize| #[trigger]
            pairs_by_left(l, r, keys, jt, n).contains((a, None)) <==> a < n && jt == JoinType2::Left && rows_with(
                r,
                right_columns(keys),
                key_cells(l, left_columns(keys), a as int),
                r.row_count as nat,
            ).len() == 0,
    decreases n,
{
    let now = pairs_by_left(l, r, keys, jt, n);
    if n > 0 {
        lemma_left_once(l, r, keys, jt, (n - 1) as nat);
        let before = pairs_by_left(l, r, keys, jt, (n - 1) as nat);
        let here = pairs_of_left(l, r, keys, jt, n - 1);
        let m = (n - 1) as usize;
        let found = rows_with(r, right_columns(keys), key_cells(l, left_columns(keys), n - 1), r.row_count as nat);
        lemma_found_ascend(r, right_columns(keys), key_cells(l, left_columns(keys), n - 1), r.row_count as nat);
        assert(now == before + here);
        assert forall|i: int| 0 <= i < here.len() implies (#[trigger] here[i]).0 == m && (here[i].1 matches Some(b) ==> b
            < r.row_count) by {
            if !(found.len() == 0 && jt == JoinType2::Left) {
                assert(here[i] == (m, Some(found[i])));
            }
        }
        assert forall|i: int| 0 <= i < now.len() implies (#[trigger] now[i]).0 < n && (now[i].1 matches Some(b) ==> b
            < r.row_count) by {
            if i < before.len() {
                assert(now[i] == before[i]);
            } else {
                assert(now[i] == here[i - before.len()]);
            }
        }
        assert forall|i: int, j: int| 0 <= i < j < now.len() implies now[i] != now[j] by {
            if j < before.len() {
                assert(now[i] == before[i] && now[j] == before[j]);
            } else {
                assert(now[j] == here[j - before.len()]);
                if i < before.len() {
                    assert(now[i] == before[i]);
                } else {
                    assert(now[i] == here[i - before.len()]);
                    assert(here.len() >= 2);
                    assert(found[i - before.len()] < found[j - before.len()]);
                }
            }
        }
        assert forall|a: usize| #[trigger]
            now.contains((a, None)) <==> a < n && jt == JoinType2::Left && rows_with(
                r,
                right_columns(keys),
                key_cells(l, left_columns(keys), a as int),
                r.row_count as nat,
            ).len() == 0 by {
            let y: Pair = (a, None);
            if now.contains(y) {
                let i = choose|i: int| 0 <= i < now.len() && now[i] == y;
                if i < before.len() {
                    assert(before[i] == y);
                    assert(before.contains(y));
                } else {
                    assert(here[i - before.len()] == y);
                }
            }
            if before.contains(y) {
                let i = choose|i: int| 0 <= i < before.len() && before[i] == y;
                assert(now[i] == y);
            }
            if a == m && found.len() == 0 && jt == JoinType2::Left {
                assert(here[0] == y);
                assert(now[before.len() as int] == y);
            }
        }
    }
}

proof fn lemma_right_once(l: Held, r: Held, keys: Seq<JoinKey2>, n: nat)
    requires
        n <= usize::MAX,
        0 <= l.row_count <= usize::MAX,
    ensures
        pairs_by_right(l, r, keys, n).no_duplicates(),
        forall|i: int|
            0 <= i < pairs_by_right(l, r, keys, n).len() ==> (#[trigger] pairs_by_right(l, r, keys, n)[i]).0
                < l.row_count && (pairs_by_right(l, r, keys, n)[i].1 matches Some(b) && b < n),
    decreases n,
{
    let now = pairs_by_right(l, r, keys, n);
    if n > 0 {
        lemma_right_once(l, r, keys, (n - 1) as nat);
        let before = pairs_by_right(l, r, keys, (n - 1) as nat);
        let here = pairs_of_right(l, r, keys, n - 1);
        let m = (n - 1) as usize;
        let found = rows_with(l, left_columns(keys), key_cells(r, right_columns(keys), n - 1), l.row_count as nat);
        lemma_found_ascend(l, left_columns(keys), key_cells(r, right_columns(keys), n - 1), l.row_count as nat);
        assert(now == before + here);
        assert forall|i: int| 0 <= i < here.len() implies #[trigger] here[i] == (found[i], Some(m)) by {}
        assert forall|i: int| 0 <= i < now.len() implies (#[trigger] now[i]).0 < l.row_count && (now[i].1 matches Some(b)
            && b < n) by {
            if i < before.len() {
                assert(now[i] == before[i]);
            } else {
                assert(now[i] == here[i - before.len()]);
            }
        }
        assert forall|i: int, j: int| 0 <= i < j < now.len() implies now[i] != now[j] by {
            if j < before.len() {
                assert(now[i] == before[i] && now[j] == before[j]);
            } else {
                assert(now[j] == here[j - before.len()]);
                if i < before.len() {
                    assert(now[i] == before[i]);
                } else {
                    assert(now[i] == here[i - before.len()]);
                    assert(found[i - before.len()] < found[j - before.len()]);
                }
            }
        }
    }
}

/// A join on keys pairs, once each, the rows of the two tables that agree in every key,
/// and no others. A left join keeps, alone, exactly the left rows that agree with none.
pub proof fn join_on_keys_pairs_rows_that_agree(l: Held, r: Held, keys: Seq<JoinKey2>, jt: JoinType2)
    requires
        0 <= l.row_count <= usize::MAX,
        0 <= r.row_count <= usize::MAX,
    ensures
        holds_pairs(joined(l, r, key_pairs(l, r, keys, jt)), l, r, key_pairs(l, r, keys, jt)),
        key_pairs(l, r, keys, jt).no_duplicates(),
        forall|a: usize, b: usize| #[trigger]
            key_pairs(l, r, keys, jt).contains((a, Some(b))) <==> a < l.row_count && b < r.row_count && agree(
                keys,
                l,
                a,
                r,
                b,
            ),
        forall|a: usize| #[trigger]
            key_pairs(l, r, keys, jt).contains((a, None)) <==> a < l.row_count && jt == JoinType2::Left && (forall|b: usize|
                b < r.row_count ==> !#[trigger] agree(keys, l, a, r, b)),
{
    let pairs = key_pairs(l, r, keys, jt);
    let by_right = jt == JoinType2::Inner && l.row_count < r.row_count;
    if by_right {
        lemma_right_once(l, r, keys, r.row_count as nat);
    } else {
        lemma_left_once(l, r, keys, jt, l.row_count as nat);
    }
    assert forall|a: usize, b: usize| #[trigger]
        pairs.contains((a, Some(b))) <==> a < l.row_count && b < r.row_count && agree(keys, l, a, r, b) by {
        if a < l.row_count && b < r.row_count {
            key_pairs_match(l, r, keys, jt, a, b);
            lemma_agree(keys, l, a, r, b);
        }
        if pairs.contains((a, Some(b))) {
            let i = choose|i: int| 0 <= i < pairs.len() && pairs[i] == (a, Some(b));
        }
    }
    assert forall|a: usize| #[trigger]
        pairs.contains((a, None)) <==> a < l.row_count && jt == JoinType2::Left && (forall|b: usize|
            b < r.row_count ==> !#[trigger] agree(keys, l, a, r, b)) by {
        let cells = key_cells(l, left_columns(keys), a as int);
        let found = rows_with(r, right_columns(keys), cells, r.row_count as nat);
        if by_right {
            if pairs.contains((a, None)) {
                let i = choose|i: int| 0 <= i < pairs.len() && pairs[i] == (a, None::<usize>);
            }
        } else if a < l.row_count {
            if found.len() == 0 {
                assert forall|b: usize| b < r.row_count implies !#[trigger] agree(keys, l, a, r, b) by {
                    lemma_agree(keys, l, a, r, b);
                    lemma_rows_with(r, right_columns(keys), cells, r.row_count as nat, b);
                }
            } else {
                let b = found[0];
                lemma_rows_with(r, right_columns(keys), cells, r.row_count as nat, b);
                assert(found.contains(b));
                lemma_agree(keys, l, a, r, b);
                assert(agree(keys, l, a, r, b));
            }
        }
    }
}

/// In paired rows a name of the right table stands for its column there, and a name that
/// only the left table has for its column there.
pub proof fn paired_rows_keep_names(l: Held, r: Held, pairs: Seq<Pair>, name: Seq<char>, i: int)
    requires
        l.columns.len() + r.columns.len() <= usize::MAX,
        0 <= i < pairs.len(),
        forall|k: Seq<char>| #[trigger] l.numbers.dom().contains(k) ==> l.numbers[k] < l.columns.len(),
        forall|k: Seq<char>| #[trigger] r.numbers.dom().contains(k) ==> r.numbers[k] < r.columns.len(),
    ensures
        r.numbers.dom().contains(name) && pairs[i].1 is Some ==> (joined(l, r, pairs).number(name) matches Some(k)
            && joined(l, r, pairs).columns[k as int][i]
            == r.columns[r.numbers[name] as int][pairs[i].1->Some_0 as int]),
        !r.numbers.dom().contains(name) && l.numbers.dom().contains(name) ==> (joined(l, r, pairs).number(
            name,
        ) matches Some(k) && joined(l, r, pairs).columns[k as int][i]
            == l.columns[l.numbers[name] as int][pairs[i].0 as int]),
{
    let t = joined(l, r, pairs);
    if r.numbers.dom().contains(name) {
        assert(t.numbers.dom().contains(name));
        assert(t.numbers[name] == (r.numbers[name] + l.columns.len()) as usize);
    } else if l.numbers.dom().contains(name) {
        assert(t.numbers.dom().contains(name));
        assert(t.numbers[name] == l.numbers[name]);
    }
}

/// A condition on columns that only one of the two tables knows has, on a pair of rows, its
/// value on the row of that table.
pub proof fn one_sided_condition_is_that_of_its_row<F: Fn(FloatOp, u64, u64) -> u64, P: Fn(&str) -> Option<u64>>(
    c: Env<F, P>,
    e: Expr2,
    l: Held,
    a: usize,
    r: Held,
    b: usize,
)
    ensures
        refers_to(e, l) && !refers_to(e, r) ==> pair_value(c, e, l, a, r, b) == value_of(c, e, l, a),
        refers_to(e, r) && !refers_to(e, l) ==> pair_value(c, e, l, a, r, b) == value_of(c, e, r, b),
        refers_to(e, l) && refers_to(e, r) ==> exists|t: Held|
            holds_pairs(t, l, r, seq![(a, Some(b))]) && pair_value(c, e, l, a, r, b) == #[trigger] value_of(c, e, t, 0),
{
    let t = side_by_side(l, a as int, r, b as int);
    assert(holds_pairs(t, l, r, seq![(a, Some(b))]));
    assert(value_of(c, e, t, 0) == value_of(c, e, t, 0));
}

} // verus!
