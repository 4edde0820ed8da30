//! What listed tables are joined on, and which of their rows are left.

use crate::error::Fail;
use crate::float_bits::FloatOp;
use crate::sql::ast::{BinOp2, Expr2, JoinType2};
use crate::sql::dp::join_plan;
use crate::sql::eval::Env;
use crate::sql::exec_table::Held;
use crate::sql::join_laws::{
    agree, are_all_pairs, crossed_tables_hold_every_pair, equated, holds_pairs, join_on_keys_pairs_rows_that_agree, Pair,
};
use crate::sql::joins::{
    branch_keys, condition_keys, crossed, direct_key, direct_keys, in_all_branches, join_keys, key_pairs, or_keys,
    shared_keys, JoinKey2,
};
use crate::sql::mask_laws::passes;
use crate::sql::masks::{all_in, conditions_only_narrow, flat, narrowed};
use crate::sql::planning::{all_sifted, first_table, greedy, greedy_from, joins_to, next_keys, sifted, sifts};
use crate::tpch::support::{marked_rows, marked_rows_are_marked};
use vstd::prelude::*;

verus! {

/// Two tables joined on keys hold, once each, the pairs of their rows that agree in every key.
pub proof fn tables_are_joined_on_keys(l: Held, r: Held, keys: Seq<JoinKey2>)
    requires
        0 <= l.row_count <= usize::MAX,
        0 <= r.row_count <= usize::MAX,
        joins_to(l, r, keys) is Ok,
    ensures
        exists|pairs: Seq<Pair>| #[trigger]
            holds_pairs(joins_to(l, r, keys)->Ok_0, l, r, pairs) && pairs_that_agree(pairs, l, r, keys),
{
    if keys.len() == 0 {
        crossed_tables_hold_every_pair(l, r);
        let t = crossed(l, r)->Ok_0;
        let pairs = choose|pairs: Seq<Pair>| #[trigger]
            holds_pairs(t, l, r, pairs) && crate::sql::join_laws::pairs_ascend(pairs) && are_all_pairs(
                pairs,
                l.row_count,
                r.row_count,
            );
        assert(holds_pairs(joins_to(l, r, keys)->Ok_0, l, r, pairs) && pairs_that_agree(pairs, l, r, keys)) by {
            assert forall|x: Pair| #[trigger]
                pairs.contains(x) <==> x.0 < l.row_count && (x.1 matches Some(b) && b < r.row_count && agree(
                    keys,
                    l,
                    x.0,
                    r,
                    b,
                )) by {}
            assert forall|i: int, j: int| 0 <= i < j < pairs.len() implies pairs[i] != pairs[j] by {
                assert(crate::sql::join_laws::pair_before(pairs[i], pairs[j]));
            }
        }
    } else {
        join_on_keys_pairs_rows_that_agree(l, r, keys, JoinType2::Inner);
        let pairs = key_pairs(l, r, keys, JoinType2::Inner);
        assert(pairs_that_agree(pairs, l, r, keys)) by {
            assert forall|x: Pair| #[trigger]
                pairs.contains(x) <==> x.0 < l.row_count && (x.1 matches Some(b) && b < r.row_count && agree(
                    keys,
                    l,
                    x.0,
                    r,
                    b,
                )) by {
                match x.1 {
                    Some(b) => {
                        assert(x == (x.0, Some(b)));
                    },
                    None => {
                        assert(x == (x.0, None::<usize>));
                    },
                }
            }
        }
        assert(holds_pairs(joins_to(l, r, keys)->Ok_0, l, r, pairs));
    }
}

/// The pairs are those of rows that agree in every key, each once.
pub open spec fn pairs_that_agree(pairs: Seq<Pair>, l: Held, r: Held, keys: Seq<JoinKey2>) -> bool {
    &&& pairs.no_duplicates()
    &&& forall|x: Pair| #[trigger]
        pairs.contains(x) <==> x.0 < l.row_count && (x.1 matches Some(b) && b < r.row_count && agree(keys, l, x.0, r, b))
}

/// A condition asks that two columns be equal: it equates them, or it is a choice each branch of which has
/// a part that does.
pub open spec fn asks_for_key(e: Expr2, l: Held, r: Held, k: JoinKey2) -> bool {
    ||| equated(e, l, r) == Some((k.left, k.right))
    ||| (e matches Expr2::BinOp { op, .. } && op == BinOp2::Or && forall|b: int|
        0 <= b < flat(e, BinOp2::Or).len() ==> branch_asks(#[trigger] flat(e, BinOp2::Or)[b], l, r, k))
}

/// A part of a branch equates the columns.
pub open spec fn branch_asks(e: Expr2, l: Held, r: Held, k: JoinKey2) -> bool {
    exists|i: int|
        0 <= i < flat(e, BinOp2::And).len() && equated(#[trigger] flat(e, BinOp2::And)[i], l, r) == Some(
            (k.left, k.right),
        )
}

proof fn lemma_direct(e: Expr2, l: Held, r: Held)
    ensures
        match direct_key(e, l, r) {
            Some(k) => equated(e, l, r) == Some((k.left, k.right)),
            None => equated(e, l, r) is None,
        },
{
}

proof fn lemma_direct_keys(es: Seq<Expr2>, l: Held, r: Held, n: nat, k: JoinKey2)
    requires
        n <= es.len(),
    ensures
        direct_keys(es, l, r, n).contains(k) <==> exists|i: int|
            0 <= i < n && equated(#[trigger] es[i], l, r) == Some((k.left, k.right)),
    decreases n,
{
    if n > 0 {
        lemma_direct_keys(es, l, r, (n - 1) as nat, k);
        lemma_direct(es[n - 1], l, r);
        let before = direct_keys(es, l, r, (n - 1) as nat);
        let now = direct_keys(es, l, r, n);
        if before.contains(k) {
            let i = choose|i: int| 0 <= i < before.len() && before[i] == k;
            assert(now[i] == k);
        }
        if now.contains(k) {
            let i = choose|i: int| 0 <= i < now.len() && now[i] == k;
            if i < before.len() {
                assert(before[i] == k);
                assert(before.contains(k));
            } else {
                assert(equated(es[n - 1], l, r) == Some((k.left, k.right)));
            }
        }
        if exists|i: int| 0 <= i < n && equated(#[trigger] es[i], l, r) == Some((k.left, k.right)) {
            let i = choose|i: int| 0 <= i < n && equated(#[trigger] es[i], l, r) == Some((k.left, k.right));
            if i == n - 1 {
                assert(now[before.len() as int] == k);
            }
        }
    }
}

proof fn lemma_branch_asks(e: Expr2, l: Held, r: Held, k: JoinKey2)
    ensures
        branch_keys(e, l, r).contains(k) <==> branch_asks(e, l, r, k),
{
    let parts = flat(e, BinOp2::And);
    lemma_direct_keys(parts, l, r, parts.len(), k);
}

proof fn lemma_shared(keys: Seq<JoinKey2>, branches: Seq<Expr2>, l: Held, r: Held, n: nat, k: JoinKey2)
    requires
        n <= keys.len(),
    ensures
        shared_keys(keys, branches, l, r, n).contains(k) <==> in_all_branches(branches, l, r, k) && exists|i: int|
            0 <= i < n && #[trigger] keys[i] == k,
    decreases n,
{
    if n > 0 {
        lemma_shared(keys, branches, l, r, (n - 1) as nat, k);
        let before = shared_keys(keys, branches, l, r, (n - 1) as nat);
        let now = shared_keys(keys, branches, l, r, n);
        if before.contains(k) {
            let i = choose|i: int| 0 <= i < before.len() && before[i] == k;
            assert(now[i] == k);
        }
        if now.contains(k) {
            let i = choose|i: int| 0 <= i < now.len() && now[i] == k;
            if i < before.len() {
                assert(before[i] == k);
                assert(before.contains(k));
            } else {
                assert(keys[n - 1] == k);
            }
        }
        if in_all_branches(branches, l, r, k) && keys[n - 1] == k {
            assert(now[before.len() as int] == k);
        }
    }
}

proof fn lemma_condition_keys(e: Expr2, l: Held, r: Held, k: JoinKey2)
    ensures
        condition_keys(e, l, r).contains(k) <==> asks_for_key(e, l, r, k),
{
    lemma_direct(e, l, r);
    match direct_key(e, l, r) {
        Some(x) => {
            assert(seq![x][0] == x);
            if condition_keys(e, l, r).contains(k) {
                assert(k == x);
            }
            if k == x {
                assert(condition_keys(e, l, r)[0] == k);
            }
        },
        None => {
            if e matches Expr2::BinOp { op, .. } && op == BinOp2::Or {
                let branches = flat(e, BinOp2::Or);
                let keys = branch_keys(branches[0], l, r);
                crate::sql::masks::flat_parts_are_flat(e, BinOp2::Or);
                lemma_shared(keys, branches, l, r, keys.len(), k);
                assert forall|b: int| 0 <= b < branches.len() implies branch_keys(#[trigger] branches[b], l, r).contains(k)
                    == branch_asks(branches[b], l, r, k) by {
                    lemma_branch_asks(branches[b], l, r, k);
                }
                if or_keys(e, l, r).contains(k) {
                    assert forall|b: int| 0 <= b < branches.len() implies branch_asks(#[trigger] branches[b], l, r, k) by {
                        assert(branch_keys(branches[b], l, r).contains(k));
                    }
                }
                if forall|b: int| 0 <= b < branches.len() ==> branch_asks(#[trigger] branches[b], l, r, k) {
                    assert(in_all_branches(branches, l, r, k)) by {
                        assert forall|b: int| 0 <= b < branches.len() implies branch_keys(
                            #[trigger] branches[b],
                            l,
                            r,
                        ).contains(k) by {
                            assert(branch_asks(branches[b], l, r, k));
                        }
                    }
                    assert(branch_asks(branches[0], l, r, k));
                    let i = choose|i: int| 0 <= i < keys.len() && keys[i] == k;
                    assert(keys[i] == k);
                }
            }
        },
    }
}

/// Two tables are joined on a pair of columns exactly if one of the conditions asks that they be equal.
pub proof fn join_keys_are_those_asked_for(es: Seq<Expr2>, l: Held, r: Held, n: nat, k: JoinKey2)
    requires
        n <= es.len(),
    ensures
        join_keys(es, l, r, n).contains(k) <==> exists|i: int| 0 <= i < n && asks_for_key(#[trigger] es[i], l, r, k),
    decreases n,
{
    if n > 0 {
        join_keys_are_those_asked_for(es, l, r, (n - 1) as nat, k);
        lemma_condition_keys(es[n - 1], l, r, k);
        let a = join_keys(es, l, r, (n - 1) as nat);
        let b = condition_keys(es[n - 1], l, r);
        let all = join_keys(es, l, r, n);
        assert(all == a + b);
        if a.contains(k) {
            let i = choose|i: int| 0 <= i < a.len() && a[i] == k;
            assert(all[i] == k);
        }
        if b.contains(k) {
            let i = choose|i: int| 0 <= i < b.len() && b[i] == k;
            assert(all[a.len() + i] == k);
        }
        if all.contains(k) {
            let i = choose|i: int| 0 <= i < all.len() && all[i] == k;
            if i < a.len() {
                assert(a[i] == k);
                assert(a.contains(k));
            } else {
                assert(b[i - a.len()] == k);
                assert(b.contains(k));
                assert(asks_for_key(es[n - 1], l, r, k));
            }
        }
    }
}

/// A condition on one table leaves exactly the rows of the table that pass it, in their order, with all
/// their cells; a condition that is not on the table alone leaves it as it is.
pub proof fn own_conditions_leave_rows_that_pass<F: Fn(FloatOp, u64, u64) -> u64, P: Fn(&str) -> Option<u64>>(c: Env<F, P>, e: Expr2, s: Held)
    requires
        0 <= s.row_count <= usize::MAX,
        narrowed(c, e, s, all_in(s.row_count as nat)) is Ok,
    ensures
        sifts(c, e, false, Ok(s)) == Ok::<Held, Fail>(s),
        sifts(c, e, true, Ok(s)) matches Ok(t) && exists|rows: Seq<usize>| #[trigger]
            rows_of_table(t, s, rows) && (forall|i: usize| #[trigger]
                rows.contains(i) <==> i < s.row_count && passes(c, e, s, i as int)),
{
    let all = all_in(s.row_count as nat);
    let m = narrowed(c, e, s, all)->Ok_0;
    conditions_only_narrow(c, e, s, all);
    let rows = marked_rows(m, m.len() as int);
    marked_rows_are_marked(m, m.len() as int);
    let t = sifts(c, e, true, Ok(s))->Ok_0;
    assert forall|i: usize| #[trigger] rows.contains(i) <==> i < s.row_count && passes(c, e, s, i as int) by {
        if rows.contains(i) {
            let w = choose|w: int| 0 <= w < rows.len() && rows[w] == i;
            assert(rows[w] < m.len());
        }
        if i < s.row_count && passes(c, e, s, i as int) {
            assert(m[i as int]);
        }
    }
    assert(rows_of_table(t, s, rows));
}

/// A table holds these rows of another one, in their order.
pub open spec fn rows_of_table(t: Held, s: Held, rows: Seq<usize>) -> bool {
    &&& t.row_count == rows.len()
    &&& t.columns.len() == s.columns.len()
    &&& t.numbers == s.numbers
    &&& t.col_types == s.col_types
    &&& forall|i: int, j: int| 0 <= i < j < rows.len() ==> #[trigger] rows[i] < #[trigger] rows[j]
    &&& forall|k: int, i: int|
        0 <= k < s.columns.len() && 0 <= i < rows.len() ==> #[trigger] t.columns[k][i] == s.columns[k][rows[i] as int]
}

/// The tables of a query of two tables are sifted by their own conditions and then joined, one way round or
/// the other, on the keys that the conditions ask for, or on none.
pub proof fn two_tables_are_sifted_and_joined<F: Fn(FloatOp, u64, u64) -> u64, P: Fn(&str) -> Option<u64>>(c: Env<F, P>, l: Held, r: Held, es: Seq<Expr2>)
    requires
        join_plan(c, seq![l, r], es) is Ok,
    ensures
        sifted(c, es, seq![l, r], 0, es.len()) is Ok,
        sifted(c, es, seq![l, r], 1, es.len()) is Ok,
        ({
            let a = sifted(c, es, seq![l, r], 0, es.len())->Ok_0;
            let b = sifted(c, es, seq![l, r], 1, es.len())->Ok_0;
            let t = join_plan(c, seq![l, r], es);
            ||| t == joins_to(a, b, join_keys(es, a, b, es.len()))
            ||| t == joins_to(b, a, join_keys(es, b, a, es.len()))
            ||| t == joins_to(a, b, Seq::empty())
            ||| t == joins_to(b, a, Seq::empty())
        }),
{
    let tables = seq![l, r];
    reveal_with_fuel(all_sifted, 3);
    assert(all_sifted(c, es, tables, 0) == Ok::<Seq<Held>, Fail>(Seq::empty()));
    let a = sifted(c, es, tables, 0, es.len())->Ok_0;
    let b = sifted(c, es, tables, 1, es.len())->Ok_0;
    let ts = all_sifted(c, es, tables, 2)->Ok_0;
    assert(ts =~= seq![a, b]);
    let i = first_table(es, ts, ts.len()).0;
    reveal_with_fuel(first_table, 3);
    assert(0 <= i < 2);
    let first = ts[i];
    let rest = ts.remove(i);
    assert(rest =~= seq![ts[1 - i]]);
    reveal_with_fuel(greedy_from, 3);
    let (j, keys) = next_keys(c.fpu, es, first, rest);
    reveal_with_fuel(crate::sql::planning::next_table, 3);
    assert(j == 0);
    assert(rest.remove(0) =~= Seq::<Held>::empty());
    assert(greedy(c.fpu, es, ts) == joins_to(first, rest[0], keys));
}

} // verus!
