//! The order in which the tables of a query are joined.

use crate::error::{Error, Fail};
use crate::float_bits::{arith, is_arith, FloatOp};
use crate::hashing::{hash_bytes, xxh3};
use crate::sql::ast::{BinOp2, Expr2, JoinType2};
use crate::sql::eval::{ctx_ok, Ctx, Env};
use crate::sql::exec_table::{filtered, ExecTable, Held, all_held, table_outcome};
use crate::sql::joins::{cross_join, find_join_keys, hash_join_with_keys, join_keys, key_pairs, keys_ok, JoinKey2, crossed, joined};
use crate::sql::masks::{all_in, build_mask, flat, flatten, narrowed};
use crate::sql::shape::{leaves, list_leaves, referents};
use crate::sql::value::Value2;
use crate::tpch::support::{list_marked, marked_rows};
use vstd::bytes::{spec_u64_to_le_bytes, u64_to_le_bytes};
use vstd::prelude::*;

verus! {

/// An innermost part of an expression that needs the table: one of its columns,
/// or a query, which may use any table.
pub open spec fn leaf_touches(e: Expr2, t: Held) -> bool {
    match e {
        Expr2::Col(name) => t.number(name@) is Some,
        Expr2::Subquery(_) => true,
        Expr2::Exists { .. } => true,
        Expr2::InSubquery { .. } => true,
        _ => false,
    }
}

/// An expression needs the table.
pub open spec fn touches(e: Expr2, t: Held) -> bool {
    exists|k: int| 0 <= k < leaves(e).len() && leaf_touches(#[trigger] leaves(e)[k], t)
}

/// An expression needs one table and no other.
pub open spec fn only_table(e: Expr2, tables: Seq<Held>, i: int) -> bool {
    &&& 0 <= i < tables.len()
    &&& touches(e, tables[i])
    &&& forall|j: int| 0 <= j < tables.len() && j != i ==> !#[trigger] touches(e, tables[j])
}

/// An expression needs a single table.
pub open spec fn on_one_table(e: Expr2, tables: Seq<Held>) -> bool {
    exists|i: int| only_table(e, tables, i)
}

fn touches_table(e: &Expr2, t: &ExecTable) -> (b: bool)
    ensures
        b == touches(*e, t@),
{
    let v: Vec<&Expr2> = list_leaves(e);
    let mut i: usize = 0;
    while i < v.len()
        invariant
            i <= v@.len(),
            referents(v@) == leaves(*e),
            forall|k: int| 0 <= k < i ==> !leaf_touches(#[trigger] leaves(*e)[k], t@),
        decreases v.len() - i,
    {
        proof {
            assert(referents(v@)[i as int] == leaves(*e)[i as int]);
        }
        let hit: bool = match v[i] {
            Expr2::Col(name) => t.lookup_col(name.as_str()).is_some(),
            Expr2::Subquery(_) => true,
            Expr2::Exists { .. } => true,
            Expr2::InSubquery { .. } => true,
            _ => false,
        };
        if hit {
            proof {
                assert(leaf_touches(leaves(*e)[i as int], t@));
            }
            return true;
        }
        i = i + 1;
    }
    proof {
        assert(v@.len() == referents(v@).len());
    }
    false
}

/// The only table that an expression needs, if there is one.
pub fn find_only_table(e: &Expr2, tables: &Vec<ExecTable>) -> (r: Option<usize>)
    ensures
        match r {
            Some(i) => only_table(*e, all_held(tables@), i as int),
            None => !on_one_table(*e, all_held(tables@)),
        },
{
    let mut found: Option<usize> = None;
    let mut i: usize = 0;
    while i < tables.len()
        invariant
            i <= tables@.len(),
            match found {
                Some(k) => k < i && touches(*e, all_held(tables@)[k as int]) && forall|j: int|
                    0 <= j < i && j != k ==> !#[trigger] touches(*e, all_held(tables@)[j]),
                None => forall|j: int| 0 <= j < i ==> !#[trigger] touches(*e, all_held(tables@)[j]),
            },
        decreases tables.len() - i,
    {
        proof {
            assert(all_held(tables@)[i as int] == tables@[i as int]@);
        }
        if touches_table(e, &tables[i]) {
            match found {
                Some(k) => {
                    proof {
                        assert(touches(*e, all_held(tables@)[k as int]) && touches(*e, all_held(tables@)[i as int]));
                        if on_one_table(*e, all_held(tables@)) {
                            let w = choose|w: int| only_table(*e, all_held(tables@), w);
                            assert(w == k || !touches(*e, all_held(tables@)[k as int]));
                            assert(w == i || !touches(*e, all_held(tables@)[i as int]));
                        }
                    }
                    return None;
                },
                None => {
                    found = Some(i);
                },
            }
        }
        i = i + 1;
    }
    proof {
        match found {
            Some(k) => {
                assert(only_table(*e, all_held(tables@), k as int));
            },
            None => {
                if on_one_table(*e, all_held(tables@)) {
                    let w = choose|w: int| only_table(*e, all_held(tables@), w);
                    assert(touches(*e, all_held(tables@)[w]));
                }
            },
        }
    }
    found
}

/// The conditions of a `WHERE` clause.
pub open spec fn conjuncts(where_clause: Option<Expr2>) -> Seq<Expr2> {
    match where_clause {
        Some(e) => flat(e, BinOp2::And),
        None => Seq::empty(),
    }
}

/// Lists the conditions of a `WHERE` clause.
pub fn split_conjuncts<'a>(where_clause: &'a Option<Expr2>) -> (r: Vec<&'a Expr2>)
    ensures
        referents(r@) == conjuncts(*where_clause),
{
    match where_clause {
        Some(e) => flatten(e, BinOp2::And),
        None => {
            let none: Vec<&'a Expr2> = Vec::new();
            proof {
                assert(referents(none@) =~= Seq::empty());
            }
            none
        },
    }
}

/// What a condition leaves of a table, if it needs that table only.
pub open spec fn sifts<F: Fn(FloatOp, u64, u64) -> u64, P: Fn(&str) -> Option<u64>>(
    c: Env<F, P>,
    e: Expr2,
    mine: bool,
    before: Result<Held, Fail>,
) -> Result<Held, Fail> {
    match before {
        Err(f) => Err(f),
        Ok(s) => if mine {
            match narrowed(c, e, s, all_in(s.row_count as nat)) {
                Ok(m) => Ok(filtered(s, marked_rows(m, m.len() as int))),
                Err(f) => Err(f),
            }
        } else {
            Ok(s)
        },
    }
}

/// What the first `n` conditions leave of a table.
pub open spec fn sifted<F: Fn(FloatOp, u64, u64) -> u64, P: Fn(&str) -> Option<u64>>(
    c: Env<F, P>,
    es: Seq<Expr2>,
    tables: Seq<Held>,
    i: int,
    n: nat,
) -> Result<Held, Fail>
    decreases n,
{
    if n == 0 {
        Ok(tables[i])
    } else {
        sifts(c, es[n - 1], only_table(es[n - 1], tables, i), sifted(c, es, tables, i, (n - 1) as nat))
    }
}

/// What the conditions leave of the first `n` tables: each holds on the one table
/// that it needs. The failure of the first table that fails counts.
pub open spec fn all_sifted<F: Fn(FloatOp, u64, u64) -> u64, P: Fn(&str) -> Option<u64>>(
    c: Env<F, P>,
    es: Seq<Expr2>,
    tables: Seq<Held>,
    n: nat,
) -> Result<Seq<Held>, Fail>
    decreases n,
{
    if n == 0 {
        Ok(Seq::empty())
    } else {
        match all_sifted(c, es, tables, (n - 1) as nat) {
            Err(f) => Err(f),
            Ok(before) => match sifted(c, es, tables, n - 1, es.len()) {
                Err(f) => Err(f),
                Ok(t) => Ok(before.push(t)),
            },
        }
    }
}

proof fn lemma_sift_fails<F: Fn(FloatOp, u64, u64) -> u64, P: Fn(&str) -> Option<u64>>(
    c: Env<F, P>,
    es: Seq<Expr2>,
    tables: Seq<Held>,
    i: int,
    n: nat,
)
    requires
        n <= es.len(),
        sifted(c, es, tables, i, n) is Err,
    ensures
        sifted(c, es, tables, i, es.len()) == sifted(c, es, tables, i, n),
    decreases es.len() - n,
{
    if n < es.len() {
        lemma_sift_fails(c, es, tables, i, n + 1);
    }
}

proof fn lemma_all_sift_fail<F: Fn(FloatOp, u64, u64) -> u64, P: Fn(&str) -> Option<u64>>(
    c: Env<F, P>,
    es: Seq<Expr2>,
    tables: Seq<Held>,
    n: nat,
    m: nat,
)
    requires
        n <= m,
        all_sifted(c, es, tables, n) is Err,
    ensures
        all_sifted(c, es, tables, m) == all_sifted(c, es, tables, n),
    decreases m - n,
{
    if n < m {
        lemma_all_sift_fail(c, es, tables, n + 1, m);
    }
}

fn sift_table<
    F: Fn(FloatOp, u64, u64) -> u64,
    P: Fn(&str) -> Option<u64>,
    S: Fn(&Expr2, &ExecTable, usize) -> Result<Value2, Error>,
>(
    c: &Ctx<'_, F, P, S>,
    es: &Vec<&Expr2>,
    owners: &Vec<Option<usize>>,
    table: ExecTable,
    i: usize,
    tables: Ghost<Seq<Held>>,
) -> (r: Result<ExecTable, Error>)
    requires
        ctx_ok(*c),
        table.wf(),
        0 <= i < tables@.len(),
        table@ == tables@[i as int],
        owners@.len() == es@.len(),
        forall|k: int|
            0 <= k < es@.len() ==> (#[trigger] owners@[k] == Some(i)) == only_table(
                referents(es@)[k],
                tables@,
                i as int,
            ),
    ensures
        table_outcome(r) == sifted(c@, referents(es@), tables@, i as int, es@.len()),
        r matches Ok(t) ==> t.wf(),
{
    let ghost parts = referents(es@);
    let mut cur: ExecTable = table;
    let mut k: usize = 0;
    while k < es.len()
        invariant
            ctx_ok(*c),
            cur.wf(),
            parts == referents(es@),
            parts.len() == es@.len(),
            k <= es@.len(),
            owners@.len() == es@.len(),
            forall|j: int|
                0 <= j < es@.len() ==> (#[trigger] owners@[j] == Some(i)) == only_table(parts[j], tables@, i as int),
            sifted(c@, parts, tables@, i as int, k as nat) == Ok::<Held, Fail>(cur@),
        decreases es.len() - k,
    {
        let mine: bool = match owners[k] {
            Some(o) => o == i,
            None => false,
        };
        proof {
            assert(mine == (owners@[k as int] == Some(i)));
            assert(parts[k as int] == *es@[k as int]);
        }
        if mine {
            match build_mask(c, es[k], &cur) {
                Ok(m) => {
                    let rows: Vec<usize> = list_marked(&m);
                    let next: ExecTable = cur.filter_table(&rows);
                    proof {
                        assert(sifted(c@, parts, tables@, i as int, (k + 1) as nat) == Ok::<Held, Fail>(next@));
                    }
                    cur = next;
                },
                Err(e) => {
                    proof {
                        assert(sifted(c@, parts, tables@, i as int, (k + 1) as nat) == Err::<Held, Fail>(e@));
                        lemma_sift_fails(c@, parts, tables@, i as int, (k + 1) as nat);
                    }
                    return Err(e);
                },
            }
        }
        k = k + 1;
    }
    Ok(cur)
}

/// Holds each condition against the table that it needs, if that is one, before
/// tables are joined.
pub fn apply_single_table_filters<
    F: Fn(FloatOp, u64, u64) -> u64,
    P: Fn(&str) -> Option<u64>,
    S: Fn(&Expr2, &ExecTable, usize) -> Result<Value2, Error>,
>(c: &Ctx<'_, F, P, S>, tables: Vec<ExecTable>, es: &Vec<&Expr2>) -> (r: Result<
    Vec<ExecTable>,
    Error,
>)
    requires
        ctx_ok(*c),
        forall|i: int| 0 <= i < tables@.len() ==> (#[trigger] tables@[i]).wf(),
    ensures
        match r {
            Ok(ts) => all_sifted(c@, referents(es@), all_held(tables@), tables@.len()) == Ok::<Seq<Held>, Fail>(
                all_held(ts@),
            ) && forall|i: int| 0 <= i < ts@.len() ==> (#[trigger] ts@[i]).wf(),
            Err(e) => all_sifted(c@, referents(es@), all_held(tables@), tables@.len()) == Err::<Seq<Held>, Fail>(e@),
        },
{
    let ghost parts = referents(es@);
    let ghost all = all_held(tables@);
    let count: usize = tables.len();
    let mut owners: Vec<Option<usize>> = Vec::new();
    let mut k: usize = 0;
    while k < es.len()
        invariant
            parts == referents(es@),
            all == all_held(tables@),
            k <= es@.len(),
            owners@.len() == k,
            forall|j: int, i: usize|
                0 <= j < k ==> (#[trigger] owners@[j] == Some(i)) == #[trigger] only_table(parts[j], all, i as int),
        decreases es.len() - k,
    {
        let o: Option<usize> = find_only_table(es[k], &tables);
        proof {
            assert(parts[k as int] == *es@[k as int]);
            assert forall|i: usize| (o == Some(i)) == #[trigger] only_table(parts[k as int], all, i as int) by {
                match o {
                    Some(w) => {
                        if only_table(parts[k as int], all, i as int) {
                            assert(touches(parts[k as int], all[w as int]));
                            assert(touches(parts[k as int], all[i as int]));
                        }
                    },
                    None => {},
                }
            }
        }
        owners.push(o);
        k = k + 1;
    }
    let mut rest: Vec<ExecTable> = tables;
    let mut out: Vec<ExecTable> = Vec::new();
    let mut i: usize = 0;
    proof {
        assert(all_held(rest@) =~= all.skip(0));
        assert(all_held(out@) =~= Seq::<Held>::empty());
        assert(parts.len() == es@.len());
    }
    while rest.len() > 0
        invariant
            ctx_ok(*c),
            parts == referents(es@),
            i + rest@.len() == all.len(),
            all.len() == count,
            all.len() == tables@.len(),
            all == all_held(tables@),
            parts.len() == es@.len(),
            all_held(rest@) == all.skip(i as int),
            forall|j: int| 0 <= j < rest@.len() ==> (#[trigger] rest@[j]).wf(),
            owners@.len() == es@.len(),
            forall|j: int, i: usize|
                0 <= j < es@.len() ==> (#[trigger] owners@[j] == Some(i)) == #[trigger] only_table(
                    parts[j],
                    all,
                    i as int,
                ),
            out@.len() == i,
            forall|j: int| 0 <= j < i ==> (#[trigger] out@[j]).wf(),
            all_sifted(c@, parts, all, i as nat) == Ok::<Seq<Held>, Fail>(all_held(out@)),
        decreases rest.len(),
    {
        let ghost before = rest@;
        proof {
            assert(all_held(before)[0] == all.skip(i as int)[0]);
            assert(all.skip(i as int)[0] == all[i as int]);
        }
        let t: ExecTable = rest.remove(0);
        proof {
            assert(all_held(rest@) =~= all_held(before).skip(1));
            assert(all_held(rest@) =~= all.skip(i + 1));
        }
        match sift_table(c, es, &owners, t, i, Ghost(all)) {
            Ok(s) => {
                let ghost made = all_held(out@);
                out.push(s);
                proof {
                    assert(all_held(out@) =~= made.push(s@));
                    assert(all_sifted(c@, parts, all, (i + 1) as nat) == Ok::<Seq<Held>, Fail>(all_held(out@)));
                }
            },
            Err(e) => {
                proof {
                    assert(all_sifted(c@, parts, all, (i + 1) as nat) == Err::<Seq<Held>, Fail>(e@));
                    lemma_all_sift_fail(c@, parts, all, (i + 1) as nat, all.len());
                }
                return Err(e);
            },
        }
        i = i + 1;
    }
    Ok(out)
}

/// The bucket that hashing puts a word in.
pub open spec fn bucket_of(w: u64) -> int {
    (xxh3(spec_u64_to_le_bytes(w)) % 256) as int
}

pub open spec fn fills(cells: Seq<u64>, m: int, b: int) -> bool {
    exists|i: int| 0 <= i < m && bucket_of(#[trigger] cells[i]) == b
}

/// The number of the first `b` buckets that the first `m` cells fill.
pub open spec fn filled(cells: Seq<u64>, m: int, b: nat) -> nat
    decreases b,
{
    if b == 0 {
        0
    } else {
        filled(cells, m, (b - 1) as nat) + if fills(cells, m, b - 1) {
            1nat
        } else {
            0nat
        }
    }
}

/// The number of cells that are looked at.
pub const SAMPLE: usize = 10_000;

pub open spec fn sampled(n: int) -> int {
    if n < SAMPLE {
        n
    } else {
        SAMPLE as int
    }
}

/// An estimate of the number of distinct cells among the first `n`.
pub open spec fn distinct_estimate<F: Fn(FloatOp, u64, u64) -> u64>(f: F, cells: Seq<u64>, n: int) -> u64 {
    let k = filled(cells, sampled(n), 256);
    if n == 0 {
        0
    } else if k >= 256 {
        sampled(n) as u64
    } else {
        arith(f, FloatOp::LinearCount, k as u64, 0)
    }
}

/// Estimates the number of distinct cells of a column.
pub fn estimate_distinct<F: Fn(FloatOp, u64, u64) -> u64>(cells: &Vec<u64>, n: usize, fpu: &F) -> (r: u64)
    requires
        is_arith(*fpu),
        n <= cells@.len(),
    ensures
        r == distinct_estimate(*fpu, cells@, n as int),
{
    if n == 0 {
        return 0;
    }
    let m: usize = if n < SAMPLE {
        n
    } else {
        SAMPLE
    };
    let mut buckets: Vec<bool> = Vec::new();
    while buckets.len() < 256
        invariant
            buckets@.len() <= 256,
            forall|b: int| 0 <= b < buckets@.len() ==> !#[trigger] buckets@[b],
        decreases 256 - buckets.len(),
    {
        buckets.push(false);
    }
    let mut i: usize = 0;
    while i < m
        invariant
            m <= cells@.len(),
            i <= m,
            buckets@.len() == 256,
            forall|b: int| 0 <= b < 256 ==> #[trigger] buckets@[b] == fills(cells@, i as int, b),
        decreases m - i,
    {
        let bytes: Vec<u8> = u64_to_le_bytes(cells[i]);
        let b: usize = (hash_bytes(&bytes) % 256) as usize;
        let ghost before = buckets@;
        buckets.set(b, true);
        proof {
            assert(bucket_of(cells@[i as int]) == b);
            assert forall|q: int| 0 <= q < 256 implies #[trigger] buckets@[q] == fills(cells@, i + 1, q) by {
                if fills(cells@, i as int, q) {
                    let w = choose|w: int| 0 <= w < i && bucket_of(#[trigger] cells@[w]) == q;
                    assert(0 <= w < i + 1 && bucket_of(cells@[w]) == q);
                }
                if q == b {
                    assert(bucket_of(cells@[i as int]) == q);
                }
                if fills(cells@, i + 1, q) {
                    let w = choose|w: int| 0 <= w < i + 1 && bucket_of(#[trigger] cells@[w]) == q;
                    if w < i {
                        assert(fills(cells@, i as int, q));
                    }
                }
                assert(q != b ==> buckets@[q] == before[q]);
            }
        }
        i = i + 1;
    }
    let mut count: u64 = 0;
    let mut b: usize = 0;
    while b < 256
        invariant
            b <= 256,
            buckets@.len() == 256,
            forall|q: int| 0 <= q < 256 ==> #[trigger] buckets@[q] == fills(cells@, m as int, q),
            count == filled(cells@, m as int, b as nat),
            count <= b,
        decreases 256 - b,
    {
        if buckets[b] {
            count = count + 1;
        }
        b = b + 1;
    }
    if count >= 256 {
        m as u64
    } else {
        fpu(FloatOp::LinearCount, count, 0)
    }
}

/// A product, or the greatest word where it is greater.
pub open spec fn capped_product(a: u64, b: int) -> u64 {
    if a * b > u64::MAX {
        u64::MAX
    } else {
        (a * b) as u64
    }
}

fn multiply(a: u64, b: usize) -> (r: u64)
    ensures
        r == capped_product(a, b as int),
{
    proof {
        assert(0 <= a * b <= 0xffff_ffff_ffff_ffff * 0xffff_ffff_ffff_ffff) by (nonlinear_arith)
            requires
                0 <= a <= 0xffff_ffff_ffff_ffff,
                0 <= b <= 0xffff_ffff_ffff_ffff,
        ;
    }
    let p: u128 = a as u128 * b as u128;
    if p > u64::MAX as u128 {
        u64::MAX
    } else {
        p as u64
    }
}

/// The greatest of two words and one.
pub open spec fn at_least_one(a: u64, b: u64) -> u64 {
    let m = if a < b {
        b
    } else {
        a
    };
    if m < 1 {
        1
    } else {
        m
    }
}

/// The estimate of the rows of a join on the first `n` keys.
pub open spec fn rows_estimate<F: Fn(FloatOp, u64, u64) -> u64>(f: F, l: Held, r: Held, keys: Seq<JoinKey2>, n: nat) -> u64
    decreases n,
{
    if n == 0 {
        1
    } else {
        let k = keys[n - 1];
        let d = at_least_one(
            distinct_estimate(f, l.columns[k.left as int], l.row_count as int),
            distinct_estimate(f, r.columns[k.right as int], r.row_count as int),
        );
        capped_product(
            capped_product(rows_estimate(f, l, r, keys, (n - 1) as nat), l.row_count as int),
            r.row_count as int,
        ) / d
    }
}

fn estimate_rows<F: Fn(FloatOp, u64, u64) -> u64>(fpu: &F, l: &ExecTable, r: &ExecTable, keys: &Vec<JoinKey2>) -> (est: u64)
    requires
        is_arith(*fpu),
        l.wf(),
        r.wf(),
        keys_ok(keys@, l@, r@),
    ensures
        est == rows_estimate(*fpu, l@, r@, keys@, keys@.len()),
{
    let mut est: u64 = 1;
    let mut n: usize = 0;
    while n < keys.len()
        invariant
            is_arith(*fpu),
            l.wf(),
            r.wf(),
            keys_ok(keys@, l@, r@),
            n <= keys@.len(),
            est == rows_estimate(*fpu, l@, r@, keys@, n as nat),
        decreases keys.len() - n,
    {
        let k: JoinKey2 = keys[n];
        let a: u64 = estimate_distinct(&l.columns[k.left], l.row_count, fpu);
        let b: u64 = estimate_distinct(&r.columns[k.right], r.row_count, fpu);
        let m: u64 = if a < b {
            b
        } else {
            a
        };
        let d: u64 = if m < 1 {
            1
        } else {
            m
        };
        est = multiply(multiply(est, l.row_count), r.row_count) / d;
        n = n + 1;
    }
    est
}

/// A table can be joined on keys to another one of the tables.
pub open spec fn has_partner(es: Seq<Expr2>, ts: Seq<Held>, i: int) -> bool {
    exists|j: int| 0 <= j < ts.len() && j != i && #[trigger] join_keys(es, ts[i], ts[j], es.len()).len() > 0
}

fn find_partner(es: &Vec<&Expr2>, ts: &Vec<ExecTable>, i: usize) -> (b: bool)
    requires
        i < ts@.len(),
        forall|k: int| 0 <= k < ts@.len() ==> (#[trigger] ts@[k]).wf(),
    ensures
        b == has_partner(referents(es@), all_held(ts@), i as int),
{
    let ghost parts = referents(es@);
    let mut j: usize = 0;
    while j < ts.len()
        invariant
            i < ts@.len(),
            forall|k: int| 0 <= k < ts@.len() ==> (#[trigger] ts@[k]).wf(),
            parts == referents(es@),
            j <= ts@.len(),
            forall|k: int|
                0 <= k < j && k != i ==> (#[trigger] join_keys(parts, all_held(ts@)[i as int], all_held(ts@)[k], parts.len())).len() == 0,
        decreases ts.len() - j,
    {
        proof {
            assert(all_held(ts@)[i as int] == ts@[i as int]@);
            assert(all_held(ts@)[j as int] == ts@[j as int]@);
        }
        if j != i {
            let keys: Vec<JoinKey2> = find_join_keys(&ts[i], &ts[j], es);
            if keys.len() > 0 {
                proof {
                    assert(join_keys(parts, all_held(ts@)[i as int], all_held(ts@)[j as int], parts.len()).len() > 0);
                }
                return true;
            }
        }
        j = j + 1;
    }
    false
}

/// The table to begin with, among the first `n`: the smallest with a partner, the
/// first such if there are several, the first of all if there is none; and its
/// number of rows.
pub open spec fn first_table(es: Seq<Expr2>, ts: Seq<Held>, n: nat) -> (int, int)
    decreases n,
{
    if n == 0 {
        (0, usize::MAX as int)
    } else {
        let (i, rows) = first_table(es, ts, (n - 1) as nat);
        if ts[n - 1].row_count < rows && has_partner(es, ts, n - 1) {
            (n - 1, ts[n - 1].row_count)
        } else {
            (i, rows)
        }
    }
}

/// The table to join next, among the first `n`: the one on keys with the fewest
/// estimated rows; and that estimate.
pub open spec fn next_table<F: Fn(FloatOp, u64, u64) -> u64>(f: F, es: Seq<Expr2>, l: Held, ts: Seq<Held>, n: nat) -> Option<(int, u64)>
    decreases n,
{
    if n == 0 {
        None
    } else {
        let before = next_table(f, es, l, ts, (n - 1) as nat);
        let least = match before {
            Some((_, est)) => est,
            None => u64::MAX,
        };
        let keys = join_keys(es, l, ts[n - 1], es.len());
        let est = rows_estimate(f, l, ts[n - 1], keys, keys.len());
        if keys.len() > 0 && est < least {
            Some((n - 1, est))
        } else {
            before
        }
    }
}

/// What joining two tables on keys comes to; without keys, their product.
pub open spec fn joins_to(l: Held, r: Held, keys: Seq<JoinKey2>) -> Result<Held, Fail> {
    if keys.len() == 0 {
        crossed(l, r)
    } else {
        Ok(joined(l, r, key_pairs(l, r, keys, JoinType2::Inner)))
    }
}

pub fn join_two(l: &ExecTable, r: &ExecTable, keys: &Vec<JoinKey2>) -> (res: Result<ExecTable, Error>)
    requires
        l.wf(),
        r.wf(),
        keys_ok(keys@, l@, r@),
    ensures
        table_outcome(res) == joins_to(l@, r@, keys@),
        res matches Ok(t) ==> t.wf(),
{
    if keys.len() == 0 {
        cross_join(l, r)
    } else {
        Ok(hash_join_with_keys(l, r, keys, JoinType2::Inner))
    }
}

/// The keys on which the next table is joined: none where no table was chosen for
/// its keys.
pub open spec fn next_keys<F: Fn(FloatOp, u64, u64) -> u64>(f: F, es: Seq<Expr2>, l: Held, ts: Seq<Held>) -> (int, Seq<JoinKey2>) {
    match next_table(f, es, l, ts, ts.len()) {
        Some((i, _)) => (i, join_keys(es, l, ts[i], es.len())),
        None => (0, Seq::empty()),
    }
}

/// What joining the rest of the tables to a table comes to, always taking the
/// table with the fewest estimated rows.
pub open spec fn greedy_from<F: Fn(FloatOp, u64, u64) -> u64>(f: F, es: Seq<Expr2>, l: Held, ts: Seq<Held>) -> Result<Held, Fail>
    decreases ts.len(),
{
    let (i, keys) = next_keys(f, es, l, ts);
    if 0 <= i < ts.len() {
        match joins_to(l, ts[i], keys) {
            Ok(t) => greedy_from(f, es, t, ts.remove(i)),
            Err(e) => Err(e),
        }
    } else {
        Ok(l)
    }
}

/// What is said where there is no table.
pub open spec fn no_tables() -> Seq<char> {
    "join_tables_greedy_core: no tables"@
}

/// What joining tables comes to, from the smallest on.
pub open spec fn greedy<F: Fn(FloatOp, u64, u64) -> u64>(f: F, es: Seq<Expr2>, ts: Seq<Held>) -> Result<Held, Fail> {
    if ts.len() == 0 {
        Err(Fail::Other(no_tables()))
    } else if ts.len() == 1 {
        Ok(ts[0])
    } else {
        let i = first_table(es, ts, ts.len()).0;
        greedy_from(f, es, ts[i], ts.remove(i))
    }
}

fn pick_first(es: &Vec<&Expr2>, ts: &Vec<ExecTable>) -> (i: usize)
    requires
        ts@.len() > 0,
        forall|k: int| 0 <= k < ts@.len() ==> (#[trigger] ts@[k]).wf(),
    ensures
        i == first_table(referents(es@), all_held(ts@), ts@.len()).0,
        i < ts@.len(),
{
    let mut start: usize = 0;
    let mut rows: usize = usize::MAX;
    let mut n: usize = 0;
    while n < ts.len()
        invariant
            ts@.len() > 0,
            forall|k: int| 0 <= k < ts@.len() ==> (#[trigger] ts@[k]).wf(),
            n <= ts@.len(),
            start < ts@.len(),
            (start as int, rows as int) == first_table(referents(es@), all_held(ts@), n as nat),
        decreases ts.len() - n,
    {
        proof {
            assert(all_held(ts@)[n as int] == ts@[n as int]@);
        }
        if ts[n].row_count < rows && find_partner(es, ts, n) {
            start = n;
            rows = ts[n].row_count;
        }
        n = n + 1;
    }
    start
}

fn pick_next<F: Fn(FloatOp, u64, u64) -> u64>(fpu: &F, es: &Vec<&Expr2>, l: &ExecTable, ts: &Vec<ExecTable>) -> (r: (usize, Vec<JoinKey2>))
    requires
        is_arith(*fpu),
        l.wf(),
        ts@.len() > 0,
        forall|k: int| 0 <= k < ts@.len() ==> (#[trigger] ts@[k]).wf(),
    ensures
        (r.0 as int, r.1@) == next_keys(*fpu, referents(es@), l@, all_held(ts@)),
        r.0 < ts@.len(),
        keys_ok(r.1@, l@, all_held(ts@)[r.0 as int]),
{
    let ghost parts = referents(es@);
    let mut best: Option<(usize, u64)> = None;
    let mut best_keys: Vec<JoinKey2> = Vec::new();
    let mut n: usize = 0;
    while n < ts.len()
        invariant
            is_arith(*fpu),
            l.wf(),
            ts@.len() > 0,
            parts == referents(es@),
            parts.len() == es@.len(),
            forall|k: int| 0 <= k < ts@.len() ==> (#[trigger] ts@[k]).wf(),
            n <= ts@.len(),
            match best {
                Some((i, est)) => i < ts@.len() && next_table(*fpu, parts, l@, all_held(ts@), n as nat) == Some((i as int, est))
                    && best_keys@ == join_keys(parts, l@, all_held(ts@)[i as int], parts.len()) && keys_ok(
                    best_keys@,
                    l@,
                    all_held(ts@)[i as int],
                ),
                None => next_table(*fpu, parts, l@, all_held(ts@), n as nat) is None && best_keys@.len() == 0,
            },
        decreases ts.len() - n,
    {
        proof {
            assert(all_held(ts@)[n as int] == ts@[n as int]@);
        }
        let keys: Vec<JoinKey2> = find_join_keys(l, &ts[n], es);
        if keys.len() > 0 {
            let est: u64 = estimate_rows(fpu, l, &ts[n], &keys);
            let least: u64 = match best {
                Some((_, e)) => e,
                None => u64::MAX,
            };
            if est < least {
                best = Some((n, est));
                best_keys = keys;
            }
        }
        n = n + 1;
    }
    proof {
        if best is None {
            assert(best_keys@ =~= Seq::empty());
        }
    }
    match best {
        Some((i, _)) => (i, best_keys),
        None => (0, best_keys),
    }
}

/// Joins tables, from the smallest on, always taking the table with the fewest
/// estimated rows.
pub fn join_tables_greedy_core<F: Fn(FloatOp, u64, u64) -> u64>(fpu: &F, tables: Vec<ExecTable>, es: &Vec<&Expr2>) -> (r: Result<ExecTable, Error>)
    requires
        is_arith(*fpu),
        forall|k: int| 0 <= k < tables@.len() ==> (#[trigger] tables@[k]).wf(),
    ensures
        table_outcome(r) == greedy(*fpu, referents(es@), all_held(tables@)),
        r matches Ok(t) ==> t.wf(),
{
    let ghost parts = referents(es@);
    let mut rest: Vec<ExecTable> = tables;
    if rest.len() == 0 {
        return Err(Error::Other("join_tables_greedy_core: no tables".to_owned()));
    }
    if rest.len() == 1 {
        return Ok(rest.remove(0));
    }
    let ghost all = rest@;
    let start: usize = pick_first(es, &rest);
    let mut joined: ExecTable = rest.remove(start);
    proof {
        assert(all_held(all)[start as int] == all[start as int]@);
        assert(all_held(rest@) =~= all_held(all).remove(start as int));
    }
    while rest.len() > 0
        invariant
            is_arith(*fpu),
            parts == referents(es@),
            joined.wf(),
            forall|k: int| 0 <= k < rest@.len() ==> (#[trigger] rest@[k]).wf(),
            greedy(*fpu, parts, all_held(tables@)) == greedy_from(*fpu, parts, joined@, all_held(rest@)),
        decreases rest.len(),
    {
        let (i, keys): (usize, Vec<JoinKey2>) = pick_next(fpu, es, &joined, &rest);
        let ghost before = rest@;
        let right: ExecTable = rest.remove(i);
        proof {
            assert(all_held(before)[i as int] == before[i as int]@);
            assert(all_held(rest@) =~= all_held(before).remove(i as int));
        }
        match join_two(&joined, &right, &keys) {
            Ok(t) => {
                joined = t;
            },
            Err(e) => {
                return Err(e);
            },
        }
    }
    Ok(joined)
}

/// What a query's tables come to, joined from the smallest on after each condition
/// on one table is held against it.
pub open spec fn smart_outcome<F: Fn(FloatOp, u64, u64) -> u64, P: Fn(&str) -> Option<u64>>(
    c: Env<F, P>,
    tables: Seq<Held>,
    es: Seq<Expr2>,
) -> Result<Held, Fail> {
    match all_sifted(c, es, tables, tables.len()) {
        Ok(ts) => greedy(c.fpu, es, ts),
        Err(f) => Err(f),
    }
}

/// Joins the tables of a query from the smallest on.
pub fn join_tables_smart<
    F: Fn(FloatOp, u64, u64) -> u64,
    P: Fn(&str) -> Option<u64>,
    S: Fn(&Expr2, &ExecTable, usize) -> Result<Value2, Error>,
>(c: &Ctx<'_, F, P, S>, tables: Vec<ExecTable>, where_clause: &Option<Expr2>) -> (r: Result<
    ExecTable,
    Error,
>)
    requires
        ctx_ok(*c),
        forall|i: int| 0 <= i < tables@.len() ==> (#[trigger] tables@[i]).wf(),
    ensures
        table_outcome(r) == smart_outcome(c@, all_held(tables@), conjuncts(*where_clause)),
        r matches Ok(t) ==> t.wf(),
{
    let es: Vec<&Expr2> = split_conjuncts(where_clause);
    match apply_single_table_filters(c, tables, &es) {
        Ok(ts) => join_tables_greedy_core(c.fpu, ts, &es),
        Err(e) => Err(e),
    }
}

} // verus!
