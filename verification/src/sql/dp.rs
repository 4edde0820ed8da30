//! The cheapest order in which to join many tables. A set of tables is held as
//! the bits of a word.

use crate::error::{Error, Fail};
use crate::float_bits::{arith, float_lt, is_arith, less, FloatOp};
use crate::sql::ast::Expr2;
use crate::sql::eval::{ctx_ok, Ctx, Env};
use crate::sql::exec_table::{ExecTable, Held, all_held, table_outcome};
use crate::sql::joins::{find_join_keys, join_keys, keys_ok, JoinKey2};
use crate::sql::planning::{all_sifted, apply_single_table_filters, conjuncts, distinct_estimate, estimate_distinct, greedy, join_tables_greedy_core, join_two, joins_to, split_conjuncts, no_tables};
use crate::sql::shape::referents;
use crate::sql::value::Value2;
use vstd::prelude::*;

verus! {

/// The bits of one.
pub const ONE: u64 = 0x3ff0_0000_0000_0000;

/// The bits of the greatest double.
pub const GREATEST: u64 = 0x7fef_ffff_ffff_ffff;

/// Fewer tables than this are joined without a plan.
pub const FEWEST: usize = 4;

/// More tables than this are joined without a plan.
pub const MOST: usize = 16;

/// The best way found to join a set of tables: its cost and the rows it gives,
/// both estimates held as doubles, and the two sets that are joined last; none
/// for a single table.
#[derive(Clone, Copy, Debug)]
pub struct DPEntry {
    pub cost: u64,
    pub cardinality: u64,
    pub partition: Option<(u32, u32)>,
}

/// The keys between two tables; the key columns of the first table on the left.
pub open spec fn pair_keys(es: Seq<Expr2>, ts: Seq<Held>, i: int, j: int) -> Seq<JoinKey2> {
    if i < j {
        join_keys(es, ts[i], ts[j], es.len())
    } else {
        let keys = join_keys(es, ts[j], ts[i], es.len());
        Seq::new(keys.len(), |k: int| JoinKey2 { left: keys[k].right, right: keys[k].left })
    }
}

/// The share of the pairs of rows that the first `n` keys leave.
pub open spec fn share<F: Fn(FloatOp, u64, u64) -> u64>(f: F, l: Held, r: Held, keys: Seq<JoinKey2>, n: nat) -> u64
    decreases n,
{
    if n == 0 {
        ONE
    } else {
        let k = keys[n - 1];
        let a = arith(f, FloatOp::FromU64, distinct_estimate(f, l.columns[k.left as int], l.row_count as int), 0);
        let b = arith(f, FloatOp::FromU64, distinct_estimate(f, r.columns[k.right as int], r.row_count as int), 0);
        let d = arith(f, FloatOp::Max, arith(f, FloatOp::Max, a, b), ONE);
        arith(f, FloatOp::Div, share(f, l, r, keys, (n - 1) as nat), d)
    }
}

/// The number of keys between two tables, and the share that these leave.
pub open spec fn link<F: Fn(FloatOp, u64, u64) -> u64>(f: F, es: Seq<Expr2>, ts: Seq<Held>, i: int, j: int) -> (int, u64) {
    if i == j {
        (0, ONE)
    } else {
        let keys = pair_keys(es, ts, i, j);
        (keys.len() as int, share(f, ts[i], ts[j], keys, keys.len()))
    }
}

fn flip_keys(keys: &Vec<JoinKey2>) -> (r: Vec<JoinKey2>)
    ensures
        r@ == Seq::new(keys@.len(), |k: int| JoinKey2 { left: keys@[k].right, right: keys@[k].left }),
{
    let mut out: Vec<JoinKey2> = Vec::new();
    let mut k: usize = 0;
    while k < keys.len()
        invariant
            k <= keys@.len(),
            out@.len() == k,
            forall|j: int| 0 <= j < k ==> #[trigger] out@[j] == (JoinKey2 { left: keys@[j].right, right: keys@[j].left }),
        decreases keys.len() - k,
    {
        out.push(JoinKey2 { left: keys[k].right, right: keys[k].left });
        k = k + 1;
    }
    proof {
        assert(out@ =~= Seq::new(keys@.len(), |k: int| JoinKey2 { left: keys@[k].right, right: keys@[k].left }));
    }
    out
}

fn find_link<F: Fn(FloatOp, u64, u64) -> u64>(fpu: &F, es: &Vec<&Expr2>, ts: &Vec<ExecTable>, i: usize, j: usize) -> (r: (usize, u64))
    requires
        is_arith(*fpu),
        i < ts@.len(),
        j < ts@.len(),
        forall|k: int| 0 <= k < ts@.len() ==> (#[trigger] ts@[k]).wf(),
    ensures
        (r.0 as int, r.1) == link(*fpu, referents(es@), all_held(ts@), i as int, j as int),
{
    if i == j {
        return (0, ONE);
    }
    proof {
        assert(es@.len() == referents(es@).len());
        assert(all_held(ts@)[i as int] == ts@[i as int]@);
        assert(all_held(ts@)[j as int] == ts@[j as int]@);
    }
    let keys: Vec<JoinKey2> = if i < j {
        find_join_keys(&ts[i], &ts[j], es)
    } else {
        flip_keys(&find_join_keys(&ts[j], &ts[i], es))
    };
    let l: &ExecTable = &ts[i];
    let r: &ExecTable = &ts[j];
    proof {
        assert(keys@ == pair_keys(referents(es@), all_held(ts@), i as int, j as int));
        assert(keys_ok(keys@, l@, r@));
    }
    let mut sel: u64 = ONE;
    let mut n: usize = 0;
    while n < keys.len()
        invariant
            is_arith(*fpu),
            l.wf(),
            r.wf(),
            keys_ok(keys@, l@, r@),
            n <= keys@.len(),
            sel == share(*fpu, l@, r@, keys@, n as nat),
        decreases keys.len() - n,
    {
        let k: JoinKey2 = keys[n];
        let a: u64 = fpu(FloatOp::FromU64, estimate_distinct(&l.columns[k.left], l.row_count, fpu), 0);
        let b: u64 = fpu(FloatOp::FromU64, estimate_distinct(&r.columns[k.right], r.row_count, fpu), 0);
        let m: u64 = fpu(FloatOp::Max, a, b);
        let d: u64 = fpu(FloatOp::Max, m, ONE);
        sel = fpu(FloatOp::Div, sel, d);
        n = n + 1;
    }
    (keys.len(), sel)
}

/// A set holds the table with this number.
pub open spec fn holds(set: u32, i: int) -> bool {
    (set >> (i as u32)) & 1 == 1
}

/// A sum, or the greatest word where it is greater.
pub open spec fn capped_sum(a: int, b: int) -> int {
    if a + b > u64::MAX {
        u64::MAX as int
    } else {
        a + b
    }
}

/// The keys between one table and the tables of a set among the first `n`, added
/// to a number of keys and a share.
pub open spec fn links_to<F: Fn(FloatOp, u64, u64) -> u64>(
    f: F,
    es: Seq<Expr2>,
    ts: Seq<Held>,
    i: int,
    set: u32,
    n: nat,
    start: (int, u64),
) -> (int, u64)
    decreases n,
{
    if n == 0 {
        start
    } else {
        let before = links_to(f, es, ts, i, set, (n - 1) as nat, start);
        let (count, part) = link(f, es, ts, i, n - 1);
        if holds(set, n - 1) && count > 0 {
            (capped_sum(before.0, count), arith(f, FloatOp::Mul, before.1, part))
        } else {
            before
        }
    }
}

/// The keys between the tables of two sets, of the first set among the first `n`.
pub open spec fn links_between<F: Fn(FloatOp, u64, u64) -> u64>(f: F, es: Seq<Expr2>, ts: Seq<Held>, a: u32, b: u32, n: nat) -> (int, u64)
    decreases n,
{
    if n == 0 {
        (0, ONE)
    } else {
        let before = links_between(f, es, ts, a, b, (n - 1) as nat);
        if holds(a, n - 1) {
            links_to(f, es, ts, n - 1, b, ts.len(), before)
        } else {
            before
        }
    }
}

/// The links between all tables, by their numbers.
pub open spec fn is_link_table<F: Fn(FloatOp, u64, u64) -> u64>(f: F, es: Seq<Expr2>, ts: Seq<Held>, links: Seq<Vec<(usize, u64)>>) -> bool {
    &&& links.len() == ts.len()
    &&& forall|i: int| 0 <= i < ts.len() ==> (#[trigger] links[i])@.len() == ts.len()
    &&& forall|i: int, j: int|
        0 <= i < ts.len() && 0 <= j < ts.len() ==> ((#[trigger] links[i]@[j]).0 as int, links[i]@[j].1) == link(
            f,
            es,
            ts,
            i,
            j,
        )
}

fn list_links<F: Fn(FloatOp, u64, u64) -> u64>(fpu: &F, es: &Vec<&Expr2>, ts: &Vec<ExecTable>) -> (links: Vec<Vec<(usize, u64)>>)
    requires
        is_arith(*fpu),
        forall|k: int| 0 <= k < ts@.len() ==> (#[trigger] ts@[k]).wf(),
    ensures
        is_link_table(*fpu, referents(es@), all_held(ts@), links@),
{
    let mut links: Vec<Vec<(usize, u64)>> = Vec::new();
    let mut i: usize = 0;
    while i < ts.len()
        invariant
            is_arith(*fpu),
            forall|k: int| 0 <= k < ts@.len() ==> (#[trigger] ts@[k]).wf(),
            i <= ts@.len(),
            links@.len() == i,
            forall|k: int| 0 <= k < i ==> (#[trigger] links@[k])@.len() == ts@.len(),
            forall|k: int, j: int|
                0 <= k < i && 0 <= j < ts@.len() ==> ((#[trigger] links@[k]@[j]).0 as int, links@[k]@[j].1) == link(
                    *fpu,
                    referents(es@),
                    all_held(ts@),
                    k,
                    j,
                ),
        decreases ts.len() - i,
    {
        let mut row: Vec<(usize, u64)> = Vec::new();
        let mut j: usize = 0;
        while j < ts.len()
            invariant
                is_arith(*fpu),
                forall|k: int| 0 <= k < ts@.len() ==> (#[trigger] ts@[k]).wf(),
                i < ts@.len(),
                j <= ts@.len(),
                row@.len() == j,
                forall|q: int|
                    0 <= q < j ==> ((#[trigger] row@[q]).0 as int, row@[q].1) == link(
                        *fpu,
                        referents(es@),
                        all_held(ts@),
                        i as int,
                        q,
                    ),
            decreases ts.len() - j,
        {
            row.push(find_link(fpu, es, ts, i, j));
            j = j + 1;
        }
        links.push(row);
        i = i + 1;
    }
    links
}

fn in_set(set: u32, i: usize) -> (b: bool)
    requires
        i < 32,
    ensures
        b == holds(set, i as int),
{
    (set >> (i as u32)) & 1 == 1
}

fn count_links<F: Fn(FloatOp, u64, u64) -> u64>(
    fpu: &F,
    links: &Vec<Vec<(usize, u64)>>,
    a: u32,
    b: u32,
    es: Ghost<Seq<Expr2>>,
    ts: Ghost<Seq<Held>>,
) -> (r: (u64, u64))
    requires
        is_arith(*fpu),
        ts@.len() <= MOST,
        is_link_table(*fpu, es@, ts@, links@),
    ensures
        (r.0 as int, r.1) == links_between(*fpu, es@, ts@, a, b, ts@.len()),
{
    let mut count: u64 = 0;
    let mut part: u64 = ONE;
    let mut i: usize = 0;
    while i < links.len()
        invariant
            is_arith(*fpu),
            ts@.len() <= MOST,
            is_link_table(*fpu, es@, ts@, links@),
            i <= links@.len(),
            (count as int, part) == links_between(*fpu, es@, ts@, a, b, i as nat),
        decreases links.len() - i,
    {
        if in_set(a, i) {
            let ghost start = (count as int, part);
            let mut j: usize = 0;
            while j < links.len()
                invariant
                    is_arith(*fpu),
                    ts@.len() <= MOST,
                    is_link_table(*fpu, es@, ts@, links@),
                    i < links@.len(),
                    j <= links@.len(),
                    (count as int, part) == links_to(*fpu, es@, ts@, i as int, b, j as nat, start),
                decreases links.len() - j,
            {
                let (n, s): (usize, u64) = links[i][j];
                proof {
                    assert((n as int, s) == link(*fpu, es@, ts@, i as int, j as int));
                }
                if in_set(b, j) && n > 0 {
                    let more: u64 = n as u64;
                    count = if u64::MAX - count < more {
                        u64::MAX
                    } else {
                        count + more
                    };
                    part = fpu(FloatOp::Mul, part, s);
                }
                j = j + 1;
            }
        }
        i = i + 1;
    }
    (count, part)
}

/// The cost of joining two sets, and the rows that this gives.
pub open spec fn joint<F: Fn(FloatOp, u64, u64) -> u64>(f: F, l: DPEntry, r: DPEntry, keys: int, part: u64) -> (u64, u64) {
    let pairs = arith(f, FloatOp::Mul, l.cardinality, r.cardinality);
    let rows = arith(
        f,
        FloatOp::Mul,
        arith(f, FloatOp::Pow, pairs, arith(f, FloatOp::FromU64, keys as u64, 0)),
        part,
    );
    let made = arith(f, FloatOp::Add, l.cost, r.cost);
    let read = arith(f, FloatOp::Add, arith(f, FloatOp::Add, made, l.cardinality), r.cardinality);
    (arith(f, FloatOp::Add, read, rows), rows)
}

/// The number of the first table of a set among the first `n`.
pub open spec fn lowest(set: u32, n: nat) -> Option<int>
    decreases n,
{
    if n == 0 {
        None
    } else {
        match lowest(set, (n - 1) as nat) {
            Some(i) => Some(i),
            None => if holds(set, n - 1) {
                Some(n - 1)
            } else {
                None
            },
        }
    }
}

/// A set with one table at most.
pub open spec fn is_single(set: u32) -> bool {
    set == 0 || set & ((set - 1) as u32) == 0
}

/// The best way to join the tables of a set, if they can all be joined on keys.
pub open spec fn best_plan<F: Fn(FloatOp, u64, u64) -> u64>(f: F, es: Seq<Expr2>, ts: Seq<Held>, set: u32) -> Option<DPEntry>
    decreases set, set + 1,
{
    if is_single(set) {
        match lowest(set, ts.len()) {
            Some(i) => Some(
                DPEntry {
                    cost: 0,
                    cardinality: arith(f, FloatOp::FromU64, ts[i].row_count as u64, 0),
                    partition: None,
                },
            ),
            None => None,
        }
    } else {
        best_split(f, es, ts, set, 1)
    }
}

/// A set can be split in this part and the rest, the smaller word first.
pub open spec fn is_part(set: u32, part: u32) -> bool {
    0 < part < set && part & set == part && part < set ^ part
}

/// The best way to join the tables of a set that splits off one of the parts from
/// `from` on. Greater parts come first; a later one has to be cheaper.
pub open spec fn best_split<F: Fn(FloatOp, u64, u64) -> u64>(f: F, es: Seq<Expr2>, ts: Seq<Held>, set: u32, from: u32) -> Option<DPEntry>
    decreases set, set - from,
{
    if from >= set {
        None
    } else {
        let before = best_split(f, es, ts, set, (from + 1) as u32);
        let least = match before {
            Some(e) => e.cost,
            None => GREATEST,
        };
        if is_part(set, from) && from < set && set ^ from < set {
            match (best_plan(f, es, ts, from), best_plan(f, es, ts, set ^ from)) {
                (Some(l), Some(r)) => {
                    let (keys, part) = links_between(f, es, ts, from, set ^ from, ts.len());
                    let (cost, rows) = joint(f, l, r, keys, part);
                    if keys > 0 && float_lt(cost, least) {
                        Some(DPEntry { cost, cardinality: rows, partition: Some((from, set ^ from)) })
                    } else {
                        before
                    }
                },
                _ => before,
            }
        } else {
            before
        }
    }
}

/// Between two parts that follow each other there is none.
proof fn lemma_next_part(set: u32, sub: u32, x: u32)
    requires
        sub > 0,
        sub & set == sub,
        x < sub,
        x & set == x,
    ensures
        x <= ((sub - 1) as u32) & set,
{
    assert(x <= ((sub - 1) as u32) & set) by (bit_vector)
        requires
            sub > 0,
            sub & set == sub,
            x < sub,
            x & set == x,
    ;
}

proof fn lemma_skip_parts<F: Fn(FloatOp, u64, u64) -> u64>(f: F, es: Seq<Expr2>, ts: Seq<Held>, set: u32, low: u32, high: u32)
    requires
        low < high <= set,
        forall|x: u32| low < x < high ==> !#[trigger] is_part(set, x),
    ensures
        best_split(f, es, ts, set, (low + 1) as u32) == best_split(f, es, ts, set, high),
    decreases high - low,
{
    if low + 1 < high {
        assert(!is_part(set, (low + 1) as u32));
        lemma_skip_parts(f, es, ts, set, (low + 1) as u32, high);
    }
}

fn find_lowest(set: u32, n: usize) -> (r: Option<usize>)
    requires
        n <= MOST,
    ensures
        match r {
            Some(i) => i < n && lowest(set, n as nat) == Some(i as int),
            None => lowest(set, n as nat) is None,
        },
{
    let mut found: Option<usize> = None;
    let mut i: usize = 0;
    while i < n
        invariant
            n <= MOST,
            i <= n,
            match found {
                Some(k) => k < i && lowest(set, i as nat) == Some(k as int),
                None => lowest(set, i as nat) is None,
            },
        decreases n - i,
    {
        if found.is_none() && in_set(set, i) {
            found = Some(i);
        }
        i = i + 1;
    }
    found
}

/// The best ways to join the sets below `n`.
pub open spec fn is_plan_table<F: Fn(FloatOp, u64, u64) -> u64>(
    f: F,
    es: Seq<Expr2>,
    ts: Seq<Held>,
    dp: Seq<Option<DPEntry>>,
    n: int,
) -> bool {
    &&& dp.len() == n
    &&& forall|set: u32| set < n ==> #[trigger] dp[set as int] == best_plan(f, es, ts, set)
}

fn plan_set<F: Fn(FloatOp, u64, u64) -> u64>(
    fpu: &F,
    links: &Vec<Vec<(usize, u64)>>,
    dp: &Vec<Option<DPEntry>>,
    set: u32,
    es: Ghost<Seq<Expr2>>,
    ts: Ghost<Seq<Held>>,
) -> (best: Option<DPEntry>)
    requires
        is_arith(*fpu),
        ts@.len() <= MOST,
        is_link_table(*fpu, es@, ts@, links@),
        is_plan_table(*fpu, es@, ts@, dp@, set as int),
        set > 0,
    ensures
        best == best_split(*fpu, es@, ts@, set, 1),
{
    let mut best: Option<DPEntry> = None;
    let mut sub: u32 = (set - 1) & set;
    let mut above: u32 = set;
    proof {
        assert(set & set == set && ((set - 1) as u32) & set < set && (((set - 1) as u32) & set) & set == ((set - 1) as u32)
            & set) by (bit_vector)
            requires
                set > 0,
        ;
        assert forall|x: u32| sub < x < above implies !#[trigger] is_part(set, x) by {
            if is_part(set, x) {
                lemma_next_part(set, set, x);
            }
        }
    }
    while sub > 0
        invariant
            is_arith(*fpu),
            ts@.len() <= MOST,
            is_link_table(*fpu, es@, ts@, links@),
            is_plan_table(*fpu, es@, ts@, dp@, set as int),
            sub < above <= set,
            sub & set == sub,
            forall|x: u32| sub < x < above ==> !#[trigger] is_part(set, x),
            best == best_split(*fpu, es@, ts@, set, above),
        decreases sub,
    {
        let other: u32 = set ^ sub;
        proof {
            lemma_skip_parts(*fpu, es@, ts@, set, sub, above);
            assert((set ^ sub) < set) by (bit_vector)
                requires
                    sub & set == sub,
                    sub > 0,
            ;
        }
        if sub < other {
            match (&dp[sub as usize], &dp[other as usize]) {
                (Some(l), Some(r)) => {
                    proof {
                        assert(dp@[sub as int] == best_plan(*fpu, es@, ts@, sub));
                        assert(dp@[other as int] == best_plan(*fpu, es@, ts@, other));
                    }
                    let (keys, part): (u64, u64) = count_links(fpu, links, sub, other, es, ts);
                    if keys > 0 {
                        let pairs: u64 = fpu(FloatOp::Mul, l.cardinality, r.cardinality);
                        let power: u64 = fpu(FloatOp::FromU64, keys, 0);
                        let raised: u64 = fpu(FloatOp::Pow, pairs, power);
                        let rows: u64 = fpu(FloatOp::Mul, raised, part);
                        let made: u64 = fpu(FloatOp::Add, l.cost, r.cost);
                        let left: u64 = fpu(FloatOp::Add, made, l.cardinality);
                        let read: u64 = fpu(FloatOp::Add, left, r.cardinality);
                        let cost: u64 = fpu(FloatOp::Add, read, rows);
                        let least: u64 = match best {
                            Some(e) => e.cost,
                            None => GREATEST,
                        };
                        if less(cost, least) {
                            best = Some(DPEntry { cost, cardinality: rows, partition: Some((sub, other)) });
                        }
                    }
                },
                _ => {
                    proof {
                        assert(dp@[sub as int] == best_plan(*fpu, es@, ts@, sub));
                        assert(dp@[other as int] == best_plan(*fpu, es@, ts@, other));
                    }
                },
            }
        }
        proof {
            assert(best == best_split(*fpu, es@, ts@, set, sub));
        }
        let next: u32 = (sub - 1) & set;
        proof {
            assert(((sub - 1) as u32) & set < sub && (((sub - 1) as u32) & set) & set == ((sub - 1) as u32) & set)
                by (bit_vector)
                requires
                    sub > 0,
            ;
            assert forall|x: u32| next < x < sub implies !#[trigger] is_part(set, x) by {
                if is_part(set, x) {
                    lemma_next_part(set, sub, x);
                }
            }
        }
        above = sub;
        sub = next;
    }
    proof {
        lemma_skip_parts(*fpu, es@, ts@, set, 0, above);
    }
    best
}

fn plan_all<F: Fn(FloatOp, u64, u64) -> u64>(
    fpu: &F,
    links: &Vec<Vec<(usize, u64)>>,
    tables: &Vec<ExecTable>,
    total: u32,
    es: Ghost<Seq<Expr2>>,
) -> (dp: Vec<Option<DPEntry>>)
    requires
        is_arith(*fpu),
        tables@.len() <= MOST,
        is_link_table(*fpu, es@, all_held(tables@), links@),
    ensures
        is_plan_table(*fpu, es@, all_held(tables@), dp@, total as int),
{
    let mut dp: Vec<Option<DPEntry>> = Vec::new();
    let mut set: u32 = 0;
    while set < total
        invariant
            is_arith(*fpu),
            tables@.len() <= MOST,
            is_link_table(*fpu, es@, all_held(tables@), links@),
            set <= total,
            is_plan_table(*fpu, es@, all_held(tables@), dp@, set as int),
        decreases total - set,
    {
        let single: bool = set == 0 || set & (set - 1) == 0;
        let entry: Option<DPEntry> = if single {
            match find_lowest(set, tables.len()) {
                Some(i) => Some(
                    DPEntry {
                        cost: 0,
                        cardinality: fpu(FloatOp::FromU64, tables[i].row_count as u64, 0),
                        partition: None,
                    },
                ),
                None => None,
            }
        } else {
            plan_set(fpu, links, &dp, set, es, Ghost(all_held(tables@)))
        };
        proof {
            assert(entry == best_plan(*fpu, es@, all_held(tables@), set));
        }
        dp.push(entry);
        set = set + 1;
    }
    dp
}

/// What following the best plan for a set comes to.
pub open spec fn plan_result<F: Fn(FloatOp, u64, u64) -> u64>(
    f: F,
    es: Seq<Expr2>,
    ts: Seq<Held>,
    set: u32,
) -> Result<Held, Fail>
    decreases set,
{
    match best_plan(f, es, ts, set) {
        Some(entry) => match entry.partition {
            Some((a, b)) => if a < set && b < set {
                both_join(es, plan_result(f, es, ts, a), plan_result(f, es, ts, b))
            } else {
                Err(Fail::Other(no_tables()))
            },
            None => Ok(ts[lowest(set, ts.len())->0]),
        },
        None => Err(Fail::Other(no_tables())),
    }
}

/// What joining two results comes to. The first failure counts.
pub open spec fn both_join(es: Seq<Expr2>, x: Result<Held, Fail>, y: Result<Held, Fail>) -> Result<Held, Fail> {
    match x {
        Err(f) => Err(f),
        Ok(l) => match y {
            Err(f) => Err(f),
            Ok(t) => joins_to(l, t, join_keys(es, l, t, es.len())),
        },
    }
}

/// No way to split a set is cheaper than the one that is chosen.
pub proof fn best_split_is_cheapest<F: Fn(FloatOp, u64, u64) -> u64>(
    f: F,
    es: Seq<Expr2>,
    ts: Seq<Held>,
    set: u32,
    from: u32,
    part: u32,
    l: DPEntry,
    r: DPEntry,
)
    requires
        from <= part,
        is_part(set, part),
        set ^ part < set,
        best_plan(f, es, ts, part) == Some(l),
        best_plan(f, es, ts, set ^ part) == Some(r),
        links_between(f, es, ts, part, set ^ part, ts.len()).0 > 0,
        best_split(f, es, ts, set, from) is Some,
    ensures
        !float_lt(
            joint(
                f,
                l,
                r,
                links_between(f, es, ts, part, set ^ part, ts.len()).0,
                links_between(f, es, ts, part, set ^ part, ts.len()).1,
            ).0,
            best_split(f, es, ts, set, from)->0.cost,
        ),
    decreases set - from,
{
    let before = best_split(f, es, ts, set, (from + 1) as u32);
    if from < part {
        if before is Some {
            best_split_is_cheapest(f, es, ts, set, (from + 1) as u32, part, l, r);
        } else {
            lemma_cost_was_no_less(f, es, ts, set, (from + 1) as u32, part, l, r);
            lemma_split_cost(f, es, ts, set, from);
        }
    }
}

/// A plan is chosen only if its cost is less than the greatest double.
proof fn lemma_split_cost<F: Fn(FloatOp, u64, u64) -> u64>(f: F, es: Seq<Expr2>, ts: Seq<Held>, set: u32, from: u32)
    ensures
        best_split(f, es, ts, set, from) matches Some(e) ==> float_lt(e.cost, GREATEST),
    decreases set - from,
{
    if from < set {
        lemma_split_cost(f, es, ts, set, (from + 1) as u32);
    }
}

proof fn lemma_cost_was_no_less<F: Fn(FloatOp, u64, u64) -> u64>(
    f: F,
    es: Seq<Expr2>,
    ts: Seq<Held>,
    set: u32,
    from: u32,
    part: u32,
    l: DPEntry,
    r: DPEntry,
)
    requires
        from <= part,
        is_part(set, part),
        set ^ part < set,
        best_plan(f, es, ts, part) == Some(l),
        best_plan(f, es, ts, set ^ part) == Some(r),
        links_between(f, es, ts, part, set ^ part, ts.len()).0 > 0,
        best_split(f, es, ts, set, from) is None,
    ensures
        !float_lt(
            joint(
                f,
                l,
                r,
                links_between(f, es, ts, part, set ^ part, ts.len()).0,
                links_between(f, es, ts, part, set ^ part, ts.len()).1,
            ).0,
            GREATEST,
        ),
    decreases set - from,
{
    if from < part {
        lemma_cost_was_no_less(f, es, ts, set, (from + 1) as u32, part, l, r);
    }
}

/// A table of the query, by its number, or one that was made.
pub enum Planned {
    Given(usize),
    Made(ExecTable),
}

impl Planned {
    pub open spec fn table(&self, ts: Seq<ExecTable>) -> Held {
        match self {
            Planned::Given(i) => ts[*i as int]@,
            Planned::Made(t) => t@,
        }
    }

    pub open spec fn wf(&self, ts: Seq<ExecTable>) -> bool {
        match self {
            Planned::Given(i) => *i < ts.len() && ts[*i as int].wf(),
            Planned::Made(t) => t.wf(),
        }
    }

    fn get<'a>(&'a self, ts: &'a Vec<ExecTable>) -> (t: &'a ExecTable)
        requires
            self.wf(ts@),
        ensures
            t@ == self.table(ts@),
            t.wf(),
    {
        match self {
            Planned::Given(i) => &ts[*i],
            Planned::Made(t) => t,
        }
    }
}

/// Every set has a plan that splits it in smaller sets with a plan.
proof fn lemma_split_parts<F: Fn(FloatOp, u64, u64) -> u64>(f: F, es: Seq<Expr2>, ts: Seq<Held>, set: u32, from: u32)
    ensures
        best_split(f, es, ts, set, from) matches Some(e) ==> (e.partition matches Some((a, b)) && a < set && b < set
            && best_plan(f, es, ts, a) is Some && best_plan(f, es, ts, b) is Some),
    decreases set - from,
{
    if from < set {
        lemma_split_parts(f, es, ts, set, (from + 1) as u32);
    }
}

/// Follows the best plan for a set.
pub fn execute_dp_plan<F: Fn(FloatOp, u64, u64) -> u64>(
    dp: &Vec<Option<DPEntry>>,
    tables: &Vec<ExecTable>,
    es: &Vec<&Expr2>,
    set: u32,
    fpu: &F,
) -> (r: Result<Planned, Error>)
    requires
        tables@.len() <= MOST,
        forall|k: int| 0 <= k < tables@.len() ==> (#[trigger] tables@[k]).wf(),
        is_plan_table(*fpu, referents(es@), all_held(tables@), dp@, dp@.len() as int),
        set < dp@.len(),
        best_plan(*fpu, referents(es@), all_held(tables@), set) is Some,
    ensures
        match r {
            Ok(p) => p.wf(tables@) && plan_result(*fpu, referents(es@), all_held(tables@), set) == Ok::<Held, Fail>(
                p.table(tables@),
            ),
            Err(e) => plan_result(*fpu, referents(es@), all_held(tables@), set) == Err::<Held, Fail>(e@),
        },
    decreases set,
{
    let ghost parts = referents(es@);
    let ghost ts = all_held(tables@);
    proof {
        assert(dp@[set as int] == best_plan(*fpu, parts, ts, set));
        lemma_split_parts(*fpu, parts, ts, set, 1);
    }
    let partition: Option<(u32, u32)> = match &dp[set as usize] {
        Some(entry) => entry.partition,
        None => None,
    };
    match partition {
        None => {
            match find_lowest(set, tables.len()) {
                Some(i) => {
                    let p: Planned = Planned::Given(i);
                    proof {
                        assert(ts[i as int] == tables@[i as int]@);
                    }
                    Ok(p)
                },
                None => {
                    proof {
                        assert(false);
                    }
                    Err(Error::Other(String::new()))
                },
            }
        },
        Some((a, b)) => {
            let left: Planned = match execute_dp_plan(dp, tables, es, a, fpu) {
                Ok(p) => p,
                Err(e) => {
                    return Err(e);
                },
            };
            let right: Planned = match execute_dp_plan(dp, tables, es, b, fpu) {
                Ok(p) => p,
                Err(e) => {
                    return Err(e);
                },
            };
            let l: &ExecTable = left.get(tables);
            let t: &ExecTable = right.get(tables);
            let keys: Vec<JoinKey2> = find_join_keys(l, t, es);
            proof {
                assert(es@.len() == parts.len());
            }
            match join_two(l, t, &keys) {
                Ok(made) => Ok(Planned::Made(made)),
                Err(e) => Err(e),
            }
        },
    }
}

/// What tables come to that are joined in the best order; without a best order,
/// or where they are too few or too many, from the smallest on.
pub open spec fn ordered<F: Fn(FloatOp, u64, u64) -> u64>(f: F, es: Seq<Expr2>, ts: Seq<Held>) -> Result<Held, Fail> {
    let all = ((1u32 << (ts.len() as u32)) - 1) as u32;
    if ts.len() < FEWEST || ts.len() > MOST || best_plan(f, es, ts, all) is None {
        greedy(f, es, ts)
    } else {
        plan_result(f, es, ts, all)
    }
}

/// What the tables of a query come to: each condition on one table is held against
/// that table, then all are joined.
pub open spec fn join_plan<F: Fn(FloatOp, u64, u64) -> u64, P: Fn(&str) -> Option<u64>>(
    c: Env<F, P>,
    tables: Seq<Held>,
    es: Seq<Expr2>,
) -> Result<Held, Fail> {
    match all_sifted(c, es, tables, tables.len()) {
        Ok(ts) => ordered(c.fpu, es, ts),
        Err(f) => Err(f),
    }
}

fn join_in_order<F: Fn(FloatOp, u64, u64) -> u64>(fpu: &F, tables: Vec<ExecTable>, es: &Vec<&Expr2>) -> (r: Result<ExecTable, Error>)
    requires
        is_arith(*fpu),
        forall|k: int| 0 <= k < tables@.len() ==> (#[trigger] tables@[k]).wf(),
    ensures
        table_outcome(r) == ordered(*fpu, referents(es@), all_held(tables@)),
        r matches Ok(t) ==> t.wf(),
{
    let n: usize = tables.len();
    if n < FEWEST || n > MOST {
        return join_tables_greedy_core(fpu, tables, es);
    }
    let links: Vec<Vec<(usize, u64)>> = list_links(fpu, es, &tables);
    let width: u32 = n as u32;
    let total: u32 = 1u32 << width;
    proof {
        assert(16 <= 1u32 << width && 1u32 << width <= 65536) by (bit_vector)
            requires
                4 <= width <= 16,
        ;
    }
    let ghost parts = referents(es@);
    let dp: Vec<Option<DPEntry>> = plan_all(fpu, &links, &tables, total, Ghost(parts));
    let all: u32 = total - 1;
    proof {
        assert(dp@[all as int] == best_plan(*fpu, parts, all_held(tables@), all));
    }
    if dp[all as usize].is_none() {
        return join_tables_greedy_core(fpu, tables, es);
    }
    match execute_dp_plan(&dp, &tables, es, all, fpu) {
        Ok(Planned::Made(t)) => Ok(t),
        Ok(Planned::Given(i)) => {
            let mut rest: Vec<ExecTable> = tables;
            Ok(rest.remove(i))
        },
        Err(e) => Err(e),
    }
}

/// Joins the tables of a query in the best order.
pub fn plan_join_dp<
    F: Fn(FloatOp, u64, u64) -> u64,
    P: Fn(&str) -> Option<u64>,
    S: Fn(&Expr2, &ExecTable, usize) -> Result<Value2, Error>,
>(c: &Ctx<'_, F, P, S>, tables: Vec<ExecTable>, where_clause: &Option<Expr2>) -> (r: Result<
    ExecTable,
    Error,
>)
    requires
        ctx_ok(*c),
        forall|i: int| 0 <= i < tables@.len() ==> (#[trigger] tables@[i]).wf(),
    ensures
        table_outcome(r) == join_plan(c@, all_held(tables@), conjuncts(*where_clause)),
        r matches Ok(t) ==> t.wf(),
{
    let es: Vec<&Expr2> = split_conjuncts(where_clause);
    match apply_single_table_filters(c, tables, &es) {
        Ok(ts) => join_in_order(c.fpu, ts, &es),
        Err(e) => Err(e),
    }
}

} // verus!
