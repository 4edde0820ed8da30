//! Sums and counts by group, in the order in which doubles are added.
//!
//! Rows are added up in blocks: within a block from the first row to the last,
//! then block after block. Since adding doubles is not associative, the blocks
//! are part of what a sum is.

use crate::float_bits::{arith, is_arith, FloatOp};
use crate::group_index::{GroupIndex, Key};
use vstd::prelude::*;

verus! {

/// The rows of a block.
pub const BLOCK: usize = 65536;

/// A row's part in a grouped sum: the key of its group and its term, or nothing.
pub type Term = Option<(Key, u64)>;

/// A number, or zero where there is none yet.
pub open spec fn or_zero(x: Option<u64>) -> u64 {
    match x {
        Some(v) => v,
        None => 0,
    }
}

/// The sum of the terms of a key in the rows from `lo` up to `hi`; nothing
/// where there is no such row.
pub open spec fn block_sum<F: Fn(FloatOp, u64, u64) -> u64>(f: F, rows: Seq<Term>, k: Key, lo: int, hi: int) -> Option<u64>
    decreases hi - lo,
{
    if hi <= lo {
        None
    } else {
        let before = block_sum(f, rows, k, lo, hi - 1);
        match rows[hi - 1] {
            Some((key, term)) => if key == k {
                Some(arith(f, FloatOp::Add, or_zero(before), term))
            } else {
                before
            },
            None => before,
        }
    }
}

/// Where block `b` begins, with blocks of `size` rows.
pub open spec fn block_start(n: int, size: int, b: int) -> int {
    if b * size < n {
        b * size
    } else {
        n
    }
}

/// The sum of the terms of a key in the first `b` blocks.
pub open spec fn blocks_sum<F: Fn(FloatOp, u64, u64) -> u64>(
    f: F,
    rows: Seq<Term>,
    k: Key,
    size: int,
    b: nat,
) -> Option<u64>
    decreases b,
{
    if b == 0 {
        None
    } else {
        let before = blocks_sum(f, rows, k, size, (b - 1) as nat);
        let n = rows.len() as int;
        match block_sum(f, rows, k, block_start(n, size, b - 1), block_start(n, size, b as int)) {
            Some(s) => Some(arith(f, FloatOp::Add, or_zero(before), s)),
            None => before,
        }
    }
}

/// How many blocks `n` rows make up.
pub open spec fn block_count(n: int, size: int) -> nat {
    if size <= 0 || n <= 0 {
        0
    } else {
        ((n - 1) / size + 1) as nat
    }
}

/// The sum of the terms of a key over all rows.
pub open spec fn group_sum<F: Fn(FloatOp, u64, u64) -> u64>(f: F, rows: Seq<Term>, k: Key) -> Option<u64> {
    blocks_sum(f, rows, k, BLOCK as int, block_count(rows.len() as int, BLOCK as int))
}

/// The keys of the first `n` rows, each once, in the order in which they come.
pub open spec fn keys_seen(rows: Seq<Term>, n: int) -> Seq<Key>
    decreases n,
{
    if n <= 0 {
        Seq::empty()
    } else {
        let before = keys_seen(rows, n - 1);
        match rows[n - 1] {
            Some((key, _)) => if before.contains(key) {
                before
            } else {
                before.push(key)
            },
            None => before,
        }
    }
}

/// The keys of all groups, in the order in which they come.
pub open spec fn group_keys(rows: Seq<Term>) -> Seq<Key> {
    keys_seen(rows, rows.len() as int)
}

/// Row `i` has a term for the key `k`.
pub open spec fn row_has(rows: Seq<Term>, i: int, k: Key) -> bool {
    rows[i] matches Some((key, _)) && key == k
}

/// The keys seen are those of the rows.
pub proof fn keys_seen_are_row_keys(rows: Seq<Term>, n: int, k: Key)
    requires
        0 <= n <= rows.len(),
    ensures
        keys_seen(rows, n).contains(k) <==> exists|i: int| 0 <= i < n && #[trigger] row_has(rows, i, k),
        keys_seen(rows, n).no_duplicates(),
    decreases n,
{
    if n > 0 {
        keys_seen_are_row_keys(rows, n - 1, k);
        let before = keys_seen(rows, n - 1);
        let now = keys_seen(rows, n);
        if now.contains(k) {
            if before.contains(k) {
                let i = choose|i: int| 0 <= i < n - 1 && #[trigger] row_has(rows, i, k);
                assert(row_has(rows, i, k));
            } else {
                let j = choose|j: int| 0 <= j < now.len() && now[j] == k;
                assert(j == before.len());
                assert(row_has(rows, n - 1, k));
            }
        }
        if exists|i: int| 0 <= i < n && #[trigger] row_has(rows, i, k) {
            let i = choose|i: int| 0 <= i < n && #[trigger] row_has(rows, i, k);
            if i < n - 1 {
                assert(before.contains(k));
                let j = choose|j: int| 0 <= j < before.len() && before[j] == k;
                assert(now[j] == k);
            } else if !before.contains(k) {
                assert(now[before.len() as int] == k);
            }
        }
    }
}

pub proof fn lemma_block_start(n: int, size: int, b: int)
    requires
        n >= 0,
        size > 0,
        b >= 0,
    ensures
        0 <= block_start(n, size, b) <= n,
        block_start(n, size, b) <= block_start(n, size, b + 1) <= block_start(n, size, b) + size,
        block_start(n, size, 0) == 0,
        block_start(n, size, b) < n ==> block_start(n, size, b) == b * size,
{
    assert((b + 1) * size == b * size + size) by (nonlinear_arith);
    assert(b * size >= 0) by (nonlinear_arith)
        requires
            b >= 0,
            size > 0,
    ;
    assert(0 * size == 0);
}

pub proof fn lemma_last_block(n: int, size: int)
    requires
        n >= 0,
        size > 0,
    ensures
        block_start(n, size, block_count(n, size) as int) == n,
        forall|b: int| 0 <= b && block_start(n, size, b) < n <==> 0 <= b < block_count(n, size),
{
    if n > 0 {
        let q = (n - 1) / size;
        assert(q * size <= n - 1 < (q + 1) * size) by (nonlinear_arith)
            requires
                q == (n - 1) / size,
                size > 0,
        ;
        assert(q >= 0) by (nonlinear_arith)
            requires
                q == (n - 1) / size,
                size > 0,
                n > 0,
        ;
        assert forall|b: int| 0 <= b && block_start(n, size, b) < n <==> 0 <= b < block_count(n, size) by {
            if 0 <= b <= q {
                assert(b * size <= q * size) by (nonlinear_arith)
                    requires
                        b <= q,
                        size > 0,
                ;
            }
            if b > q {
                assert(b * size >= (q + 1) * size) by (nonlinear_arith)
                    requires
                        b >= q + 1,
                        size > 0,
                ;
            }
        }
    } else {
        assert(0 * size == 0);
        assert forall|b: int| 0 <= b && block_start(n, size, b) < n <==> 0 <= b < block_count(n, size) by {
            if b >= 0 {
                lemma_block_start(n, size, b);
            }
        }
    }
}

/// Adds up a block on its own.
pub fn sum_block<F: Fn(FloatOp, u64, u64) -> u64>(
    rows: &Vec<Term>,
    lo: usize,
    hi: usize,
    fpu: &F,
) -> (r: (GroupIndex, Vec<u64>))
    requires
        is_arith(*fpu),
        lo <= hi <= rows.len(),
    ensures
        r.0.wf(),
        r.1.len() == r.0@.len(),
        forall|k: Key| #[trigger] r.0@.contains(k) <==> block_sum(*fpu, rows@, k, lo as int, hi as int) is Some,
        forall|s: int| 0 <= s < r.1.len() ==> block_sum(*fpu, rows@, #[trigger] r.0@[s], lo as int, hi as int) == Some(r.1@[s]),
        forall|seen: Seq<Key>| #[trigger] merge_keys(seen, r.0@) == seen_from(rows@, seen, lo as int, hi as int),
{
    let mut groups: GroupIndex = GroupIndex::new();
    let mut sums: Vec<u64> = Vec::new();
    let mut i: usize = lo;
    proof {
        assert forall|seen: Seq<Key>| #[trigger] merge_keys(seen, groups@) == seen_from(rows@, seen, lo as int, lo as int) by {}
    }
    while i < hi
        invariant
            is_arith(*fpu),
            lo <= i <= hi <= rows.len(),
            groups.wf(),
            sums.len() == groups@.len(),
            forall|k: Key| #[trigger] groups@.contains(k) <==> block_sum(*fpu, rows@, k, lo as int, i as int) is Some,
            forall|s: int| 0 <= s < sums.len() ==> block_sum(*fpu, rows@, #[trigger] groups@[s], lo as int, i as int) == Some(sums@[s]),
            forall|seen: Seq<Key>| #[trigger] merge_keys(seen, groups@) == seen_from(rows@, seen, lo as int, i as int),
        decreases hi - i,
    {
        let ghost before = groups@;
        let ghost old_sums = sums@;
        match rows[i] {
            Some((key, term)) => {
                let slot: usize = groups.slot_of(key);
                proof {
                    groups.keys_are_distinct();
                    assert forall|seen: Seq<Key>| #[trigger] merge_keys(seen, groups@) == seen_from(
                        rows@,
                        seen,
                        lo as int,
                        i + 1,
                    ) by {
                        assert(merge_keys(seen, before) == seen_from(rows@, seen, lo as int, i as int));
                        if before.contains(key) {
                            lemma_merge_contains(seen, before, key);
                        } else {
                            assert(groups@.drop_last() =~= before);
                            assert(groups@.last() == key);
                        }
                    }
                }
                if slot == sums.len() {
                    proof {
                        assert(!before.contains(key)) by {
                            if before.contains(key) {
                                assert(groups@ == before);
                            }
                        }
                        assert(block_sum(*fpu, rows@, key, lo as int, i as int) is None);
                    }
                    sums.push(fpu(FloatOp::Add, 0, term));
                    proof {
                        assert forall|s: int| 0 <= s < sums.len() implies block_sum(*fpu, rows@, #[trigger] groups@[s], lo as int, i + 1) == Some(sums@[s]) by {
                            if s < old_sums.len() {
                                assert(groups@[s] == before[s]);
                                assert(groups@[s] != key) by {
                                    assert(before.contains(before[s]));
                                }
                            }
                        }
                        assert forall|k: Key| #[trigger] groups@.contains(k) <==> block_sum(*fpu, rows@, k, lo as int, i + 1) is Some by {
                            if groups@.contains(k) && k != key {
                                let j = choose|j: int| 0 <= j < groups@.len() && groups@[j] == k;
                                assert(before[j] == k);
                                assert(before.contains(k));
                            }
                            if before.contains(k) {
                                let j = choose|j: int| 0 <= j < before.len() && before[j] == k;
                                assert(groups@[j] == k);
                            }
                            if k == key {
                                assert(groups@[slot as int] == k);
                            }
                        }
                    }
                } else {
                    proof {
                        assert(before.contains(key)) by {
                            if !before.contains(key) {
                                assert(groups@ =~= before.push(key));
                                assert(groups@[slot as int] == before[slot as int]);
                                assert(before.contains(before[slot as int]));
                            }
                        }
                        assert(groups@ == before);
                    }
                    let sum: u64 = fpu(FloatOp::Add, sums[slot], term);
                    sums.set(slot, sum);
                    proof {
                        assert forall|s: int| 0 <= s < sums.len() implies block_sum(*fpu, rows@, #[trigger] groups@[s], lo as int, i + 1) == Some(sums@[s]) by {
                            assert(block_sum(*fpu, rows@, groups@[s], lo as int, i as int) == Some(old_sums[s]));
                            if s != slot {
                                assert(groups@[s] != key);
                            }
                        }
                    }
                }
            },
            None => {},
        }
        i = i + 1;
    }
    (groups, sums)
}

/// The keys of one list and then those of another that are not yet there.
pub open spec fn merge_keys(seen: Seq<Key>, more: Seq<Key>) -> Seq<Key>
    decreases more.len(),
{
    if more.len() == 0 {
        seen
    } else {
        let before = merge_keys(seen, more.drop_last());
        if before.contains(more.last()) {
            before
        } else {
            before.push(more.last())
        }
    }
}

/// The keys of one list and then those of the rows from `lo` up to `hi` that
/// are not yet there.
pub open spec fn seen_from(rows: Seq<Term>, seen: Seq<Key>, lo: int, hi: int) -> Seq<Key>
    decreases hi - lo,
{
    if hi <= lo {
        seen
    } else {
        let before = seen_from(rows, seen, lo, hi - 1);
        match rows[hi - 1] {
            Some((key, _)) => if before.contains(key) {
                before
            } else {
                before.push(key)
            },
            None => before,
        }
    }
}

proof fn lemma_merge_contains(seen: Seq<Key>, more: Seq<Key>, k: Key)
    requires
        more.contains(k),
    ensures
        merge_keys(seen, more).contains(k),
    decreases more.len(),
{
    let front = more.drop_last();
    let before = merge_keys(seen, front);
    let j = choose|j: int| 0 <= j < more.len() && more[j] == k;
    if j < front.len() {
        assert(front[j] == k);
        lemma_merge_contains(seen, front, k);
        let w = choose|w: int| 0 <= w < before.len() && before[w] == k;
        if !before.contains(more.last()) {
            assert(before.push(more.last())[w] == k);
        }
    } else if !before.contains(k) {
        assert(before.push(k)[before.len() as int] == k);
    }
}

proof fn lemma_seen_from_splits(rows: Seq<Term>, lo: int, hi: int)
    requires
        0 <= lo <= hi <= rows.len(),
    ensures
        seen_from(rows, keys_seen(rows, lo), lo, hi) == keys_seen(rows, hi),
    decreases hi - lo,
{
    if lo < hi {
        lemma_seen_from_splits(rows, lo, hi - 1);
    }
}

/// Adds up terms by key: the keys in the order in which they come, and the sum
/// of each.
pub fn index_sums<F: Fn(FloatOp, u64, u64) -> u64>(rows: &Vec<Term>, fpu: &F) -> (r: (GroupIndex, Vec<u64>))
    requires
        is_arith(*fpu),
    ensures
        r.0.wf(),
        r.0@ == group_keys(rows@),
        r.1.len() == r.0@.len(),
        forall|k: Key| #[trigger] r.0@.contains(k) <==> group_sum(*fpu, rows@, k) is Some,
        forall|g: int| 0 <= g < r.0@.len() ==> group_sum(*fpu, rows@, #[trigger] r.0@[g]) == Some(r.1@[g]),
{
    let ghost n = rows.len() as int;
    let ghost size = BLOCK as int;
    let mut groups: GroupIndex = GroupIndex::new();
    let mut sums: Vec<u64> = Vec::new();
    let mut lo: usize = 0;
    let ghost mut b: int = 0;
    proof {
        lemma_block_start(n, size, 0);
    }
    while lo < rows.len()
        invariant
            is_arith(*fpu),
            n == rows.len(),
            size == BLOCK,
            b >= 0,
            lo == block_start(n, size, b),
            groups.wf(),
            groups@ == keys_seen(rows@, lo as int),
            sums.len() == groups@.len(),
            forall|k: Key| #[trigger] groups@.contains(k) <==> blocks_sum(*fpu, rows@, k, size, b as nat) is Some,
            forall|s: int|
                0 <= s < sums.len() ==> blocks_sum(*fpu, rows@, #[trigger] groups@[s], size, b as nat) == Some(sums@[s]),
        decreases rows.len() - lo,
    {
        let hi: usize = if rows.len() - lo < BLOCK {
            rows.len()
        } else {
            lo + BLOCK
        };
        proof {
            lemma_block_start(n, size, b);
            assert((b + 1) * size == b * size + size) by (nonlinear_arith);
            assert(hi == block_start(n, size, b + 1));
        }
        let (part, part_sums): (GroupIndex, Vec<u64>) = sum_block(rows, lo, hi, fpu);
        let ghost seen = groups@;
        proof {
            part.keys_are_distinct();
            lemma_seen_from_splits(rows@, lo as int, hi as int);
            assert(merge_keys(seen, part@) == keys_seen(rows@, hi as int));
            assert(part@.take(0) =~= Seq::<Key>::empty());
        }
        let mut s: usize = 0;
        let ghost bb = b;
        while s < part.len()
            invariant
                is_arith(*fpu),
                n == rows.len(),
                b == bb,
                b >= 0,
                lo == block_start(n, size, b),
                hi == block_start(n, size, b + 1),
                part.wf(),
                part@.no_duplicates(),
                part_sums.len() == part@.len(),
                s <= part@.len(),
                groups.wf(),
                groups@ == merge_keys(seen, part@.take(s as int)),
                sums.len() == groups@.len(),
                forall|k: Key| #[trigger] part@.contains(k) <==> block_sum(*fpu, rows@, k, lo as int, hi as int) is Some,
                forall|q: int|
                    0 <= q < part_sums.len() ==> block_sum(*fpu, rows@, #[trigger] part@[q], lo as int, hi as int)
                        == Some(part_sums@[q]),
                forall|k: Key|
                    #[trigger] groups@.contains(k) <==> blocks_sum(*fpu, rows@, k, size, b as nat) is Some
                        || part@.take(s as int).contains(k),
                forall|q: int|
                    0 <= q < sums.len() ==> Some(sums@[q]) == (if part@.take(s as int).contains(
                        #[trigger] groups@[q],
                    ) {
                        blocks_sum(*fpu, rows@, groups@[q], size, (b + 1) as nat)
                    } else {
                        blocks_sum(*fpu, rows@, groups@[q], size, b as nat)
                    }),
            decreases part@.len() - s,
        {
            let key: Key = part.key(s);
            let ghost before = groups@;
            let ghost old_sums = sums@;
            let ghost done = part@.take(s as int);
            let ghost now = part@.take(s + 1);
            proof {
                assert(now.drop_last() =~= done);
                assert(now.last() == key);
                assert(now =~= done.push(key));
                assert(!done.contains(key)) by {
                    if done.contains(key) {
                        let j = choose|j: int| 0 <= j < done.len() && done[j] == key;
                        assert(part@[j] == part@[s as int]);
                    }
                }
                assert forall|k: Key| #[trigger] now.contains(k) <==> done.contains(k) || k == key by {
                    if now.contains(k) {
                        let j = choose|j: int| 0 <= j < now.len() && now[j] == k;
                        if j < s {
                            assert(done[j] == k);
                        }
                    }
                    if done.contains(k) {
                        let j = choose|j: int| 0 <= j < done.len() && done[j] == k;
                        assert(now[j] == k);
                    }
                    if k == key {
                        assert(now[s as int] == k);
                    }
                }
                assert(part@[s as int] == key);
                assert(block_sum(*fpu, rows@, key, lo as int, hi as int) == Some(part_sums@[s as int]));
                assert((b + 1) as nat - 1 == b);
            }
            let slot: usize = groups.slot_of(key);
            proof {
                groups.keys_are_distinct();
            }
            if slot == sums.len() {
                proof {
                    assert(!before.contains(key)) by {
                        if before.contains(key) {
                            assert(groups@ == before);
                        }
                    }
                    assert(blocks_sum(*fpu, rows@, key, size, b as nat) is None);
                }
                sums.push(fpu(FloatOp::Add, 0, part_sums[s]));
            } else {
                proof {
                    assert(before.contains(key)) by {
                        if !before.contains(key) {
                            assert(groups@ =~= before.push(key));
                            assert(groups@[slot as int] == before[slot as int]);
                            assert(before.contains(before[slot as int]));
                        }
                    }
                    assert(groups@ == before);
                    assert(blocks_sum(*fpu, rows@, groups@[slot as int], size, b as nat) == Some(old_sums[slot as int]));
                }
                let sum: u64 = fpu(FloatOp::Add, sums[slot], part_sums[s]);
                sums.set(slot, sum);
            }
            proof {
                assert(blocks_sum(*fpu, rows@, key, size, (b + 1) as nat) == Some(sums@[slot as int]));
                assert forall|q: int| 0 <= q < sums.len() implies Some(sums@[q]) == (if now.contains(
                    #[trigger] groups@[q],
                ) {
                    blocks_sum(*fpu, rows@, groups@[q], size, (b + 1) as nat)
                } else {
                    blocks_sum(*fpu, rows@, groups@[q], size, b as nat)
                }) by {
                    if q != slot {
                        assert(groups@[q] != key);
                        assert(q < before.len());
                        assert(groups@[q] == before[q]);
                        assert(sums@[q] == old_sums[q]);
                    }
                }
                assert forall|k: Key| #[trigger] groups@.contains(k) <==> blocks_sum(*fpu, rows@, k, size, b as nat) is Some
                    || now.contains(k) by {
                    if groups@.contains(k) && k != key {
                        let j = choose|j: int| 0 <= j < groups@.len() && groups@[j] == k;
                        assert(before[j] == k);
                        assert(before.contains(k));
                    }
                    if before.contains(k) {
                        let j = choose|j: int| 0 <= j < before.len() && before[j] == k;
                        assert(groups@[j] == k);
                    }
                    if k == key {
                        assert(groups@[slot as int] == k);
                    }
                }
            }
            s = s + 1;
        }
        proof {
            assert(part@.take(s as int) =~= part@);
            b = b + 1;
            assert((b as nat - 1) as nat == bb as nat);
            assert forall|k: Key| #[trigger] groups@.contains(k) <==> blocks_sum(*fpu, rows@, k, size, b as nat) is Some by {
                assert(part@.contains(k) <==> block_sum(*fpu, rows@, k, lo as int, hi as int) is Some);
            }
            assert forall|q: int| 0 <= q < sums.len() implies blocks_sum(*fpu, rows@, #[trigger] groups@[q], size, b as nat) == Some(
                sums@[q],
            ) by {
                assert(part@.contains(groups@[q]) <==> block_sum(*fpu, rows@, groups@[q], lo as int, hi as int) is Some);
            }
        }
        lo = hi;
    }
    proof {
        lemma_last_block(n, size);
        lemma_blocks_settled(*fpu, rows@, size, b);
    }
    (groups, sums)
}

/// Lists the keys of an index.
pub fn list_keys(groups: &GroupIndex) -> (keys: Vec<Key>)
    ensures
        keys@ == groups@,
{
    let mut keys: Vec<Key> = Vec::new();
    let mut i: usize = 0;
    while i < groups.len()
        invariant
            i <= groups@.len(),
            keys@ == groups@.take(i as int),
        decreases groups@.len() - i,
    {
        keys.push(groups.key(i));
        proof {
            assert(groups@.take(i + 1) =~= groups@.take(i as int).push(groups@[i as int]));
        }
        i = i + 1;
    }
    proof {
        assert(groups@.take(i as int) =~= groups@);
    }
    keys
}

/// Adds up terms by key, and lists the keys.
pub fn sum_groups<F: Fn(FloatOp, u64, u64) -> u64>(rows: &Vec<Term>, fpu: &F) -> (r: (Vec<Key>, Vec<u64>))
    requires
        is_arith(*fpu),
    ensures
        r.0@ == group_keys(rows@),
        r.1.len() == r.0.len(),
        forall|g: int| 0 <= g < r.0.len() ==> group_sum(*fpu, rows@, #[trigger] r.0@[g]) == Some(r.1@[g]),
{
    let (groups, sums): (GroupIndex, Vec<u64>) = index_sums(rows, fpu);
    (list_keys(&groups), sums)
}

/// Empty blocks at the end add nothing.
proof fn lemma_blocks_settled<F: Fn(FloatOp, u64, u64) -> u64>(f: F, rows: Seq<Term>, size: int, b: int)
    requires
        size > 0,
        b >= 0,
        block_start(rows.len() as int, size, b) == rows.len(),
    ensures
        forall|k: Key| #[trigger]
            blocks_sum(f, rows, k, size, b as nat) == blocks_sum(
                f,
                rows,
                k,
                size,
                block_count(rows.len() as int, size),
            ),
    decreases b,
{
    let n = rows.len() as int;
    lemma_last_block(n, size);
    let c = block_count(n, size);
    assert(!(0 <= b < c));
    if b > c {
        lemma_block_start(n, size, b - 1);
        assert(block_start(n, size, b - 1) == n) by {
            assert(!(0 <= b - 1 < c));
        }
        lemma_blocks_settled(f, rows, size, b - 1);
        assert forall|k: Key| #[trigger] blocks_sum(f, rows, k, size, b as nat) == blocks_sum(f, rows, k, size, c) by {
            assert(blocks_sum(f, rows, k, size, (b - 1) as nat) == blocks_sum(f, rows, k, size, c));
            assert(block_sum(f, rows, k, block_start(n, size, b - 1), block_start(n, size, b)) is None);
        }
    }
}

/// The key of a numbered group.
pub open spec fn slot_key(slot: int) -> Key {
    (slot as u64, 0u64, 0u64)
}

/// The sum of the terms of a key in the first `b` blocks, where every block
/// adds to the sum, if only zero.
pub open spec fn dense_blocks_sum<F: Fn(FloatOp, u64, u64) -> u64>(
    f: F,
    rows: Seq<Term>,
    k: Key,
    size: int,
    b: nat,
) -> u64
    decreases b,
{
    if b == 0 {
        0
    } else {
        let n = rows.len() as int;
        arith(
            f,
            FloatOp::Add,
            dense_blocks_sum(f, rows, k, size, (b - 1) as nat),
            or_zero(block_sum(f, rows, k, block_start(n, size, b - 1), block_start(n, size, b as int))),
        )
    }
}

/// The sum of the terms of a numbered group over all rows.
pub open spec fn slot_sum<F: Fn(FloatOp, u64, u64) -> u64>(f: F, rows: Seq<Term>, slot: int, size: int) -> u64 {
    dense_blocks_sum(f, rows, slot_key(slot), size, block_count(rows.len() as int, size))
}

/// Adds up terms by numbered group, in blocks of `size` rows.
pub fn sum_slots<F: Fn(FloatOp, u64, u64) -> u64>(rows: &Vec<Term>, slots: usize, size: usize, fpu: &F) -> (sums: Vec<u64>)
    requires
        is_arith(*fpu),
        size > 0,
    ensures
        sums.len() == slots,
        forall|g: int| 0 <= g < slots ==> #[trigger] sums@[g] == slot_sum(*fpu, rows@, g, size as int),
{
    let ghost n = rows.len() as int;
    let ghost sz = size as int;
    let mut sums: Vec<u64> = Vec::new();
    while sums.len() < slots
        invariant
            sums.len() <= slots,
            forall|g: int| 0 <= g < sums.len() ==> #[trigger] sums@[g] == 0,
        decreases slots - sums.len(),
    {
        sums.push(0);
    }
    let mut lo: usize = 0;
    let ghost mut b: nat = 0;
    proof {
        lemma_block_start(n, sz, 0);
        lemma_last_block(n, sz);
    }
    while lo < rows.len()
        invariant
            is_arith(*fpu),
            n == rows.len(),
            sz == size,
            size > 0,
            lo == block_start(n, sz, b as int),
            b <= block_count(n, sz),
            forall|c: int| 0 <= c && block_start(n, sz, c) < n <==> 0 <= c < block_count(n, sz),
            sums.len() == slots,
            forall|g: int| 0 <= g < slots ==> #[trigger] sums@[g] == dense_blocks_sum(*fpu, rows@, slot_key(g), sz, b),
        decreases rows.len() - lo,
    {
        let hi: usize = if rows.len() - lo < size {
            rows.len()
        } else {
            lo + size
        };
        proof {
            lemma_block_start(n, sz, b as int);
            assert((b + 1) * sz == b * sz + sz) by (nonlinear_arith);
            assert(hi == block_start(n, sz, b as int + 1));
            assert(0 <= b < block_count(n, sz));
        }
        let (part, part_sums): (GroupIndex, Vec<u64>) = sum_block(rows, lo, hi, fpu);
        let mut g: usize = 0;
        while g < slots
            invariant
                is_arith(*fpu),
                n == rows.len(),
                lo == block_start(n, sz, b as int),
                hi == block_start(n, sz, b as int + 1),
                sums.len() == slots,
                g <= slots,
                part.wf(),
                part_sums.len() == part@.len(),
                forall|k: Key| #[trigger] part@.contains(k) <==> block_sum(*fpu, rows@, k, lo as int, hi as int) is Some,
                forall|q: int|
                    0 <= q < part_sums.len() ==> block_sum(*fpu, rows@, #[trigger] part@[q], lo as int, hi as int)
                        == Some(part_sums@[q]),
                forall|q: int|
                    0 <= q < g ==> #[trigger] sums@[q] == dense_blocks_sum(*fpu, rows@, slot_key(q), sz, b + 1),
                forall|q: int|
                    g <= q < slots ==> #[trigger] sums@[q] == dense_blocks_sum(*fpu, rows@, slot_key(q), sz, b),
            decreases slots - g,
        {
            let key: Key = (g as u64, 0, 0);
            let part_sum: u64 = match part.find(key) {
                Some(q) => {
                    assert(block_sum(*fpu, rows@, part@[q as int], lo as int, hi as int) == Some(part_sums@[q as int]));
                    part_sums[q]
                },
                None => 0,
            };
            proof {
                assert(key == slot_key(g as int));
                assert(part@.contains(key) <==> block_sum(*fpu, rows@, key, lo as int, hi as int) is Some);
                assert(part_sum == or_zero(block_sum(*fpu, rows@, key, lo as int, hi as int)));
                assert((b + 1) as nat - 1 == b);
            }
            let sum: u64 = fpu(FloatOp::Add, sums[g], part_sum);
            sums.set(g, sum);
            g = g + 1;
        }
        proof {
            b = b + 1;
        }
        lo = hi;
    }
    proof {
        assert(b == block_count(n, sz)) by {
            if b < block_count(n, sz) {
                assert(block_start(n, sz, b as int) < n);
            }
        }
    }
    sums
}

/// How many of the first `n` rows have the key `k`.
pub open spec fn key_count(rows: Seq<Term>, k: Key, n: int) -> int
    decreases n,
{
    if n <= 0 {
        0
    } else {
        key_count(rows, k, n - 1) + (if row_has(rows, n - 1, k) {
            1int
        } else {
            0
        })
    }
}

proof fn lemma_key_count_bounds(rows: Seq<Term>, k: Key, n: int)
    requires
        n >= 0,
    ensures
        0 <= key_count(rows, k, n) <= n,
    decreases n,
{
    if n > 0 {
        lemma_key_count_bounds(rows, k, n - 1);
    }
}

/// Counts rows by key: the keys in the order in which they come, and the number
/// of rows of each.
pub fn index_counts(rows: &Vec<Term>) -> (r: (GroupIndex, Vec<u64>))
    ensures
        r.0.wf(),
        r.0@ == group_keys(rows@),
        r.1.len() == r.0@.len(),
        forall|k: Key| !#[trigger] r.0@.contains(k) ==> key_count(rows@, k, rows@.len() as int) == 0,
        forall|g: int| 0 <= g < r.0@.len() ==> r.1@[g] == key_count(rows@, #[trigger] r.0@[g], rows@.len() as int),
{
    let mut groups: GroupIndex = GroupIndex::new();
    let mut counts: Vec<u64> = Vec::new();
    let mut i: usize = 0;
    while i < rows.len()
        invariant
            i <= rows.len(),
            groups.wf(),
            groups@ == keys_seen(rows@, i as int),
            counts.len() == groups@.len(),
            forall|k: Key| !#[trigger] groups@.contains(k) ==> key_count(rows@, k, i as int) == 0,
            forall|s: int| 0 <= s < counts.len() ==> counts@[s] == key_count(rows@, #[trigger] groups@[s], i as int),
        decreases rows.len() - i,
    {
        match rows[i] {
            Some((key, _)) => {
                let ghost before = groups@;
                let ghost old_counts = counts@;
                let slot: usize = groups.slot_of(key);
                proof {
                    groups.keys_are_distinct();
                    lemma_key_count_bounds(rows@, key, i as int);
                }
                if slot == counts.len() {
                    proof {
                        assert(!before.contains(key)) by {
                            if before.contains(key) {
                                assert(groups@ == before);
                            }
                        }
                    }
                    counts.push(1);
                } else {
                    proof {
                        assert(before.contains(key)) by {
                            if !before.contains(key) {
                                assert(groups@ =~= before.push(key));
                                assert(groups@[slot as int] == before[slot as int]);
                                assert(before.contains(before[slot as int]));
                            }
                        }
                    }
                    let c: u64 = counts[slot] + 1;
                    counts.set(slot, c);
                }
                proof {
                    assert forall|s: int| 0 <= s < counts.len() implies counts@[s] == key_count(
                        rows@,
                        #[trigger] groups@[s],
                        i + 1,
                    ) by {
                        if s != slot {
                            assert(groups@[s] != key);
                            assert(groups@[s] == before[s]);
                            assert(counts@[s] == old_counts[s]);
                        }
                    }
                    assert forall|k: Key| !#[trigger] groups@.contains(k) implies key_count(rows@, k, i + 1) == 0 by {
                        if before.contains(k) {
                            let j = choose|j: int| 0 <= j < before.len() && before[j] == k;
                            assert(groups@[j] == k);
                        }
                        if k == key {
                            assert(groups@[slot as int] == k);
                        }
                    }
                }
            },
            None => {
                proof {
                    assert forall|s: int| 0 <= s < counts.len() implies counts@[s] == key_count(
                        rows@,
                        #[trigger] groups@[s],
                        i + 1,
                    ) by {
                        assert(counts@[s] == key_count(rows@, groups@[s], i as int));
                    }
                }
            },
        }
        i = i + 1;
    }
    (groups, counts)
}

/// Counts rows by key, and lists the keys.
pub fn count_groups(rows: &Vec<Term>) -> (r: (Vec<Key>, Vec<u64>))
    ensures
        r.0@ == group_keys(rows@),
        r.1.len() == r.0.len(),
        forall|g: int| 0 <= g < r.0.len() ==> r.1@[g] == key_count(rows@, #[trigger] r.0@[g], rows@.len() as int),
{
    let (groups, counts): (GroupIndex, Vec<u64>) = index_counts(rows);
    (list_keys(&groups), counts)
}

/// The numbers of rows of groups.
pub open spec fn counts_of(rows: Seq<Term>, keys: Seq<Key>) -> Seq<u64> {
    Seq::new(keys.len(), |g: int| key_count(rows, keys[g], rows.len() as int) as u64)
}

/// The number of rows of a key.
pub(crate) fn count_at(groups: &GroupIndex, counts: &Vec<u64>, key: Key, Ghost(rows): Ghost<Seq<Term>>) -> (n: u64)
    requires
        groups.wf(),
        counts.len() == groups@.len(),
        forall|k: Key| !#[trigger] groups@.contains(k) ==> key_count(rows, k, rows.len() as int) == 0,
        forall|g: int| 0 <= g < groups@.len() ==> counts@[g] == key_count(rows, #[trigger] groups@[g], rows.len() as int),
    ensures
        n == key_count(rows, key, rows.len() as int),
{
    match groups.find(key) {
        Some(s) => counts[s],
        None => 0,
    }
}

/// The sum of a key, if it has one.
pub(crate) fn sum_at<F: Fn(FloatOp, u64, u64) -> u64>(
    groups: &GroupIndex,
    sums: &Vec<u64>,
    key: Key,
    fpu: &F,
    Ghost(rows): Ghost<Seq<Term>>,
) -> (s: Option<u64>)
    requires
        groups.wf(),
        sums.len() == groups@.len(),
        forall|k: Key| #[trigger] groups@.contains(k) <==> group_sum(*fpu, rows, k) is Some,
        forall|g: int| 0 <= g < groups@.len() ==> group_sum(*fpu, rows, #[trigger] groups@[g]) == Some(sums@[g]),
    ensures
        s == group_sum(*fpu, rows, key),
{
    match groups.find(key) {
        Some(q) => {
            assert(group_sum(*fpu, rows, groups@[q as int]) == Some(sums@[q as int]));
            Some(sums[q])
        },
        None => {
            assert(!groups@.contains(key));
            None
        },
    }
}

/// The first, second or third words of keys.
pub open spec fn first_words(keys: Seq<Key>) -> Seq<u64> {
    Seq::new(keys.len(), |i: int| keys[i].0)
}

pub open spec fn second_words(keys: Seq<Key>) -> Seq<u64> {
    Seq::new(keys.len(), |i: int| keys[i].1)
}

pub open spec fn third_words(keys: Seq<Key>) -> Seq<u64> {
    Seq::new(keys.len(), |i: int| keys[i].2)
}

/// The sums of groups.
pub open spec fn sums_of<F: Fn(FloatOp, u64, u64) -> u64>(f: F, lines: Seq<Term>, keys: Seq<Key>) -> Seq<u64> {
    Seq::new(keys.len(), |g: int| or_zero(group_sum(f, lines, keys[g])))
}

/// Splits keys into their words.
pub fn split_keys(keys: &Vec<Key>) -> (r: (Vec<u64>, Vec<u64>, Vec<u64>))
    ensures
        r.0@ == first_words(keys@),
        r.1@ == second_words(keys@),
        r.2@ == third_words(keys@),
{
    let mut a: Vec<u64> = Vec::new();
    let mut b: Vec<u64> = Vec::new();
    let mut c: Vec<u64> = Vec::new();
    let mut i: usize = 0;
    while i < keys.len()
        invariant
            i <= keys.len(),
            a.len() == i,
            b.len() == i,
            c.len() == i,
            forall|k: int| 0 <= k < i ==> #[trigger] a@[k] == keys@[k].0,
            forall|k: int| 0 <= k < i ==> #[trigger] b@[k] == keys@[k].1,
            forall|k: int| 0 <= k < i ==> #[trigger] c@[k] == keys@[k].2,
        decreases keys.len() - i,
    {
        a.push(keys[i].0);
        b.push(keys[i].1);
        c.push(keys[i].2);
        i = i + 1;
    }
    proof {
        assert(a@ =~= first_words(keys@));
        assert(b@ =~= second_words(keys@));
        assert(c@ =~= third_words(keys@));
    }
    (a, b, c)
}

/// The key of a row, if it has a term.
pub open spec fn row_key(rows: Seq<Term>, i: int) -> Option<Key> {
    match rows[i] {
        Some((k, _)) => Some(k),
        None => None,
    }
}

/// Rows with the same keys have the same groups, whatever their terms.
pub proof fn lemma_same_keys(a: Seq<Term>, b: Seq<Term>, n: int)
    requires
        a.len() == b.len(),
        0 <= n <= a.len(),
        forall|i: int| 0 <= i < a.len() ==> #[trigger] row_key(a, i) == row_key(b, i),
    ensures
        keys_seen(a, n) == keys_seen(b, n),
    decreases n,
{
    if n > 0 {
        lemma_same_keys(a, b, n - 1);
        assert(row_key(a, n - 1) == row_key(b, n - 1));
    }
}

} // verus!
