//! Stable ordering of rows by lists of words.

use vstd::prelude::*;

verus! {

/// `a` comes before `b` in dictionary order.
pub open spec fn lex_lt(a: Seq<u64>, b: Seq<u64>) -> bool
    decreases a.len(),
{
    if b.len() == 0 {
        false
    } else if a.len() == 0 {
        true
    } else {
        a[0] < b[0] || (a[0] == b[0] && lex_lt(a.skip(1), b.skip(1)))
    }
}

/// Row `i` precedes row `j`: its key is less, or the keys are equal and it came first.
pub open spec fn precedes(keys: Seq<Seq<u64>>, i: int, j: int) -> bool {
    lex_lt(keys[i], keys[j]) || (keys[i] == keys[j] && i < j)
}

/// `order` lists the numbers from `lo` up to `hi`, each once, by key and then by number.
pub open spec fn orders_range(keys: Seq<Seq<u64>>, lo: int, hi: int, order: Seq<usize>) -> bool {
    &&& order.len() == hi - lo
    &&& forall|k: usize| lo <= k < hi <==> #[trigger] order.contains(k)
    &&& forall|i: int, j: int|
        0 <= i < j < order.len() ==> precedes(keys, #[trigger] order[i] as int, #[trigger] order[j] as int)
}

/// `order` lists the row numbers of `keys`, each once, by key and then by row number.
pub open spec fn is_stable_order(keys: Seq<Seq<u64>>, order: Seq<usize>) -> bool {
    orders_range(keys, 0, keys.len() as int, order)
}

/// The one stable order of the rows with these keys.
pub open spec fn stably_ordered(keys: Seq<Seq<u64>>) -> Seq<usize> {
    choose|order: Seq<usize>| is_stable_order(keys, order)
}

/// The keys of rows held as vectors.
pub open spec fn key_rows(keys: Seq<Vec<u64>>) -> Seq<Seq<u64>> {
    keys.map_values(|k: Vec<u64>| k@)
}

proof fn lemma_lex_irreflexive(a: Seq<u64>)
    ensures
        !lex_lt(a, a),
    decreases a.len(),
{
    if a.len() > 0 {
        lemma_lex_irreflexive(a.skip(1));
    }
}

proof fn lemma_lex_transitive(a: Seq<u64>, b: Seq<u64>, c: Seq<u64>)
    requires
        lex_lt(a, b),
        lex_lt(b, c),
    ensures
        lex_lt(a, c),
    decreases a.len(),
{
    if a.len() > 0 && b.len() > 0 && c.len() > 0 && a[0] == b[0] && b[0] == c[0] {
        lemma_lex_transitive(a.skip(1), b.skip(1), c.skip(1));
    }
}

proof fn lemma_precedes_transitive(keys: Seq<Seq<u64>>, i: int, j: int, k: int)
    requires
        precedes(keys, i, j),
        precedes(keys, j, k),
    ensures
        precedes(keys, i, k),
{
    if lex_lt(keys[i], keys[j]) && lex_lt(keys[j], keys[k]) {
        lemma_lex_transitive(keys[i], keys[j], keys[k]);
    }
}

/// No row precedes itself, and no two rows precede each other.
pub proof fn precedes_is_strict(keys: Seq<Seq<u64>>, i: int, j: int)
    requires
        precedes(keys, i, j),
    ensures
        i != j,
        !precedes(keys, j, i),
{
    lemma_lex_irreflexive(keys[i]);
    lemma_lex_irreflexive(keys[j]);
    if precedes(keys, j, i) {
        lemma_precedes_transitive(keys, i, j, i);
    }
}

/// Two different rows are ordered one way or the other.
pub proof fn precedes_is_total(keys: Seq<Seq<u64>>, i: int, j: int)
    requires
        i != j,
    ensures
        precedes(keys, i, j) || precedes(keys, j, i),
{
    lemma_lex_total(keys[i], keys[j]);
}

proof fn lemma_lex_total(a: Seq<u64>, b: Seq<u64>)
    ensures
        lex_lt(a, b) || lex_lt(b, a) || a == b,
    decreases a.len(),
{
    if a.len() == 0 || b.len() == 0 {
        if a.len() == b.len() {
            assert(a =~= b);
        }
    } else if a[0] == b[0] {
        lemma_lex_total(a.skip(1), b.skip(1));
        if a.skip(1) == b.skip(1) {
            assert forall|i: int| 0 <= i < a.len() implies a[i] == b[i] by {
                if i > 0 {
                    assert(a[i] == a.skip(1)[i - 1]);
                    assert(b[i] == b.skip(1)[i - 1]);
                }
            }
            assert(a.len() == b.len()) by {
                assert(a.skip(1).len() == b.skip(1).len());
            }
            assert(a =~= b);
        }
    }
}

/// Whether key `a` comes before key `b`, and whether they are equal.
fn compare_keys(a: &Vec<u64>, b: &Vec<u64>) -> (r: (bool, bool))
    ensures
        r.0 == lex_lt(a@, b@),
        r.1 == (a@ == b@),
{
    let mut i: usize = 0;
    proof {
        assert(a@.skip(0) =~= a@);
        assert(b@.skip(0) =~= b@);
    }
    while i < a.len() && i < b.len() && a[i] == b[i]
        invariant
            i <= a.len(),
            i <= b.len(),
            forall|k: int| 0 <= k < i ==> a@[k] == b@[k],
            lex_lt(a@, b@) == lex_lt(a@.skip(i as int), b@.skip(i as int)),
        decreases a.len() - i,
    {
        proof {
            assert(a@.skip(i as int).skip(1) =~= a@.skip(i + 1));
            assert(b@.skip(i as int).skip(1) =~= b@.skip(i + 1));
        }
        i = i + 1;
    }
    if i < a.len() {
        if i < b.len() {
            (a[i] < b[i], false)
        } else {
            (false, false)
        }
    } else if i < b.len() {
        (true, false)
    } else {
        proof {
            assert(a@ =~= b@);
        }
        (false, true)
    }
}

fn goes_first(keys: &Vec<Vec<u64>>, i: usize, j: usize) -> (r: bool)
    requires
        i < keys.len(),
        j < keys.len(),
    ensures
        r == precedes(key_rows(keys@), i as int, j as int),
{
    let (less, equal) = compare_keys(&keys[i], &keys[j]);
    less || (equal && i < j)
}

/// Merges two ordered runs of neighbouring row ranges.
fn merge_runs(keys: &Vec<Vec<u64>>, lo: usize, mid: usize, hi: usize, a: &Vec<usize>, b: &Vec<usize>) -> (out: Vec<usize>)
    requires
        lo <= mid <= hi <= keys.len(),
        orders_range(key_rows(keys@), lo as int, mid as int, a@),
        orders_range(key_rows(keys@), mid as int, hi as int, b@),
    ensures
        orders_range(key_rows(keys@), lo as int, hi as int, out@),
{
    let ghost kr = key_rows(keys@);
    let mut out: Vec<usize> = Vec::with_capacity(hi - lo);
    let mut i: usize = 0;
    let mut j: usize = 0;
    proof {
        assert forall|k: int| 0 <= k < a.len() implies lo <= #[trigger] a@[k] < mid by {
            assert(a@.contains(a@[k]));
        }
        assert forall|k: int| 0 <= k < b.len() implies mid <= #[trigger] b@[k] < hi by {
            assert(b@.contains(b@[k]));
        }
    }
    while i < a.len() || j < b.len()
        invariant
            lo <= mid <= hi <= keys.len(),
            kr == key_rows(keys@),
            i <= a.len(),
            j <= b.len(),
            out.len() == i + j,
            forall|k: int| 0 <= k < a.len() ==> lo <= #[trigger] a@[k] < mid,
            forall|k: int| 0 <= k < b.len() ==> mid <= #[trigger] b@[k] < hi,
            forall|x: int, y: int| 0 <= x < y < a.len() ==> precedes(kr, #[trigger] a@[x] as int, #[trigger] a@[y] as int),
            forall|x: int, y: int| 0 <= x < y < b.len() ==> precedes(kr, #[trigger] b@[x] as int, #[trigger] b@[y] as int),
            forall|x: int, y: int| 0 <= x < y < out.len() ==> precedes(kr, #[trigger] out@[x] as int, #[trigger] out@[y] as int),
            forall|x: int, y: int| 0 <= x < out.len() && i <= y < a.len() ==> precedes(kr, #[trigger] out@[x] as int, #[trigger] a@[y] as int),
            forall|x: int, y: int| 0 <= x < out.len() && j <= y < b.len() ==> precedes(kr, #[trigger] out@[x] as int, #[trigger] b@[y] as int),
            forall|x: int| 0 <= x < i ==> out@.contains(#[trigger] a@[x]),
            forall|x: int| 0 <= x < j ==> out@.contains(#[trigger] b@[x]),
            forall|x: int| 0 <= x < out.len() ==> lo <= #[trigger] out@[x] < hi,
        decreases a.len() - i + b.len() - j,
    {
        let ghost before = out@;
        let take_a: bool = if i < a.len() && j < b.len() {
            goes_first(keys, a[i], b[j])
        } else {
            i < a.len()
        };
        if take_a {
            proof {
                if j < b.len() {
                    assert forall|y: int| j <= y < b.len() implies precedes(kr, a@[i as int] as int, #[trigger] b@[y] as int) by {
                        if y > j {
                            lemma_precedes_transitive(kr, a@[i as int] as int, b@[j as int] as int, b@[y] as int);
                        }
                    }
                }
            }
            out.push(a[i]);
            i = i + 1;
        } else {
            proof {
                if i < a.len() {
                    precedes_is_total(kr, a@[i as int] as int, b@[j as int] as int);
                    assert forall|y: int| i <= y < a.len() implies precedes(kr, b@[j as int] as int, #[trigger] a@[y] as int) by {
                        if y > i {
                            lemma_precedes_transitive(kr, b@[j as int] as int, a@[i as int] as int, a@[y] as int);
                        }
                    }
                }
            }
            out.push(b[j]);
            j = j + 1;
        }
        proof {
            assert(out@[before.len() as int] == out@.last());
            assert forall|v: usize| before.contains(v) implies #[trigger] out@.contains(v) by {
                let w = choose|w: int| 0 <= w < before.len() && before[w] == v;
                assert(out@[w] == v);
            }
            assert(out@.contains(out@[before.len() as int]));
        }
    }
    proof {
        assert forall|k: usize| lo <= k < hi implies #[trigger] out@.contains(k) by {
            if k < mid {
                assert(a@.contains(k));
                let w = choose|w: int| 0 <= w < a@.len() && a@[w] == k;
                assert(out@.contains(a@[w]));
            } else {
                assert(b@.contains(k));
                let w = choose|w: int| 0 <= w < b@.len() && b@[w] == k;
                assert(out@.contains(b@[w]));
            }
        }
    }
    out
}

fn order_range(keys: &Vec<Vec<u64>>, lo: usize, hi: usize) -> (order: Vec<usize>)
    requires
        lo <= hi <= keys.len(),
    ensures
        orders_range(key_rows(keys@), lo as int, hi as int, order@),
    decreases hi - lo,
{
    if hi - lo <= 1 {
        let mut order: Vec<usize> = Vec::new();
        if lo < hi {
            order.push(lo);
            proof {
                assert(order@[0] == lo);
            }
        }
        order
    } else {
        let mid: usize = lo + (hi - lo) / 2;
        let a: Vec<usize> = order_range(keys, lo, mid);
        let b: Vec<usize> = order_range(keys, mid, hi);
        merge_runs(keys, lo, mid, hi, &a, &b)
    }
}

/// The row numbers in ascending order of their keys; rows with equal keys keep
/// their order.
pub fn stable_order(keys: &Vec<Vec<u64>>) -> (order: Vec<usize>)
    ensures
        is_stable_order(key_rows(keys@), order@),
        order@ == stably_ordered(key_rows(keys@)),
{
    let order: Vec<usize> = order_range(keys, 0, keys.len());
    proof {
        stable_order_is_unique(key_rows(keys@), order@, stably_ordered(key_rows(keys@)));
    }
    order
}

/// There is only one stable order of given keys.
pub proof fn stable_order_is_unique(keys: Seq<Seq<u64>>, a: Seq<usize>, b: Seq<usize>)
    requires
        is_stable_order(keys, a),
        is_stable_order(keys, b),
    ensures
        a == b,
{
    lemma_orders_unique(keys, a, b, a.len());
    assert(a =~= b);
}

proof fn lemma_orders_unique(keys: Seq<Seq<u64>>, a: Seq<usize>, b: Seq<usize>, n: nat)
    requires
        is_stable_order(keys, a),
        is_stable_order(keys, b),
        n <= a.len(),
    ensures
        forall|k: int| 0 <= k < n ==> a[k] == b[k],
    decreases n,
{
    if n > 0 {
        lemma_orders_unique(keys, a, b, (n - 1) as nat);
        let p = n - 1;
        let x = a[p];
        let y = b[p];
        if x != y {
            assert(a.contains(x));
            assert(b.contains(y));
            assert(b.contains(x));
            assert(a.contains(y));
            let i = choose|i: int| 0 <= i < b.len() && b[i] == x;
            let j = choose|j: int| 0 <= j < a.len() && a[j] == y;
            if i < p {
                assert(a[i] == x);
                precedes_is_strict(keys, a[i] as int, a[p] as int);
            }
            if j < p {
                assert(b[j] == y);
                precedes_is_strict(keys, b[j] as int, b[p] as int);
            }
            assert(precedes(keys, b[p] as int, b[i] as int));
            assert(precedes(keys, a[p] as int, a[j] as int));
            precedes_is_strict(keys, x as int, y as int);
        }
    }
}

proof fn lemma_first_difference(a: Seq<u64>, b: Seq<u64>, k: int)
    requires
        lex_lt(a, b),
        0 <= k < a.len(),
        k < b.len(),
        forall|h: int| 0 <= h < k ==> #[trigger] a[h] == b[h],
        a[k] != b[k],
    ensures
        a[k] < b[k],
    decreases k,
{
    if k > 0 {
        assert(a[0] == b[0]);
        assert forall|h: int| 0 <= h < k - 1 implies #[trigger] a.skip(1)[h] == b.skip(1)[h] by {
            assert(a[h + 1] == b[h + 1]);
        }
        lemma_first_difference(a.skip(1), b.skip(1), k - 1);
    }
}

/// In a stable order the first words in which two keys differ ascend, and rows with
/// equal keys keep the order in which they came.
pub proof fn words_ascend_at_first_difference(keys: Seq<Seq<u64>>, order: Seq<usize>, i: int, j: int)
    requires
        is_stable_order(keys, order),
        0 <= i < j < order.len(),
    ensures
        forall|k: int|
            0 <= k < keys[order[i] as int].len() && k < keys[order[j] as int].len() && (forall|h: int|
                0 <= h < k ==> #[trigger] keys[order[i] as int][h] == keys[order[j] as int][h])
                && #[trigger] keys[order[i] as int][k] != keys[order[j] as int][k] ==> keys[order[i] as int][k]
                < keys[order[j] as int][k],
        keys[order[i] as int] == keys[order[j] as int] ==> order[i] < order[j],
{
    let a = keys[order[i] as int];
    let b = keys[order[j] as int];
    assert(precedes(keys, order[i] as int, order[j] as int));
    lemma_lex_irreflexive(a);
    assert forall|k: int|
        0 <= k < a.len() && k < b.len() && (forall|h: int| 0 <= h < k ==> #[trigger] a[h] == b[h]) && #[trigger] a[k]
            != b[k] implies a[k] < b[k] by {
        lemma_first_difference(a, b, k);
    }
}

proof fn lemma_range_is_ordered(keys: Seq<Seq<u64>>, n: nat)
    requires
        n <= usize::MAX,
    ensures
        exists|order: Seq<usize>| orders_range(keys, 0, n as int, order),
    decreases n,
{
    if n == 0 {
        assert(orders_range(keys, 0, 0, Seq::<usize>::empty()));
    } else {
        lemma_range_is_ordered(keys, (n - 1) as nat);
        let m = n - 1;
        let before = choose|order: Seq<usize>| orders_range(keys, 0, m, order);
        let x = (n - 1) as usize;
        assert forall|i: int| 0 <= i < before.len() implies #[trigger] before[i] != x by {
            assert(before.contains(before[i]));
        }
        let p = lemma_place(keys, before, x, before.len());
        let order = before.insert(p, x);
        assert forall|i: int, j: int| 0 <= i < j < order.len() implies precedes(
            keys,
            #[trigger] order[i] as int,
            #[trigger] order[j] as int,
        ) by {
            if i != p && j != p {
                let a: int = if i < p {
                    i
                } else {
                    i - 1
                };
                let b: int = if j < p {
                    j
                } else {
                    j - 1
                };
                assert(order[i] == before[a]);
                assert(order[j] == before[b]);
                assert(precedes(keys, before[a] as int, before[b] as int));
            } else if j == p {
                assert(order[i] == before[i]);
            } else {
                assert(order[j] == before[j - 1]);
            }
        }
        assert forall|k: usize| 0 <= k < n <==> #[trigger] order.contains(k) by {
            if 0 <= k < n - 1 {
                assert(before.contains(k));
                let i = choose|i: int| 0 <= i < before.len() && before[i] == k;
                if i < p {
                    assert(order[i] == k);
                } else {
                    assert(order[i + 1] == k);
                }
            }
            if k == x {
                assert(order[p] == k);
            }
            if order.contains(k) {
                let i = choose|i: int| 0 <= i < order.len() && order[i] == k;
                if i < p {
                    assert(before[i] == k);
                    assert(before.contains(k));
                } else if i > p {
                    assert(before[i - 1] == k);
                    assert(before.contains(k));
                }
            }
        }
        assert(orders_range(keys, 0, n as int, order));
    }
}

/// The place of a new number among ordered ones.
proof fn lemma_place(keys: Seq<Seq<u64>>, order: Seq<usize>, x: usize, n: nat) -> (p: int)
    requires
        n <= order.len(),
        forall|i: int| 0 <= i < n ==> #[trigger] order[i] != x,
        forall|i: int, j: int|
            0 <= i < j < order.len() ==> precedes(keys, #[trigger] order[i] as int, #[trigger] order[j] as int),
        forall|i: int| n <= i < order.len() ==> precedes(keys, x as int, #[trigger] order[i] as int),
    ensures
        0 <= p <= order.len(),
        forall|i: int| 0 <= i < p ==> precedes(keys, #[trigger] order[i] as int, x as int),
        forall|i: int| p <= i < order.len() ==> precedes(keys, x as int, #[trigger] order[i] as int),
    decreases n,
{
    if n == 0 {
        0
    } else {
        let last = order[n - 1] as int;
        precedes_is_total(keys, last, x as int);
        if precedes(keys, last, x as int) {
            assert forall|i: int| 0 <= i < n implies precedes(keys, #[trigger] order[i] as int, x as int) by {
                if i < n - 1 {
                    lemma_precedes_transitive(keys, order[i] as int, last, x as int);
                }
            }
            n as int
        } else {
            lemma_place(keys, order, x, (n - 1) as nat)
        }
    }
}

/// Rows can always be put in order.
pub proof fn stable_order_exists(keys: Seq<Seq<u64>>)
    requires
        keys.len() <= usize::MAX,
    ensures
        is_stable_order(keys, stably_ordered(keys)),
{
    lemma_range_is_ordered(keys, keys.len());
    let order = choose|order: Seq<usize>| orders_range(keys, 0, keys.len() as int, order);
    assert(is_stable_order(keys, order));
}

/// A list of all numbers below `n`, each once.
pub open spec fn is_rearrangement(order: Seq<usize>, n: int) -> bool {
    &&& order.len() == n
    &&& forall|i: int| 0 <= i < n ==> #[trigger] order[i] < n
    &&& forall|i: int, j: int| 0 <= i < j < n ==> #[trigger] order[i] != #[trigger] order[j]
    &&& forall|k: int| 0 <= k < n ==> #[trigger] order.contains(k as usize)
}

/// A stable order lists every row once.
pub proof fn stable_order_rearranges(keys: Seq<Seq<u64>>, order: Seq<usize>)
    requires
        is_stable_order(keys, order),
        keys.len() <= usize::MAX,
    ensures
        is_rearrangement(order, keys.len() as int),
{
    let n = keys.len() as int;
    assert forall|i: int| 0 <= i < n implies #[trigger] order[i] < n by {
        assert(order.contains(order[i]));
    }
    assert forall|i: int, j: int| 0 <= i < j < n implies #[trigger] order[i] != #[trigger] order[j] by {
        precedes_is_strict(keys, order[i] as int, order[j] as int);
    }
    assert forall|k: int| 0 <= k < n implies #[trigger] order.contains(k as usize) by {
        assert(0 <= k as usize && (k as usize) < n);
    }
}

} // verus!
