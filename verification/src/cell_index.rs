//! Numbers for lists of cells, and for rows by the cells they hold.

use crate::group_index::{GroupIndex, Key};
use crate::tpch::sums::Term;
use vstd::prelude::*;

verus! {

/// The factor of the hash of a list of cells.
pub const MIX: u64 = 0x517c_c1b7_2722_0a95;

/// The hash of the first `n` cells.
pub open spec fn mixed(cells: Seq<u64>, n: nat) -> u64
    decreases n,
{
    if n == 0 {
        0
    } else {
        mixed(cells, (n - 1) as nat).wrapping_mul(MIX).wrapping_add(cells[n - 1])
    }
}

fn mix(cells: &Vec<u64>) -> (h: u64)
    ensures
        h == mixed(cells@, cells@.len()),
{
    let mut h: u64 = 0;
    let mut n: usize = 0;
    while n < cells.len()
        invariant
            n <= cells@.len(),
            h == mixed(cells@, n as nat),
        decreases cells.len() - n,
    {
        h = h.wrapping_mul(MIX).wrapping_add(cells[n]);
        n = n + 1;
    }
    h
}

fn same_cells(a: &Vec<u64>, b: &Vec<u64>) -> (e: bool)
    ensures
        e == (a@ == b@),
{
    if a.len() != b.len() {
        return false;
    }
    let mut i: usize = 0;
    while i < a.len()
        invariant
            a@.len() == b@.len(),
            i <= a@.len(),
            forall|k: int| 0 <= k < i ==> #[trigger] a@[k] == b@[k],
        decreases a.len() - i,
    {
        if a[i] != b[i] {
            return false;
        }
        i = i + 1;
    }
    proof {
        assert(a@ =~= b@);
    }
    true
}

/// Numbers for lists of cells, in the order in which they first come. Lists with
/// one hash are told apart by their cells.
pub struct CellIndex {
    hashes: GroupIndex,
    buckets: Vec<Vec<usize>>,
    lists: Vec<Vec<u64>>,
}

impl CellIndex {
    /// The lists by number.
    pub closed spec fn view(&self) -> Seq<Seq<u64>> {
        self.lists@.map_values(|x: Vec<u64>| x@)
    }

    /// The list with this number stands in the bucket of its hash.
    pub closed spec fn filed(&self, g: int) -> bool {
        exists|s: int|
            0 <= s < self.hashes@.len() && #[trigger] self.hashes@[s] == (
                mixed(self.lists@[g]@, self.lists@[g]@.len()),
                0u64,
                0u64,
            ) && self.buckets@[s]@.contains(g as usize)
    }

    /// Every list stands in the bucket of its hash, and none has two numbers.
    pub closed spec fn wf(&self) -> bool {
        &&& self.hashes.wf()
        &&& self.buckets@.len() == self.hashes@.len()
        &&& forall|s: int, k: int|
            0 <= s < self.buckets@.len() && 0 <= k < self.buckets@[s]@.len() ==> #[trigger] self.buckets@[s]@[k]
                < self.lists@.len()
        &&& forall|g: int| 0 <= g < self.lists@.len() ==> #[trigger] self.filed(g)
        &&& forall|g: int, h: int|
            0 <= g < h < self.lists@.len() ==> (#[trigger] self.lists@[g])@ != (#[trigger] self.lists@[h])@
    }

    /// No list has two numbers.
    pub proof fn lists_are_distinct(&self)
        requires
            self.wf(),
        ensures
            self@.no_duplicates(),
    {
        assert forall|g: int, h: int| 0 <= g < self@.len() && 0 <= h < self@.len() && g != h implies self@[g] != self@[h] by {
            assert(self@[g] == self.lists@[g]@);
            assert(self@[h] == self.lists@[h]@);
        }
    }

    pub fn new() -> (ix: Self)
        ensures
            ix.wf(),
            ix@ == Seq::<Seq<u64>>::empty(),
    {
        let ix: CellIndex = CellIndex { hashes: GroupIndex::new(), buckets: Vec::new(), lists: Vec::new() };
        proof {
            assert(ix@ =~= Seq::<Seq<u64>>::empty());
        }
        ix
    }

    pub fn len(&self) -> (n: usize)
        ensures
            n == self@.len(),
    {
        self.lists.len()
    }

    /// The number of a list of cells, if it has one.
    pub fn find(&self, cells: &Vec<u64>) -> (slot: Option<usize>)
        requires
            self.wf(),
        ensures
            match slot {
                Some(g) => g < self@.len() && self@[g as int] == cells@,
                None => !self@.contains(cells@),
            },
    {
        let h: u64 = mix(cells);
        match self.hashes.find((h, 0, 0)) {
            None => {
                proof {
                    if self@.contains(cells@) {
                        let g = choose|g: int| 0 <= g < self@.len() && self@[g] == cells@;
                        assert(self.filed(g));
                        assert(self.hashes@.contains((h, 0, 0)));
                    }
                }
                None
            },
            Some(s) => {
                let bucket: &Vec<usize> = &self.buckets[s];
                let mut k: usize = 0;
                while k < bucket.len()
                    invariant
                        self.wf(),
                        s < self.buckets@.len(),
                        *bucket == self.buckets@[s as int],
                        k <= bucket@.len(),
                        forall|i: int| 0 <= i < k ==> self.lists@[#[trigger] bucket@[i] as int]@ != cells@,
                    decreases bucket.len() - k,
                {
                    let g: usize = bucket[k];
                    proof {
                        assert(self.buckets@[s as int]@[k as int] < self.lists@.len());
                    }
                    if same_cells(&self.lists[g], cells) {
                        return Some(g);
                    }
                    k = k + 1;
                }
                proof {
                    if self@.contains(cells@) {
                        let g = choose|g: int| 0 <= g < self@.len() && self@[g] == cells@;
                        assert(g < self.lists.len());
                        assert(self.filed(g));
                        let w = choose|w: int|
                            0 <= w < self.hashes@.len() && #[trigger] self.hashes@[w] == (
                                mixed(self.lists@[g]@, self.lists@[g]@.len()),
                                0u64,
                                0u64,
                            ) && self.buckets@[w]@.contains(g as usize);
                        self.hashes.keys_are_distinct();
                        assert(w == s);
                        let i = choose|i: int| 0 <= i < bucket@.len() && bucket@[i] == g as usize;
                        assert(self.lists@[bucket@[i] as int]@ == cells@);
                    }
                }
                None
            },
        }
    }

    /// The number of a list of cells, giving it the next one if it has none.
    pub fn slot_of(&mut self, cells: Vec<u64>) -> (slot: usize)
        requires
            old(self).wf(),
        ensures
            final(self).wf(),
            final(self)@ == (if old(self)@.contains(cells@) { old(self)@ } else { old(self)@.push(cells@) }),
            slot < final(self)@.len(),
            final(self)@[slot as int] == cells@,
    {
        match self.find(&cells) {
            Some(g) => {
                proof {
                    assert(self@.contains(cells@));
                }
                g
            },
            None => {
                let h: u64 = mix(&cells);
                let g: usize = self.lists.len();
                let s: usize = self.hashes.slot_of((h, 0, 0));
                let ghost before = *old(self);
                if s == self.buckets.len() {
                    self.buckets.push(Vec::new());
                }
                let ghost middle = self.buckets@;
                proof {
                    old(self).hashes.keys_are_distinct();
                    self.hashes.keys_are_distinct();
                    assert(middle.len() == self.hashes@.len()) by {
                        if before.hashes@.contains((h, 0, 0)) {
                            let w = choose|w: int| 0 <= w < before.hashes@.len() && before.hashes@[w] == (h, 0u64, 0u64);
                            assert(self.hashes@[w] == (h, 0u64, 0u64));
                            assert(w == s);
                        } else {
                            let last = before.hashes@.len() as int;
                            assert(self.hashes@[last] == (h, 0u64, 0u64));
                            assert(s == last);
                        }
                    }
                }
                self.buckets[s].push(g);
                self.lists.push(cells);
                proof {
                    let now = *self;
                    assert(now@ =~= before@.push(cells@));
                    assert forall|w: int, k: int|
                        0 <= w < now.buckets@.len() && 0 <= k < now.buckets@[w]@.len() implies #[trigger] now.buckets@[w]@[k]
                        < now.lists@.len() by {
                        if w == s && k == middle[w]@.len() {
                        } else if w < before.buckets@.len() {
                            assert(before.buckets@[w]@[k] < before.lists@.len());
                        }
                    }
                    assert forall|x: int| 0 <= x < now.lists@.len() implies #[trigger] now.filed(x) by {
                        if x < before.lists@.len() {
                            assert(before.filed(x));
                            let w = choose|w: int|
                                0 <= w < before.hashes@.len() && #[trigger] before.hashes@[w] == (
                                    mixed(before.lists@[x]@, before.lists@[x]@.len()),
                                    0u64,
                                    0u64,
                                ) && before.buckets@[w]@.contains(x as usize);
                            assert(now.hashes@[w] == before.hashes@[w]);
                            let i = choose|i: int| 0 <= i < before.buckets@[w]@.len() && before.buckets@[w]@[i] == x as usize;
                            assert(now.buckets@[w]@[i] == x as usize);
                            assert(now.lists@[x] == before.lists@[x]);
                        } else {
                            assert(now.hashes@[s as int] == (h, 0u64, 0u64));
                            let b = now.buckets@[s as int]@;
                            assert(b[b.len() - 1] == g);
                        }
                    }
                    assert forall|x: int, y: int| 0 <= x < y < now.lists@.len() implies (#[trigger] now.lists@[x])@ != (
                    #[trigger] now.lists@[y])@ by {
                        if y == before.lists@.len() {
                            assert(before@[x] == before.lists@[x]@);
                        }
                    }
                }
                g
            },
        }
    }
}

/// The lists of cells of the first `n` rows that count, each once, in the order in
/// which they first come.
pub open spec fn cells_seen(rows: Seq<Option<Seq<u64>>>, n: int) -> Seq<Seq<u64>>
    decreases n,
{
    if n <= 0 {
        Seq::empty()
    } else {
        let before = cells_seen(rows, n - 1);
        match rows[n - 1] {
            Some(cells) => if before.contains(cells) {
                before
            } else {
                before.push(cells)
            },
            None => before,
        }
    }
}

/// The group with a number.
pub open spec fn numbered_key(g: int) -> Key {
    (g as u64, 0u64, 0u64)
}

/// The rows that count, each in the group of its cells.
pub open spec fn numbered(rows: Seq<Option<Seq<u64>>>) -> Seq<Term> {
    let seen = cells_seen(rows, rows.len() as int);
    Seq::new(
        rows.len(),
        |i: int|
            match rows[i] {
                Some(cells) => Some((numbered_key(seen.index_of(cells)), 0u64)),
                None => None,
            },
    )
}

/// What rows hold.
pub open spec fn row_cells(rows: Seq<Option<Vec<u64>>>) -> Seq<Option<Seq<u64>>> {
    rows.map_values(
        |x: Option<Vec<u64>>|
            match x {
                Some(cells) => Some(cells@),
                None => None,
            },
    )
}

/// What has been seen keeps its number.
proof fn lemma_seen_grows(rows: Seq<Option<Seq<u64>>>, n: int, m: int)
    requires
        0 <= n <= m,
    ensures
        cells_seen(rows, n).len() <= cells_seen(rows, m).len(),
        forall|g: int| 0 <= g < cells_seen(rows, n).len() ==> #[trigger] cells_seen(rows, m)[g] == cells_seen(rows, n)[g],
    decreases m,
{
    if n < m {
        lemma_seen_grows(rows, n, m - 1);
    }
}

/// No list of cells is seen twice, and those seen are those of the rows.
pub proof fn cells_seen_are_row_cells(rows: Seq<Option<Seq<u64>>>, n: int, cells: Seq<u64>)
    requires
        0 <= n <= rows.len(),
    ensures
        cells_seen(rows, n).no_duplicates(),
        cells_seen(rows, n).len() <= n,
        cells_seen(rows, n).contains(cells) <==> exists|i: int| 0 <= i < n && #[trigger] rows[i] == Some(cells),
    decreases n,
{
    if n > 0 {
        cells_seen_are_row_cells(rows, n - 1, cells);
        let before = cells_seen(rows, n - 1);
        let now = cells_seen(rows, n);
        if rows[n - 1] is Some {
            let x = rows[n - 1]->0;
            if !before.contains(x) {
                assert(now[before.len() as int] == x);
                if before.contains(cells) {
                    let g = choose|g: int| 0 <= g < before.len() && before[g] == cells;
                    assert(now[g] == cells);
                }
                if now.contains(cells) && cells != x {
                    let g = choose|g: int| 0 <= g < now.len() && now[g] == cells;
                    assert(before[g] == cells);
                }
            }
        }
        if exists|i: int| 0 <= i < n && #[trigger] rows[i] == Some(cells) {
            let i = choose|i: int| 0 <= i < n && #[trigger] rows[i] == Some(cells);
            if i < n - 1 {
                assert(before.contains(cells));
            }
        }
    }
}

/// Two rows that count are in one group exactly if they hold the same cells.
pub proof fn groups_hold_equal_cells(rows: Seq<Option<Seq<u64>>>, i: int, j: int)
    requires
        rows.len() <= u64::MAX,
        0 <= i < rows.len(),
        0 <= j < rows.len(),
        rows[i] is Some,
        rows[j] is Some,
    ensures
        numbered(rows)[i] == numbered(rows)[j] <==> rows[i] == rows[j],
{
    let n = rows.len() as int;
    let seen = cells_seen(rows, n);
    cells_seen_are_row_cells(rows, n, rows[i]->0);
    cells_seen_are_row_cells(rows, n, rows[j]->0);
    assert(rows[i] == Some(rows[i]->0));
    assert(rows[j] == Some(rows[j]->0));
    assert(seen.contains(rows[i]->0));
    assert(seen.contains(rows[j]->0));
}

/// Puts the rows that count in groups by their cells.
pub fn number_rows(rows: &Vec<Option<Vec<u64>>>) -> (r: (CellIndex, Vec<Term>))
    ensures
        r.0.wf(),
        r.0@ == cells_seen(row_cells(rows@), rows@.len() as int),
        r.1@ == numbered(row_cells(rows@)),
{
    let ghost held = row_cells(rows@);
    let ghost all = cells_seen(held, rows@.len() as int);
    let mut ix: CellIndex = CellIndex::new();
    let mut lines: Vec<Term> = Vec::new();
    let mut i: usize = 0;
    while i < rows.len()
        invariant
            held == row_cells(rows@),
            all == cells_seen(held, rows@.len() as int),
            ix.wf(),
            i <= rows@.len(),
            ix@ == cells_seen(held, i as int),
            lines@.len() == i,
            forall|k: int| 0 <= k < i ==> #[trigger] lines@[k] == numbered(held)[k],
        decreases rows.len() - i,
    {
        proof {
            assert(held[i as int] == match rows@[i as int] {
                Some(cells) => Some(cells@),
                None => None,
            });
        }
        match &rows[i] {
            Some(cells) => {
                let slot: usize = ix.slot_of(crate::sql::exec_table::copy_cells(cells));
                proof {
                    assert(ix@ =~= cells_seen(held, i + 1));
                    lemma_seen_grows(held, i + 1, rows@.len() as int);
                    cells_seen_are_row_cells(held, rows@.len() as int, cells@);
                    assert(all[slot as int] == cells@);
                    let w = all.index_of(cells@);
                    assert(all.contains(cells@));
                    assert(all[w] == cells@);
                    assert(w == slot);
                }
                lines.push(Some(((slot as u64, 0, 0), 0)));
            },
            None => {
                lines.push(None);
            },
        }
        i = i + 1;
    }
    proof {
        assert(lines@ =~= numbered(held));
    }
    (ix, lines)
}

} // verus!
