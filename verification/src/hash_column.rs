//! Hashes of string columns, computed once and kept beside them.

use crate::hashing::{hash_text, text_hash};
use crate::text::same_text;
use std::collections::{HashMap, HashSet};
use vstd::prelude::*;

verus! {

/// The hashes of a string column, one for each row.
#[derive(Debug)]
pub struct HashColumn {
    pub hashes: Vec<u64>,
}

/// The rows, up to row `n`, whose hash is `h`, in order.
pub open spec fn rows_with(hashes: Seq<u64>, h: u64, n: int) -> Seq<usize>
    decreases n,
{
    if n <= 0 {
        Seq::empty()
    } else if hashes[n - 1] == h {
        rows_with(hashes, h, n - 1).push((n - 1) as usize)
    } else {
        rows_with(hashes, h, n - 1)
    }
}

/// The groups hold each row once, under its hash and in order, and nothing else.
pub open spec fn groups_rows(groups: Map<u64, Vec<usize>>, hashes: Seq<u64>, n: int) -> bool {
    &&& forall|h: u64| #[trigger] groups.dom().contains(h) <==> rows_with(hashes, h, n).len() > 0
    &&& forall|h: u64| #[trigger] groups.dom().contains(h) ==> groups[h]@ == rows_with(hashes, h, n)
}

impl HashColumn {
    /// The hashes of a list of strings.
    pub fn from_strings(strings: &[String]) -> (c: Self)
        ensures
            c.hashes.len() == strings@.len(),
            forall|i: int| 0 <= i < strings@.len() ==> #[trigger] c.hashes@[i] == text_hash(strings@[i]@),
    {
        let mut hashes: Vec<u64> = Vec::new();
        let mut i: usize = 0;
        while i < strings.len()
            invariant
                i <= strings@.len(),
                hashes.len() == i,
                forall|k: int| 0 <= k < i ==> #[trigger] hashes@[k] == text_hash(strings@[k]@),
            decreases strings@.len() - i,
        {
            hashes.push(hash_text(strings[i].as_str()));
            i = i + 1;
        }
        HashColumn { hashes }
    }

    /// The hashes of a list of string slices.
    pub fn from_strs(strings: &[&str]) -> (c: Self)
        ensures
            c.hashes.len() == strings@.len(),
            forall|i: int| 0 <= i < strings@.len() ==> #[trigger] c.hashes@[i] == text_hash(strings@[i]@),
    {
        let mut hashes: Vec<u64> = Vec::new();
        let mut i: usize = 0;
        while i < strings.len()
            invariant
                i <= strings@.len(),
                hashes.len() == i,
                forall|k: int| 0 <= k < i ==> #[trigger] hashes@[k] == text_hash(strings@[k]@),
            decreases strings@.len() - i,
        {
            hashes.push(hash_text(strings[i]));
            i = i + 1;
        }
        HashColumn { hashes }
    }

    /// The hash of a row; zero where there is no such row.
    pub fn get(&self, idx: usize) -> (h: u64)
        ensures
            h == (if idx < self.hashes.len() {
                self.hashes@[idx as int]
            } else {
                0
            }),
    {
        if idx < self.hashes.len() {
            self.hashes[idx]
        } else {
            0
        }
    }

    pub fn len(&self) -> (n: usize)
        ensures
            n == self.hashes.len(),
    {
        self.hashes.len()
    }

    pub fn is_empty(&self) -> (b: bool)
        ensures
            b == (self.hashes.len() == 0),
    {
        self.hashes.len() == 0
    }

    /// The rows of each hash.
    pub fn group_by_hash(&self) -> (groups: HashMap<u64, Vec<usize>>)
        ensures
            groups_rows(groups@, self.hashes@, self.hashes.len() as int),
    {
        let mut groups: HashMap<u64, Vec<usize>> = HashMap::new();
        let mut i: usize = 0;
        while i < self.hashes.len()
            invariant
                i <= self.hashes.len(),
                groups_rows(groups@, self.hashes@, i as int),
            decreases self.hashes.len() - i,
        {
            let h: u64 = self.hashes[i];
            let mut rows: Vec<usize> = match groups.remove(&h) {
                Some(rows) => rows,
                None => Vec::new(),
            };
            proof {
                assert(rows@ =~= rows_with(self.hashes@, h, i as int));
            }
            rows.push(i);
            groups.insert(h, rows);
            i = i + 1;
        }
        groups
    }

    /// How many different hashes there are.
    pub fn count_distinct(&self) -> (n: usize)
        ensures
            n == self.hashes@.to_set().len(),
    {
        let mut seen: HashSet<u64> = HashSet::new();
        let mut i: usize = 0;
        proof {
            assert(self.hashes@.take(0).to_set() =~= Set::<u64>::empty());
        }
        while i < self.hashes.len()
            invariant
                i <= self.hashes.len(),
                seen@ == self.hashes@.take(i as int).to_set(),
            decreases self.hashes.len() - i,
        {
            seen.insert(self.hashes[i]);
            proof {
                let now = self.hashes@.take(i + 1);
                assert(now =~= self.hashes@.take(i as int).push(self.hashes@[i as int]));
                assert(now.to_set() =~= self.hashes@.take(i as int).to_set().insert(self.hashes@[i as int])) by {
                    assert forall|h: u64| now.to_set().contains(h) implies self.hashes@.take(i as int).to_set().insert(
                        self.hashes@[i as int],
                    ).contains(h) by {
                        let k = choose|k: int| 0 <= k < now.len() && now[k] == h;
                        if k < i {
                            assert(self.hashes@.take(i as int)[k] == h);
                        }
                    }
                    assert forall|h: u64| self.hashes@.take(i as int).to_set().insert(
                        self.hashes@[i as int],
                    ).contains(h) implies now.to_set().contains(h) by {
                        if h == self.hashes@[i as int] {
                            assert(now[i as int] == h);
                        } else {
                            let k = choose|k: int| 0 <= k < i && self.hashes@.take(i as int)[k] == h;
                            assert(now[k] == h);
                        }
                    }
                }
            }
            i = i + 1;
        }
        proof {
            assert(self.hashes@.take(i as int) =~= self.hashes@);
        }
        seen.len()
    }
}

proof fn lemma_rows_with_mem(hashes: Seq<u64>, h: u64, n: int, row: usize)
    requires
        0 <= n <= hashes.len() <= usize::MAX,
    ensures
        rows_with(hashes, h, n).contains(row) <==> row < n && hashes[row as int] == h,
    decreases n,
{
    if n > 0 {
        lemma_rows_with_mem(hashes, h, n - 1, row);
        let before = rows_with(hashes, h, n - 1);
        if hashes[n - 1] == h {
            let now = before.push((n - 1) as usize);
            if before.contains(row) {
                let k = choose|k: int| 0 <= k < before.len() && before[k] == row;
                assert(now[k] == row);
            }
            if now.contains(row) && row != n - 1 {
                let k = choose|k: int| 0 <= k < now.len() && now[k] == row;
                assert(before[k] == row);
            }
            if row == n - 1 {
                assert(now[before.len() as int] == row);
            }
        }
    }
}

/// Grouping by hash partitions the rows: each row stands in the group of its
/// hash and in no other.
pub proof fn groups_partition_rows(groups: Map<u64, Vec<usize>>, hashes: Seq<u64>, row: usize, h: u64)
    requires
        hashes.len() <= usize::MAX,
        groups_rows(groups, hashes, hashes.len() as int),
        row < hashes.len(),
    ensures
        (groups.dom().contains(h) && groups[h]@.contains(row)) <==> h == hashes[row as int],
{
    lemma_rows_with_mem(hashes, h, hashes.len() as int, row);
    lemma_rows_with_mem(hashes, hashes[row as int], hashes.len() as int, row);
}

/// The same text has the same hash wherever it stands.
pub proof fn hash_is_stable(a: HashColumn, b: HashColumn, s: Seq<String>, t: Seq<String>, i: int, j: int)
    requires
        a.hashes.len() == s.len(),
        b.hashes.len() == t.len(),
        forall|k: int| 0 <= k < s.len() ==> #[trigger] a.hashes@[k] == text_hash(s[k]@),
        forall|k: int| 0 <= k < t.len() ==> #[trigger] b.hashes@[k] == text_hash(t[k]@),
        0 <= i < s.len(),
        0 <= j < t.len(),
        s[i]@ == t[j]@,
    ensures
        a.hashes@[i] == b.hashes@[j],
{
}

/// A hash column and the table and column that it belongs to.
#[derive(Debug)]
pub struct RegistryEntry {
    pub table: String,
    pub column: String,
    pub hashes: HashColumn,
}

/// Hash columns by table and column.
#[derive(Debug)]
pub struct HashColumnRegistry {
    entries: Vec<RegistryEntry>,
}

/// The name of a column: its table and its own name.
pub type ColumnName = (Seq<char>, Seq<char>);

impl HashColumnRegistry {
    pub closed spec fn name_at(&self, i: int) -> ColumnName {
        (self.entries@[i].table@, self.entries@[i].column@)
    }

    pub closed spec fn count(&self) -> nat {
        self.entries@.len()
    }

    /// No column is held twice.
    pub closed spec fn wf(&self) -> bool {
        forall|i: int, j: int|
            0 <= i < j < self.entries.len() ==> #[trigger] self.name_at(i) != #[trigger] self.name_at(j)
    }

    /// The hash columns that are held.
    pub closed spec fn view(&self) -> Map<ColumnName, HashColumn> {
        Map::new(
            |n: ColumnName| exists|i: int| 0 <= i < self.entries.len() && #[trigger] self.name_at(i) == n,
            |n: ColumnName|
                self.entries@[choose|i: int| 0 <= i < self.entries.len() && #[trigger] self.name_at(i) == n].hashes,
        )
    }

    proof fn lemma_held(&self, i: int)
        requires
            self.wf(),
            0 <= i < self.entries.len(),
        ensures
            self@.dom().contains(self.name_at(i)),
            self@[self.name_at(i)] == self.entries@[i].hashes,
    {
        let n = self.name_at(i);
        let k = choose|k: int| 0 <= k < self.entries.len() && #[trigger] self.name_at(k) == n;
        assert(k == i);
    }

    pub fn new() -> (r: Self)
        ensures
            r.wf(),
            r@ == Map::<ColumnName, HashColumn>::empty(),
            r.count() == 0,
    {
        let r: HashColumnRegistry = HashColumnRegistry { entries: Vec::new() };
        proof {
            assert(r@ =~= Map::<ColumnName, HashColumn>::empty());
        }
        r
    }

    fn place_of(&self, table: &str, column: &str) -> (r: Option<usize>)
        requires
            self.wf(),
        ensures
            match r {
                Some(i) => i < self.entries.len() && self.name_at(i as int) == (table@, column@),
                None => forall|i: int| 0 <= i < self.entries.len() ==> #[trigger] self.name_at(i) != (table@, column@),
            },
    {
        let mut i: usize = 0;
        while i < self.entries.len()
            invariant
                i <= self.entries.len(),
                forall|k: int| 0 <= k < i ==> #[trigger] self.name_at(k) != (table@, column@),
            decreases self.entries.len() - i,
        {
            let e: &RegistryEntry = &self.entries[i];
            if same_text(e.table.as_str(), table) && same_text(e.column.as_str(), column) {
                return Some(i);
            }
            i = i + 1;
        }
        None
    }

    /// Holds a hash column, in place of one of the same name.
    pub fn register(&mut self, table: &str, column: &str, hash_col: HashColumn)
        requires
            old(self).wf(),
        ensures
            final(self).wf(),
            final(self)@ == old(self)@.insert((table@, column@), hash_col),
            final(self).count() == old(self).count() + (if old(self)@.dom().contains((table@, column@)) {
                0int
            } else {
                1
            }),
    {
        let entry: RegistryEntry = RegistryEntry { table: table.to_owned(), column: column.to_owned(), hashes: hash_col };
        let ghost name = (table@, column@);
        match self.place_of(table, column) {
            Some(k) => {
                proof {
                    self.lemma_held(k as int);
                }
                self.entries.set(k, entry);
                proof {
                    assert forall|i: int| 0 <= i < self.entries.len() implies #[trigger] self.name_at(i) == old(
                        self,
                    ).name_at(i) by {}
                    assert(self.wf());
                    assert forall|n: ColumnName| #[trigger] self@.dom().contains(n) <==> old(self)@.insert(
                        name,
                        hash_col,
                    ).dom().contains(n) by {
                        if self@.dom().contains(n) {
                            let i = choose|i: int| 0 <= i < self.entries.len() && #[trigger] self.name_at(i) == n;
                            old(self).lemma_held(i);
                        }
                        if old(self)@.dom().contains(n) {
                            let i = choose|i: int|
                                0 <= i < old(self).entries.len() && #[trigger] old(self).name_at(i) == n;
                            self.lemma_held(i);
                        }
                        self.lemma_held(k as int);
                    }
                    assert forall|n: ColumnName| #[trigger] self@.dom().contains(n) implies self@[n] == old(
                        self,
                    )@.insert(name, hash_col)[n] by {
                        let i = choose|i: int| 0 <= i < self.entries.len() && #[trigger] self.name_at(i) == n;
                        self.lemma_held(i);
                        old(self).lemma_held(i);
                    }
                    assert(self@ =~= old(self)@.insert(name, hash_col));
                }
            },
            None => {
                self.entries.push(entry);
                proof {
                    let last = self.entries.len() - 1;
                    assert(self.name_at(last) == name);
                    assert forall|i: int| 0 <= i < last implies #[trigger] self.name_at(i) == old(self).name_at(i) by {}
                    assert(self.wf());
                    assert forall|n: ColumnName| #[trigger] self@.dom().contains(n) <==> old(self)@.insert(
                        name,
                        hash_col,
                    ).dom().contains(n) by {
                        if self@.dom().contains(n) {
                            let i = choose|i: int| 0 <= i < self.entries.len() && #[trigger] self.name_at(i) == n;
                            if i < last {
                                old(self).lemma_held(i);
                            }
                        }
                        if old(self)@.dom().contains(n) {
                            let i = choose|i: int|
                                0 <= i < old(self).entries.len() && #[trigger] old(self).name_at(i) == n;
                            self.lemma_held(i);
                        }
                        self.lemma_held(last);
                    }
                    assert forall|n: ColumnName| #[trigger] self@.dom().contains(n) implies self@[n] == old(
                        self,
                    )@.insert(name, hash_col)[n] by {
                        let i = choose|i: int| 0 <= i < self.entries.len() && #[trigger] self.name_at(i) == n;
                        self.lemma_held(i);
                        if i < last {
                            old(self).lemma_held(i);
                        }
                    }
                    assert(self@ =~= old(self)@.insert(name, hash_col));
                }
            },
        }
    }

    /// The hash column of a name, if it is held.
    pub fn get(&self, table: &str, column: &str) -> (r: Option<&HashColumn>)
        requires
            self.wf(),
        ensures
            match r {
                Some(c) => self@.dom().contains((table@, column@)) && *c == self@[(table@, column@)],
                None => !self@.dom().contains((table@, column@)),
            },
    {
        match self.place_of(table, column) {
            Some(k) => {
                proof {
                    self.lemma_held(k as int);
                }
                Some(&self.entries[k].hashes)
            },
            None => None,
        }
    }

    /// Whether a hash column of that name is held.
    pub fn has(&self, table: &str, column: &str) -> (b: bool)
        requires
            self.wf(),
        ensures
            b == self@.dom().contains((table@, column@)),
    {
        match self.place_of(table, column) {
            Some(k) => {
                proof {
                    self.lemma_held(k as int);
                }
                true
            },
            None => false,
        }
    }

    /// Drops the hash column of a name, and says whether it was held.
    pub fn remove(&mut self, table: &str, column: &str) -> (b: bool)
        requires
            old(self).wf(),
        ensures
            final(self).wf(),
            b == old(self)@.dom().contains((table@, column@)),
            final(self)@ == old(self)@.remove((table@, column@)),
            final(self).count() == old(self).count() - (if b {
                1int
            } else {
                0
            }),
    {
        let ghost name = (table@, column@);
        match self.place_of(table, column) {
            Some(k) => {
                proof {
                    self.lemma_held(k as int);
                }
                self.entries.remove(k);
                proof {
                    assert forall|i: int| 0 <= i < self.entries.len() implies #[trigger] self.name_at(i) == old(
                        self,
                    ).name_at(if i < k { i } else { i + 1 }) by {}
                    assert(self.wf());
                    assert forall|n: ColumnName| #[trigger] self@.dom().contains(n) <==> old(self)@.remove(
                        name,
                    ).dom().contains(n) by {
                        if self@.dom().contains(n) {
                            let i = choose|i: int| 0 <= i < self.entries.len() && #[trigger] self.name_at(i) == n;
                            old(self).lemma_held(if i < k { i } else { i + 1 });
                        }
                        if old(self)@.dom().contains(n) && n != name {
                            let i = choose|i: int|
                                0 <= i < old(self).entries.len() && #[trigger] old(self).name_at(i) == n;
                            self.lemma_held(if i < k { i } else { i - 1 });
                        }
                    }
                    assert forall|n: ColumnName| #[trigger] self@.dom().contains(n) implies self@[n] == old(
                        self,
                    )@.remove(name)[n] by {
                        let i = choose|i: int| 0 <= i < self.entries.len() && #[trigger] self.name_at(i) == n;
                        self.lemma_held(i);
                        old(self).lemma_held(if i < k { i } else { i + 1 });
                    }
                    assert(self@ =~= old(self)@.remove(name));
                }
                true
            },
            None => {
                proof {
                    assert(self@ =~= old(self)@.remove(name));
                }
                false
            },
        }
    }

    /// How many hash columns are held.
    pub fn len(&self) -> (n: usize)
        ensures
            n == self.count(),
    {
        self.entries.len()
    }

    pub fn is_empty(&self) -> (b: bool)
        ensures
            b == (self.count() == 0),
    {
        self.entries.len() == 0
    }

    /// The count is the number of names that are held.
    pub proof fn count_is_size(&self)
        requires
            self.wf(),
        ensures
            self@.dom().finite(),
            self@.dom().len() == self.count(),
    {
        let names = Seq::new(self.entries@.len(), |i: int| self.name_at(i));
        names.unique_seq_to_set();
        assert(names.to_set() =~= self@.dom()) by {
            assert forall|n: ColumnName| names.to_set().contains(n) implies self@.dom().contains(n) by {
                let i = choose|i: int| 0 <= i < names.len() && names[i] == n;
                self.lemma_held(i);
            }
            assert forall|n: ColumnName| self@.dom().contains(n) implies names.to_set().contains(n) by {
                let i = choose|i: int| 0 <= i < self.entries.len() && #[trigger] self.name_at(i) == n;
                assert(names[i] == n);
            }
        }
    }
}

impl Default for HashColumnRegistry {
    fn default() -> (r: Self)
        ensures
            r.wf(),
            r@ == Map::<ColumnName, HashColumn>::empty(),
    {
        HashColumnRegistry::new()
    }
}

} // verus!
