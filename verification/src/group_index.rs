//! Numbering of distinct keys in the order in which they first appear.

use fxhash::FxHashMap;
use vstd::prelude::*;

verus! {

/// A key of up to three words; shorter keys leave the rest zero.
pub type Key = (u64, u64, u64);

#[verifier::external_type_specification]
#[verifier::external_body]
pub struct ExFxHasher(fxhash::FxHasher);

#[verifier::external_type_specification]
#[verifier::external_body]
#[verifier::reject_recursive_types(H)]
pub struct ExBuildHasherDefault<H>(core::hash::BuildHasherDefault<H>);

/// `FxHashMap::default`: the map holds nothing.
#[verifier::external_body]
fn fx_new() -> (m: FxHashMap<Key, usize>)
    ensures
        forall|k: Key| !#[trigger] m@.dom().contains(k),
{
    FxHashMap::default()
}

/// `FxHashMap::get`: the value held for the key, if there is one.
#[verifier::external_body]
fn fx_get(m: &FxHashMap<Key, usize>, key: Key) -> (value: Option<usize>)
    ensures
        value == (if m@.dom().contains(key) { Some(m@[key]) } else { None }),
{
    m.get(&key).copied()
}

/// `FxHashMap::insert`: the key now holds the value; other keys are as before.
#[verifier::external_body]
fn fx_insert(m: &mut FxHashMap<Key, usize>, key: Key, value: usize)
    ensures
        final(m)@ == old(m)@.insert(key, value),
{
    m.insert(key, value);
}

/// Distinct keys, numbered from zero in the order in which they came.
pub struct GroupIndex {
    slots: FxHashMap<Key, usize>,
    keys: Vec<Key>,
}

impl GroupIndex {
    /// The keys by number.
    pub closed spec fn view(&self) -> Seq<Key> {
        self.keys@
    }

    /// The map and the list agree, and no key has two numbers.
    pub closed spec fn wf(&self) -> bool {
        &&& forall|i: int| 0 <= i < self.keys.len() ==> #[trigger] self.slots@.dom().contains(self.keys@[i])
        &&& forall|i: int| 0 <= i < self.keys.len() ==> self.slots@[#[trigger] self.keys@[i]] == i
        &&& forall|k: Key| #[trigger] self.slots@.dom().contains(k) ==> self.slots@[k] < self.keys.len()
            && self.keys@[self.slots@[k] as int] == k
    }

    /// No key has two numbers.
    pub proof fn keys_are_distinct(&self)
        requires
            self.wf(),
        ensures
            self@.no_duplicates(),
    {
    }

    pub fn new() -> (g: Self)
        ensures
            g.wf(),
            g@ == Seq::<Key>::empty(),
    {
        GroupIndex { slots: fx_new(), keys: Vec::new() }
    }

    pub fn len(&self) -> (n: usize)
        ensures
            n == self@.len(),
    {
        self.keys.len()
    }

    pub fn key(&self, slot: usize) -> (k: Key)
        requires
            slot < self@.len(),
        ensures
            k == self@[slot as int],
    {
        self.keys[slot]
    }

    /// The number of a key, if it has one.
    pub fn find(&self, key: Key) -> (slot: Option<usize>)
        requires
            self.wf(),
        ensures
            match slot {
                Some(s) => s < self@.len() && self@[s as int] == key,
                None => !self@.contains(key),
            },
    {
        fx_get(&self.slots, key)
    }

    /// The number of a key, giving it the next one if it has none.
    pub fn slot_of(&mut self, key: Key) -> (slot: usize)
        requires
            old(self).wf(),
        ensures
            final(self).wf(),
            final(self)@ == (if old(self)@.contains(key) { old(self)@ } else { old(self)@.push(key) }),
            slot < final(self)@.len(),
            final(self)@[slot as int] == key,
    {
        match fx_get(&self.slots, key) {
            Some(s) => s,
            None => {
                let s: usize = self.keys.len();
                fx_insert(&mut self.slots, key, s);
                self.keys.push(key);
                s
            },
        }
    }
}

/// The last of the first `n` rows that is marked and holds the key `k`.
pub open spec fn last_row<K>(keys: Seq<K>, marks: Seq<bool>, n: int, k: K) -> Option<usize>
    decreases n,
{
    if n <= 0 {
        None
    } else if marks[n - 1] && keys[n - 1] == k {
        Some((n - 1) as usize)
    } else {
        last_row(keys, marks, n - 1, k)
    }
}

/// The last marked row of a table that holds the key `k`.
pub open spec fn row_of_key<K>(keys: Seq<K>, marks: Seq<bool>, k: K) -> Option<usize> {
    last_row(keys, marks, marks.len() as int, k)
}

/// The row found for a key is marked and holds it, and no later row does; where
/// none is found, there is none.
pub proof fn row_of_key_is_last<K>(keys: Seq<K>, marks: Seq<bool>, n: int, k: K)
    requires
        0 <= n <= marks.len(),
        n <= usize::MAX,
    ensures
        match last_row(keys, marks, n, k) {
            Some(i) => i < n && marks[i as int] && keys[i as int] == k && forall|j: int|
                i < j < n ==> !(#[trigger] marks[j] && keys[j] == k),
            None => forall|j: int| 0 <= j < n ==> !(#[trigger] marks[j] && keys[j] == k),
        },
    decreases n,
{
    if n > 0 {
        row_of_key_is_last(keys, marks, n - 1, k);
    }
}

/// Finds, for a key, the last marked row that holds it.
pub struct RowIndex {
    rows: FxHashMap<Key, usize>,
    keys: Ghost<Seq<u64>>,
    marks: Ghost<Seq<bool>>,
}

impl RowIndex {
    /// The keys of the rows.
    pub closed spec fn keys(&self) -> Seq<u64> {
        self.keys@
    }

    /// The marks of the rows.
    pub closed spec fn marks(&self) -> Seq<bool> {
        self.marks@
    }

    pub closed spec fn wf(&self) -> bool {
        &&& self.keys().len() >= self.marks().len()
        &&& self.marks().len() <= usize::MAX
        &&& forall|k: u64| #[trigger]
            self.rows@.dom().contains((k, 0u64, 0u64)) <==> row_of_key(self.keys(), self.marks(), k) is Some
        &&& forall|k: u64| #[trigger]
            self.rows@.dom().contains((k, 0u64, 0u64)) ==> row_of_key(self.keys(), self.marks(), k) == Some(
                self.rows@[(k, 0u64, 0u64)],
            )
    }

    /// Indexes the marked rows of a table by their key.
    pub fn build(keys: &Vec<u64>, marks: &Vec<bool>) -> (ix: Self)
        requires
            keys.len() >= marks.len(),
        ensures
            ix.wf(),
            ix.keys() == keys@,
            ix.marks() == marks@,
    {
        let mut rows: FxHashMap<Key, usize> = fx_new();
        let mut i: usize = 0;
        while i < marks.len()
            invariant
                i <= marks.len(),
                keys.len() >= marks.len(),
                forall|k: u64| #[trigger]
                    rows@.dom().contains((k, 0u64, 0u64)) <==> last_row(keys@, marks@, i as int, k) is Some,
                forall|k: u64| #[trigger]
                    rows@.dom().contains((k, 0u64, 0u64)) ==> last_row(keys@, marks@, i as int, k) == Some(
                        rows@[(k, 0u64, 0u64)],
                    ),
            decreases marks.len() - i,
        {
            if marks[i] {
                fx_insert(&mut rows, (keys[i], 0, 0), i);
            }
            i = i + 1;
        }
        RowIndex { rows, keys: Ghost(keys@), marks: Ghost(marks@) }
    }

    /// The last marked row that holds a key.
    pub fn find(&self, key: u64) -> (row: Option<usize>)
        requires
            self.wf(),
        ensures
            row == row_of_key(self.keys(), self.marks(), key),
            row matches Some(r) ==> r < self.marks().len() && self.marks()[r as int] && self.keys()[r as int] == key,
    {
        proof {
            row_of_key_is_last(self.keys(), self.marks(), self.marks().len() as int, key);
        }
        fx_get(&self.rows, (key, 0, 0))
    }

    /// Whether a marked row holds a key.
    pub fn holds(&self, key: u64) -> (b: bool)
        requires
            self.wf(),
        ensures
            b == row_of_key(self.keys(), self.marks(), key) is Some,
    {
        self.find(key).is_some()
    }
}

/// Finds, for a pair of keys, the last marked row that holds both.
pub struct PairIndex {
    rows: FxHashMap<Key, usize>,
    keys: Ghost<Seq<(u64, u64)>>,
    marks: Ghost<Seq<bool>>,
}

impl PairIndex {
    /// The pairs of the rows.
    pub closed spec fn keys(&self) -> Seq<(u64, u64)> {
        self.keys@
    }

    /// The marks of the rows.
    pub closed spec fn marks(&self) -> Seq<bool> {
        self.marks@
    }

    pub closed spec fn wf(&self) -> bool {
        &&& self.keys().len() >= self.marks().len()
        &&& self.marks().len() <= usize::MAX
        &&& forall|a: u64, b: u64| #[trigger]
            self.rows@.dom().contains((a, b, 0u64)) <==> row_of_key(self.keys(), self.marks(), (a, b)) is Some
        &&& forall|a: u64, b: u64| #[trigger]
            self.rows@.dom().contains((a, b, 0u64)) ==> row_of_key(self.keys(), self.marks(), (a, b)) == Some(
                self.rows@[(a, b, 0u64)],
            )
    }

    /// Indexes the marked rows of a table by their pair of keys.
    pub fn build(keys: &Vec<(u64, u64)>, marks: &Vec<bool>) -> (ix: Self)
        requires
            keys.len() >= marks.len(),
        ensures
            ix.wf(),
            ix.keys() == keys@,
            ix.marks() == marks@,
    {
        let mut rows: FxHashMap<Key, usize> = fx_new();
        let mut i: usize = 0;
        while i < marks.len()
            invariant
                i <= marks.len(),
                keys.len() >= marks.len(),
                forall|a: u64, b: u64| #[trigger]
                    rows@.dom().contains((a, b, 0u64)) <==> last_row(keys@, marks@, i as int, (a, b)) is Some,
                forall|a: u64, b: u64| #[trigger]
                    rows@.dom().contains((a, b, 0u64)) ==> last_row(keys@, marks@, i as int, (a, b)) == Some(
                        rows@[(a, b, 0u64)],
                    ),
            decreases marks.len() - i,
        {
            if marks[i] {
                fx_insert(&mut rows, (keys[i].0, keys[i].1, 0), i);
            }
            i = i + 1;
        }
        PairIndex { rows, keys: Ghost(keys@), marks: Ghost(marks@) }
    }

    /// The last marked row that holds a pair of keys.
    pub fn find(&self, first: u64, second: u64) -> (row: Option<usize>)
        requires
            self.wf(),
        ensures
            row == row_of_key(self.keys(), self.marks(), (first, second)),
            row matches Some(r) ==> r < self.marks().len() && self.marks()[r as int] && self.keys()[r as int] == (
                first,
                second,
            ),
    {
        proof {
            row_of_key_is_last(self.keys(), self.marks(), self.marks().len() as int, (first, second));
        }
        fx_get(&self.rows, (first, second, 0))
    }
}

/// A key has a row exactly if a marked row holds it.
pub proof fn keys_with_rows_are_held(keys: Seq<u64>, marks: Seq<bool>, n: int, k: u64)
    requires
        0 <= n,
    ensures
        last_row(keys, marks, n, k) is Some <==> exists|i: int| 0 <= i < n && #[trigger] marks[i] && keys[i] == k,
    decreases n,
{
    if n > 0 {
        keys_with_rows_are_held(keys, marks, n - 1, k);
        if marks[n - 1] && keys[n - 1] == k {
            assert(0 <= n - 1 < n && marks[n - 1]);
        } else if last_row(keys, marks, n - 1, k) is Some {
            let i = choose|i: int| 0 <= i < n - 1 && #[trigger] marks[i] && keys[i] == k;
            assert(0 <= i < n && marks[i] && keys[i] == k);
        }
    }
}

} // verus!
