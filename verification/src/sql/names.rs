//! Column numbers by name.

use ahash::AHashMap;
use crate::tpch::support::{begins_with, text_begins_with};
use vstd::prelude::*;

verus! {

#[verifier::external_type_specification]
#[verifier::external_body]
pub struct ExRandomStateOfNames(ahash::RandomState);

#[verifier::external_type_specification]
#[verifier::external_body]
#[verifier::reject_recursive_types(K)]
#[verifier::reject_recursive_types(V)]
#[verifier::reject_recursive_types(S)]
pub struct ExAHashMap<K, V, S>(AHashMap<K, V, S>);

/// The number that a map of names holds for each name.
pub uninterp spec fn numbers_of(m: AHashMap<String, usize>) -> Map<Seq<char>, usize>;

/// `AHashMap::with_hasher`: the map holds nothing.
#[verifier::external_body]
fn names_new() -> (m: AHashMap<String, usize>)
    ensures
        forall|k: Seq<char>| !#[trigger] numbers_of(m).dom().contains(k),
{
    AHashMap::with_hasher(ahash::RandomState::with_seed(0x517cc1b727220a95))
}

/// `AHashMap::get`, through the map inside: the number held for a name, if there
/// is one.
#[verifier::external_body]
fn names_get(m: &AHashMap<String, usize>, name: &str) -> (n: Option<usize>)
    ensures
        n == (if numbers_of(*m).dom().contains(name@) { Some(numbers_of(*m)[name@]) } else { None }),
{
    m.get(name).copied()
}

/// `AHashMap::insert`, through the map inside: the name now holds the number;
/// other names are as before.
#[verifier::external_body]
fn names_insert(m: &mut AHashMap<String, usize>, name: String, n: usize)
    ensures
        numbers_of(*final(m)) == numbers_of(*old(m)).insert(name@, n),
{
    m.insert(name, n);
}

/// `AHashMap::iter`, through the map inside: every name, with its number, in
/// some order.
#[verifier::external_body]
fn names_entries(m: &AHashMap<String, usize>) -> (v: Vec<(String, usize)>)
    ensures
        forall|k: Seq<char>| #[trigger] numbers_of(*m).dom().contains(k) <==> exists|i: int| 0 <= i < v@.len() && (#[trigger] v@[i]).0@ == k,
        forall|i: int| 0 <= i < v@.len() ==> numbers_of(*m)[(#[trigger] v@[i]).0@] == v@[i].1,
{
    m.iter().map(|(k, n)| (k.clone(), *n)).collect()
}

/// Column numbers by name.
pub struct NameMap {
    numbers: AHashMap<String, usize>,
}

impl NameMap {
    pub closed spec fn view(&self) -> Map<Seq<char>, usize> {
        numbers_of(self.numbers)
    }

    pub fn new() -> (m: Self)
        ensures
            m@ == Map::<Seq<char>, usize>::empty(),
    {
        let m: NameMap = NameMap { numbers: names_new() };
        proof {
            assert(m@ =~= Map::<Seq<char>, usize>::empty());
        }
        m
    }

    /// The number of a name.
    pub fn get(&self, name: &str) -> (n: Option<usize>)
        ensures
            n == (if self@.dom().contains(name@) {
                Some(self@[name@])
            } else {
                None
            }),
    {
        names_get(&self.numbers, name)
    }

    /// Gives a name a number, whatever it had.
    pub fn insert(&mut self, name: String, n: usize)
        ensures
            final(self)@ == old(self)@.insert(name@, n),
    {
        names_insert(&mut self.numbers, name, n);
    }

    /// Gives a name a number, if it has none.
    pub fn insert_new(&mut self, name: String, n: usize)
        ensures
            final(self)@ == (if old(self)@.dom().contains(name@) {
                old(self)@
            } else {
                old(self)@.insert(name@, n)
            }),
    {
        if names_get(&self.numbers, name.as_str()).is_none() {
            names_insert(&mut self.numbers, name, n);
        }
    }

    /// Takes over the names of another map, with their numbers shifted.
    pub fn insert_all(&mut self, other: &NameMap, shift: usize)
        requires
            forall|k: Seq<char>| #[trigger] other@.dom().contains(k) ==> other@[k] + shift <= usize::MAX,
        ensures
            final(self)@ == old(self)@.union_prefer_right(shifted_numbers(other@, shift as int)),
    {
        let entries: Vec<(String, usize)> = names_entries(&other.numbers);
        let ghost goal = shifted_numbers(other@, shift as int);
        let mut i: usize = 0;
        proof {
            assert(self@ =~= old(self)@.union_prefer_right(goal.restrict(names_listed(entries@, 0))));
        }
        while i < entries.len()
            invariant
                i <= entries.len(),
                goal == shifted_numbers(other@, shift as int),
                forall|k: Seq<char>| #[trigger] other@.dom().contains(k) ==> other@[k] + shift <= usize::MAX,
                forall|k: Seq<char>| #[trigger]
                    other@.dom().contains(k) <==> exists|j: int|
                        0 <= j < entries@.len() && (#[trigger] entries@[j]).0@ == k,
                forall|j: int| 0 <= j < entries@.len() ==> other@[(#[trigger] entries@[j]).0@] == entries@[j].1,
                self@ == old(self)@.union_prefer_right(goal.restrict(names_listed(entries@, i as int))),
            decreases entries.len() - i,
        {
            let name: String = entries[i].0.clone();
            let n: usize = entries[i].1;
            proof {
                assert(entries@[i as int].0@ == name@);
                assert(other@.dom().contains(name@));
                assert(other@[name@] == n);
            }
            self.insert(name, n + shift);
            proof {
                let before = goal.restrict(names_listed(entries@, i as int));
                let now = goal.restrict(names_listed(entries@, i + 1));
                assert(now =~= before.insert(name@, (n + shift) as usize)) by {
                    assert forall|k: Seq<char>| #[trigger] now.dom().contains(k) <==> before.insert(
                        name@,
                        (n + shift) as usize,
                    ).dom().contains(k) by {
                        if now.dom().contains(k) {
                            let j = choose|j: int| 0 <= j < i + 1 && (#[trigger] entries@[j]).0@ == k;
                            if j < i {
                                assert(names_listed(entries@, i as int).contains(k));
                            }
                        }
                        if before.dom().contains(k) {
                            let j = choose|j: int| 0 <= j < i && (#[trigger] entries@[j]).0@ == k;
                            assert(names_listed(entries@, i + 1).contains(k));
                        }
                        if k == name@ {
                            assert(names_listed(entries@, i + 1).contains(k));
                        }
                    }
                }
                assert(self@ =~= old(self)@.union_prefer_right(now));
            }
            i = i + 1;
        }
        proof {
            assert(goal.restrict(names_listed(entries@, i as int)) =~= goal) by {
                assert forall|k: Seq<char>| #[trigger] goal.dom().contains(k) implies names_listed(
                    entries@,
                    i as int,
                ).contains(k) by {
                    assert(other@.dom().contains(k));
                }
            }
        }
    }

    /// Whether one of the names begins with a text.
    pub fn has_prefix(&self, prefix: &str) -> (b: bool)
        ensures
            b == exists|k: Seq<char>| #[trigger] self@.dom().contains(k) && begins_with(k, prefix@),
    {
        let entries: Vec<(String, usize)> = names_entries(&self.numbers);
        let mut i: usize = 0;
        while i < entries.len()
            invariant
                i <= entries@.len(),
                forall|k: Seq<char>| #[trigger]
                    self@.dom().contains(k) <==> exists|j: int|
                        0 <= j < entries@.len() && (#[trigger] entries@[j]).0@ == k,
                forall|j: int| 0 <= j < i ==> !begins_with((#[trigger] entries@[j]).0@, prefix@),
            decreases entries.len() - i,
        {
            if text_begins_with(entries[i].0.as_str(), prefix) {
                proof {
                    assert(self@.dom().contains(entries@[i as int].0@));
                }
                return true;
            }
            i = i + 1;
        }
        false
    }

    /// The same names with the same numbers.
    pub fn duplicate(&self) -> (m: Self)
        ensures
            m@ == self@,
    {
        let mut m: NameMap = NameMap::new();
        m.insert_all(self, 0);
        proof {
            assert(m@ =~= self@);
        }
        m
    }
}

/// The names of the first `n` entries.
spec fn names_listed(entries: Seq<(String, usize)>, n: int) -> Set<Seq<char>> {
    Set::new(|k: Seq<char>| exists|j: int| 0 <= j < n && (#[trigger] entries[j]).0@ == k)
}

/// The same names with their numbers shifted.
pub open spec fn shifted_numbers(m: Map<Seq<char>, usize>, shift: int) -> Map<Seq<char>, usize> {
    m.map_values(|n: usize| (n + shift) as usize)
}

} // verus!
