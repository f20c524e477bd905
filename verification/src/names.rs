//! A map from names to entries, kept as a list in which no name occurs twice.
//!
//! The hash maps of the standard library tell Verus nothing where the key is
//! a `String`: vstd states what `insert` and `get` do only for keys that obey
//! its key model, which it grants to the primitive types and their boxes.
//! This map is proved from its own code instead, and looks a name up by going
//! through the list.

use vstd::prelude::*;

verus! {

/// A finite map keyed by strings. Its view is the mathematical map from the
/// characters of a name to the entry stored under it.
#[derive(Debug)]
pub struct NameMap<V> {
    entries: Vec<(String, V)>,
}

impl<V> View for NameMap<V> {
    type V = Map<Seq<char>, V>;

    closed spec fn view(&self) -> Map<Seq<char>, V> {
        Map::new(
            |name: Seq<char>| exists|i: int| self.holds(i, name),
            |name: Seq<char>| self.entries@[choose|i: int| self.holds(i, name)].1,
        )
    }
}

impl<V> NameMap<V> {
    /// Whether the entry at index `i` is stored under `name`.
    spec fn holds(&self, i: int, name: Seq<char>) -> bool {
        0 <= i < self.entries@.len() && self.entries@[i].0@ == name
    }

    /// No name occurs twice.
    #[verifier::type_invariant]
    spec fn distinct(&self) -> bool {
        forall|i: int, j: int|
            0 <= i < j < self.entries@.len() ==> self.entries@[i].0@ != self.entries@[j].0@
    }

    /// The empty map.
    pub fn new() -> (m: Self)
        ensures
            m@ == Map::<Seq<char>, V>::empty(),
    {
        let m = NameMap { entries: Vec::new() };
        assert(m@ =~= Map::<Seq<char>, V>::empty());
        m
    }

    /// The names of the entries, in the order in which they are kept.
    spec fn names(&self) -> Seq<Seq<char>> {
        self.entries@.map_values(|entry: (String, V)| entry.0@)
    }

    /// The number of entries.
    pub fn len(&self) -> (n: usize)
        ensures
            self@.dom().finite(),
            n == self@.dom().len(),
    {
        proof {
            use_type_invariant(self);
            let names = self.names();
            assert(names.no_duplicates());
            names.unique_seq_to_set();
            assert forall|k: Seq<char>| self@.dom().contains(k) == names.to_set().contains(k) by {
                if self@.dom().contains(k) {
                    let i = choose|i: int| self.holds(i, k);
                    assert(names[i] == k);
                }
                if names.to_set().contains(k) {
                    let i = choose|i: int| 0 <= i < names.len() && names[i] == k;
                    assert(self.holds(i, k));
                }
            }
            assert(self@.dom() =~= names.to_set());
        }
        self.entries.len()
    }

    /// Whether the map holds no entry.
    pub fn is_empty(&self) -> (empty: bool)
        ensures
            empty == (self@ == Map::<Seq<char>, V>::empty()),
    {
        proof {
            if self.entries@.len() > 0 {
                assert(self.holds(0, self.entries@[0].0@));
                assert(self@.contains_key(self.entries@[0].0@));
            } else {
                assert(self@ =~= Map::<Seq<char>, V>::empty());
            }
        }
        self.entries.len() == 0
    }

    /// A map with the same names, each with a clone of its entry.
    pub fn duplicate(&self) -> (m: Self) where V: Clone
        ensures
            m@.dom() == self@.dom(),
            forall|name: Seq<char>| #[trigger]
                self@.contains_key(name) ==> cloned(self@[name], m@[name]),
    {
        proof {
            use_type_invariant(self);
        }
        let mut entries: Vec<(String, V)> = Vec::new();
        let mut i: usize = 0;
        while i < self.entries.len()
            invariant
                i <= self.entries@.len(),
                entries@.len() == i,
                forall|j: int|
                    0 <= j < i ==> entries@[j].0@ == self.entries@[j].0@ && cloned(
                        self.entries@[j].1,
                        entries@[j].1,
                    ),
            decreases self.entries@.len() - i,
        {
            let name = self.entries[i].0.clone();
            let value = self.entries[i].1.clone();
            entries.push((name, value));
            i += 1;
        }
        let m = NameMap { entries };
        proof {
            assert forall|k: Seq<char>| m@.contains_key(k) == self@.contains_key(k) by {
                if m@.contains_key(k) {
                    let j = choose|j: int| m.holds(j, k);
                    assert(self.holds(j, k));
                }
                if self@.contains_key(k) {
                    let j = choose|j: int| self.holds(j, k);
                    assert(m.holds(j, k));
                }
            }
            assert(m@.dom() =~= self@.dom());
            assert forall|name: Seq<char>| #[trigger] self@.contains_key(name) implies cloned(
                self@[name],
                m@[name],
            ) by {
                let j = choose|j: int| self.holds(j, name);
                assert(m.holds(j, name));
                let k = choose|k: int| m.holds(k, name);
                assert(self.holds(k, name));
            }
        }
        m
    }

    /// The index of the entry stored under `name`, if there is one.
    fn find(&self, name: &String) -> (r: Option<usize>)
        ensures
            r matches Some(i) ==> self.holds(i as int, name@),
            r is None ==> forall|j: int| !self.holds(j, name@),
    {
        let mut i: usize = 0;
        while i < self.entries.len()
            invariant
                i <= self.entries@.len(),
                forall|j: int| 0 <= j < i ==> !self.holds(j, name@),
            decreases self.entries@.len() - i,
        {
            if self.entries[i].0 == *name {
                return Some(i);
            }
            i += 1;
        }
        None
    }

    /// Whether an entry is stored under `name`.
    pub fn contains_key(&self, name: &String) -> (found: bool)
        ensures
            found == self@.contains_key(name@),
    {
        self.find(name).is_some()
    }

    /// The entry stored under `name`.
    pub fn get(&self, name: &String) -> (r: Option<&V>)
        ensures
            r is Some <==> self@.contains_key(name@),
            r matches Some(v) ==> *v == self@[name@],
    {
        proof {
            use_type_invariant(self);
        }
        match self.find(name) {
            Some(i) => {
                assert(self.holds(choose|j: int| self.holds(j, name@), name@));
                Some(&self.entries[i].1)
            },
            None => None,
        }
    }

    /// Stores `value` under `name`, in place of what was stored there.
    pub fn insert(&mut self, name: String, value: V)
        ensures
            final(self)@ == old(self)@.insert(name@, value),
    {
        proof {
            use_type_invariant(&*self);
        }
        let ghost before = *self;
        let ghost key = name@;
        let found = self.find(&name);
        let mut entries: Vec<(String, V)> = Vec::new();
        core::mem::swap(&mut self.entries, &mut entries);
        match found {
            Some(i) => {
                entries.set(i, (name, value));
                self.entries = entries;
                proof {
                    assert forall|k: Seq<char>| #[trigger]
                        self@.contains_key(k) == before@.insert(key, value).contains_key(k) by {
                        if before@.insert(key, value).contains_key(k) {
                            let j = if k == key {
                                i as int
                            } else {
                                choose|j: int| before.holds(j, k)
                            };
                            assert(self.holds(j, k));
                        }
                        if self@.contains_key(k) {
                            let j = choose|j: int| self.holds(j, k);
                            assert(before.holds(j, k));
                        }
                    }
                    assert forall|k: Seq<char>| #[trigger]
                        self@.contains_key(k) implies self@[k] == before@.insert(key, value)[k] by {
                        let j = choose|j: int| self.holds(j, k);
                        assert(before.holds(j, k));
                        if k != key {
                            let j0 = choose|j: int| before.holds(j, k);
                            assert(j0 == j);
                        }
                    }
                }
            },
            None => {
                entries.push((name, value));
                proof {
                    assert forall|a: int, b: int| 0 <= a < b < entries@.len() implies entries@[a].0@
                        != entries@[b].0@ by {
                        if b == entries@.len() - 1 {
                            assert(!before.holds(a, key));
                        }
                    }
                }
                self.entries = entries;
                proof {
                    let n = before.entries@.len() as int;
                    assert(self.holds(n, key));
                    assert forall|k: Seq<char>| #[trigger]
                        self@.contains_key(k) == before@.insert(key, value).contains_key(k) by {
                        if before@.insert(key, value).contains_key(k) {
                            let j = if k == key {
                                n
                            } else {
                                choose|j: int| before.holds(j, k)
                            };
                            assert(self.holds(j, k));
                        }
                        if self@.contains_key(k) {
                            let j = choose|j: int| self.holds(j, k);
                            if j < n {
                                assert(before.holds(j, k));
                            }
                        }
                    }
                    assert forall|k: Seq<char>| #[trigger]
                        self@.contains_key(k) implies self@[k] == before@.insert(key, value)[k] by {
                        let j = choose|j: int| self.holds(j, k);
                        if k != key {
                            assert(before.holds(j, k));
                            let j0 = choose|j: int| before.holds(j, k);
                            assert(j0 == j);
                        } else {
                            assert(!before.holds(j, k));
                        }
                    }
                }
            },
        }
        assert(self@ =~= before@.insert(key, value));
    }
}

impl<V: Clone> Clone for NameMap<V> {
    fn clone(&self) -> (m: Self) {
        self.duplicate()
    }
}

} // verus!
