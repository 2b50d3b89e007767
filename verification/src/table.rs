//! `NameTable`: a map from names to values that keeps its entries ordered
//! by name, so that walking it visits the names in `String` order.

use vstd::prelude::*;

use crate::names::{compare_names, lemma_name_lt_irreflexive, lemma_name_lt_transitive, name_lt, NameOrder};

verus! {

/// Each name precedes every later one: sorted, and no name twice.
pub open spec fn names_increasing(names: Seq<Seq<char>>) -> bool {
    forall|i: int, j: int| 0 <= i < j < names.len() ==> name_lt(#[trigger] names[i], #[trigger] names[j])
}

/// A map from names to values, kept ordered by name.
///
/// It plays the part of a `BTreeMap<String, V>`: vstd specifies `BTreeMap`
/// only for keys proved to follow its model of `Ord`, which nothing
/// establishes for `String`, so the order is kept and proved here.
#[derive(Debug, PartialEq)]
pub struct NameTable<V> {
    entries: Vec<(String, V)>,
}

impl<V: Clone> Clone for NameTable<V> {
    /// A copy with the same names, each value a clone of the value copied.
    fn clone(&self) -> (r: Self)
        ensures
            r.names() == self.names(),
            r.values().len() == self.values().len(),
            forall|i: int| 0 <= i < self.values().len() ==> cloned::<V>(self.values()[i], #[trigger] r.values()[i]),
    {
        let mut entries: Vec<(String, V)> = Vec::new();
        let mut i: usize = 0;
        while i < self.entries.len()
            invariant
                i <= self.entries@.len(),
                entries@.len() == i,
                forall|j: int| 0 <= j < i ==> (#[trigger] entries@[j]).0 == self.entries@[j].0,
                forall|j: int| 0 <= j < i ==> cloned::<V>(self.entries@[j].1, (#[trigger] entries@[j]).1),
            decreases self.entries@.len() - i,
        {
            let e = &self.entries[i];
            entries.push((e.0.clone(), e.1.clone()));
            i = i + 1;
        }
        let r = NameTable { entries };
        assert(r.names() =~= self.names());
        r
    }
}

impl<V> NameTable<V> {
    /// The names, in the order the table keeps them.
    pub closed spec fn names(&self) -> Seq<Seq<char>> {
        self.entries@.map_values(|e: (String, V)| e.0@)
    }

    /// The values, in the order of `names`.
    pub closed spec fn values(&self) -> Seq<V> {
        self.entries@.map_values(|e: (String, V)| e.1)
    }

    /// The tables that operations accept: names strictly increasing.
    pub open spec fn wf(&self) -> bool {
        names_increasing(self.names())
    }

    /// Where `name` stands among the names (meaningful when it occurs).
    pub open spec fn position(&self, name: Seq<char>) -> int {
        choose|i: int| 0 <= i < self.names().len() && self.names()[i] == name
    }

    /// The number of entries.
    pub open spec fn spec_len(&self) -> nat {
        self.names().len()
    }

    /// The value stored under `name`, if any.
    pub open spec fn lookup(&self, name: Seq<char>) -> Option<V> {
        if self.names().contains(name) {
            Some(self.values()[self.position(name)])
        } else {
            None
        }
    }

    /// Names and values have the same length.
    pub proof fn lemma_lengths(&self)
        ensures
            self.values().len() == self.names().len(),
    {
    }

    /// In a well-formed table the entry at `i` is what `lookup` gives for its name.
    pub proof fn lemma_entry(&self, i: int)
        requires
            self.wf(),
            0 <= i < self.spec_len(),
        ensures
            self.names().contains(self.names()[i]),
            self.position(self.names()[i]) == i,
            self.lookup(self.names()[i]) == Some(self.values()[i]),
    {
        let n = self.names();
        assert(n.contains(n[i]));
        let j = self.position(n[i]);
        if j < i {
            assert(name_lt(n[j], n[i]));
            lemma_name_lt_irreflexive(n[i]);
        } else if j > i {
            assert(name_lt(n[i], n[j]));
            lemma_name_lt_irreflexive(n[i]);
        }
    }

    /// In a well-formed table no name occurs twice.
    pub proof fn lemma_names_distinct(&self)
        requires
            self.wf(),
        ensures
            self.names().no_duplicates(),
    {
        assert forall|i: int, j: int| 0 <= i < self.names().len() && 0 <= j < self.names().len() && i != j
            implies self.names()[i] != self.names()[j] by {
            lemma_name_lt_irreflexive(self.names()[i]);
            if i < j {
                assert(name_lt(self.names()[i], self.names()[j]));
            } else {
                assert(name_lt(self.names()[j], self.names()[i]));
            }
        }
    }

    /// An empty table.
    pub fn new() -> (t: Self)
        ensures
            t.wf(),
            t.names() == Seq::<Seq<char>>::empty(),
            forall|k: Seq<char>| #[trigger] t.lookup(k) is None,
    {
        let t = NameTable { entries: Vec::new() };
        assert(t.names() =~= Seq::<Seq<char>>::empty());
        t
    }

    /// Whether the names are strictly increasing, that is, whether the
    /// table is well formed.
    pub fn is_ordered(&self) -> (b: bool)
        ensures
            b == self.wf(),
    {
        let n = self.entries.len();
        if n == 0 {
            return true;
        }
        let ghost names = self.names();
        let mut i: usize = 1;
        while i < n
            invariant
                names == self.names(),
                n == names.len(),
                1 <= i <= n,
                forall|a: int, b: int| 0 <= a < b < i ==> name_lt(#[trigger] names[a], #[trigger] names[b]),
            decreases n - i,
        {
            let prev = &self.entries[i - 1].0;
            let cur = &self.entries[i].0;
            assert(prev@ == names[i - 1] && cur@ == names[i as int]);
            match compare_names(prev.as_str(), cur.as_str()) {
                NameOrder::Less => {
                    assert forall|a: int, b: int| 0 <= a < b < i + 1 implies name_lt(#[trigger] names[a], #[trigger] names[b]) by {
                        if b == i && a < i - 1 {
                            lemma_name_lt_transitive(names[a], names[i - 1], names[b]);
                        }
                    }
                },
                _ => {
                    assert(!name_lt(names[i - 1], names[i as int]));
                    return false;
                },
            }
            i = i + 1;
        }
        true
    }

    /// The number of entries.
    pub fn len(&self) -> (n: usize)
        ensures
            n == self.spec_len(),
    {
        self.entries.len()
    }

    /// True if the table has no entries.
    pub fn is_empty(&self) -> (b: bool)
        ensures
            b == (self.spec_len() == 0),
    {
        self.entries.len() == 0
    }

    /// The entry at position `i` in name order.
    pub fn entry(&self, i: usize) -> (r: (&String, &V))
        requires
            i < self.spec_len(),
        ensures
            r.0@ == self.names()[i as int],
            *r.1 == self.values()[i as int],
    {
        let e = &self.entries[i];
        (&e.0, &e.1)
    }

    /// Binary search: `Ok(i)` where `name` stands, else `Err(p)` where it would go.
    fn find(&self, name: &str) -> (r: Result<usize, usize>)
        requires
            self.wf(),
        ensures
            match r {
                Ok(i) => i < self.spec_len() && self.names()[i as int] == name@,
                Err(p) => {
                    &&& p <= self.spec_len()
                    &&& forall|j: int| 0 <= j < p ==> name_lt(#[trigger] self.names()[j], name@)
                    &&& forall|j: int| p <= j < self.spec_len() ==> name_lt(name@, #[trigger] self.names()[j])
                },
            },
    {
        let ghost n = self.names();
        let mut lo: usize = 0;
        let mut hi: usize = self.entries.len();
        while lo < hi
            invariant
                n == self.names(),
                self.wf(),
                lo <= hi <= n.len(),
                n.len() == self.entries@.len(),
                forall|j: int| 0 <= j < lo ==> name_lt(#[trigger] n[j], name@),
                forall|j: int| hi <= j < n.len() ==> name_lt(name@, #[trigger] n[j]),
            decreases hi - lo,
        {
            let mid = lo + (hi - lo) / 2;
            let key = &self.entries[mid].0;
            assert(key@ == n[mid as int]);
            match compare_names(key.as_str(), name) {
                NameOrder::Equal => {
                    return Ok(mid);
                },
                NameOrder::Less => {
                    assert forall|j: int| 0 <= j < mid + 1 implies name_lt(#[trigger] n[j], name@) by {
                        if j < mid {
                            lemma_name_lt_transitive(n[j], n[mid as int], name@);
                        }
                    }
                    lo = mid + 1;
                },
                NameOrder::Greater => {
                    assert forall|j: int| mid <= j < n.len() implies name_lt(name@, #[trigger] n[j]) by {
                        if j > mid {
                            lemma_name_lt_transitive(name@, n[mid as int], n[j]);
                        }
                    }
                    hi = mid;
                },
            }
        }
        Err(lo)
    }

    /// The value stored under `name`.
    pub fn get(&self, name: &str) -> (r: Option<&V>)
        requires
            self.wf(),
        ensures
            match r {
                Some(v) => self.lookup(name@) == Some(*v),
                None => self.lookup(name@) is None,
            },
    {
        match self.find(name) {
            Ok(i) => {
                proof {
                    self.lemma_entry(i as int);
                }
                Some(&self.entries[i].1)
            },
            Err(p) => {
                proof {
                    if self.names().contains(name@) {
                        let j = choose|j: int| 0 <= j < self.names().len() && self.names()[j] == name@;
                        lemma_name_lt_irreflexive(name@);
                        if j < p {
                            assert(name_lt(self.names()[j], name@));
                        } else {
                            assert(name_lt(name@, self.names()[j]));
                        }
                    }
                }
                None
            },
        }
    }

    /// True if the table has an entry named `name`.
    pub fn contains_key(&self, name: &str) -> (b: bool)
        requires
            self.wf(),
        ensures
            b == self.names().contains(name@),
    {
        match self.get(name) {
            Some(_) => true,
            None => false,
        }
    }

    /// Stores `value` under `name`, replacing what was there.
    pub fn insert(&mut self, name: String, value: V)
        requires
            old(self).wf(),
        ensures
            final(self).wf(),
            final(self).lookup(name@) == Some(value),
            forall|k: Seq<char>| k != name@ ==> #[trigger] final(self).lookup(k) == old(self).lookup(k),
            final(self).names().to_set() == old(self).names().to_set().insert(name@),
            final(self).spec_len() == if old(self).names().contains(name@) {
                old(self).spec_len()
            } else {
                old(self).spec_len() + 1
            },
    {
        let ghost n0 = self.names();
        let ghost v0 = self.values();
        let ghost key = name@;
        match self.find(name.as_str()) {
            Ok(i) => {
                self.entries.set(i, (name, value));
                proof {
                    assert(self.names() =~= n0);
                    assert(self.values() =~= v0.update(i as int, value));
                    self.lemma_entry(i as int);
                    assert forall|k: Seq<char>| k != key implies #[trigger] self.lookup(k) == old(self).lookup(k) by {
                        if n0.contains(k) {
                            let j = choose|j: int| 0 <= j < n0.len() && n0[j] == k;
                            self.lemma_entry(j);
                            old(self).lemma_entry(j);
                        }
                    }
                    assert(self.names().to_set() =~= n0.to_set().insert(key));
                }
            },
            Err(p) => {
                proof {
                    if n0.contains(key) {
                        let j = choose|j: int| 0 <= j < n0.len() && n0[j] == key;
                        lemma_name_lt_irreflexive(key);
                        if j < p {
                            assert(name_lt(n0[j], key));
                        } else {
                            assert(name_lt(key, n0[j]));
                        }
                    }
                }
                self.entries.insert(p, (name, value));
                proof {
                    let n1 = self.names();
                    assert(n1 =~= n0.insert(p as int, key));
                    assert(self.values() =~= v0.insert(p as int, value));
                    assert forall|i: int, j: int| 0 <= i < j < n1.len() implies name_lt(#[trigger] n1[i], #[trigger] n1[j]) by {
                        if j < p {
                        } else if i > p {
                            assert(n1[i] == n0[i - 1] && n1[j] == n0[j - 1]);
                        } else if i == p {
                            assert(n1[j] == n0[j - 1]);
                        } else if j == p {
                        } else {
                            assert(n1[j] == n0[j - 1]);
                        }
                    }
                    self.lemma_entry(p as int);
                    assert forall|k: Seq<char>| k != key implies #[trigger] self.lookup(k) == old(self).lookup(k) by {
                        if n0.contains(k) {
                            let j = choose|j: int| 0 <= j < n0.len() && n0[j] == k;
                            old(self).lemma_entry(j);
                            if j < p {
                                self.lemma_entry(j);
                            } else {
                                assert(n1[j + 1] == k);
                                self.lemma_entry(j + 1);
                            }
                        } else if n1.contains(k) {
                            let j = choose|j: int| 0 <= j < n1.len() && n1[j] == k;
                            if j < p {
                                assert(n0[j] == k);
                            } else if j > p {
                                assert(n0[j - 1] == k);
                            }
                        }
                    }
                    assert(n1.to_set() =~= n0.to_set().insert(key)) by {
                        assert forall|k: Seq<char>| n1.to_set().contains(k) implies n0.to_set().insert(key).contains(k) by {
                            let j = choose|j: int| 0 <= j < n1.len() && n1[j] == k;
                            if j < p {
                                assert(n0[j] == k);
                            } else if j > p {
                                assert(n0[j - 1] == k);
                            }
                        }
                        assert forall|k: Seq<char>| n0.to_set().insert(key).contains(k) implies n1.to_set().contains(k) by {
                            if k == key {
                                assert(n1[p as int] == k);
                            } else {
                                let j = choose|j: int| 0 <= j < n0.len() && n0[j] == k;
                                if j < p {
                                    assert(n1[j] == k);
                                } else {
                                    assert(n1[j + 1] == k);
                                }
                            }
                        }
                    }
                }
            },
        }
    }
}

} // verus!
