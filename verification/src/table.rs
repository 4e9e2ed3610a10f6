//! A small keyed table: an ordered list of entries in which no key occurs
//! twice. The store, the refs, the staging area and the working directory
//! are all tables of this kind.

use crate::path::Path;
use vstd::prelude::*;

verus! {

/// A type that can serve as a key: two keys are the same when their views
/// are.
pub trait Key: View + Sized {
    fn same_key(&self, other: &Self) -> (same: bool)
        ensures
            same == (self@ == other@),
    ;

    fn copy_key(&self) -> (copy: Self)
        ensures
            copy@ == self@,
    ;
}

impl Key for String {
    fn same_key(&self, other: &String) -> (same: bool) {
        *self == *other
    }

    fn copy_key(&self) -> (copy: String) {
        self.clone()
    }
}

impl Key for Path {
    fn same_key(&self, other: &Path) -> (same: bool) {
        self.same_as(other)
    }

    fn copy_key(&self) -> (copy: Path) {
        self.clone()
    }
}

/// One entry of a table.
pub struct Entry<K, V> {
    pub key: K,
    pub value: V,
}

/// An ordered table without repeated keys.
pub struct Table<K, V> {
    pub entries: Vec<Entry<K, V>>,
}

impl<K: Key, V: View> Table<K, V> {
    /// The keys, in the order of the entries.
    pub open spec fn keys(&self) -> Seq<K::V> {
        Seq::new(self.entries@.len(), |i: int| self.entries@[i].key@)
    }

    /// The values, in the order of the entries.
    pub open spec fn values(&self) -> Seq<V::V> {
        Seq::new(self.entries@.len(), |i: int| self.entries@[i].value@)
    }

    /// No key occurs twice.
    pub open spec fn wf(&self) -> bool {
        self.keys().no_duplicates()
    }

    /// The table as a map from keys to values.
    pub open spec fn map(&self) -> Map<K::V, V::V> {
        Map::new(
            |k: K::V| self.keys().contains(k),
            |k: K::V| self.values()[self.keys().index_of(k)],
        )
    }

    /// An entry's key is in the map, bound to the entry's value.
    pub proof fn lemma_entry(&self, i: int)
        requires
            self.wf(),
            0 <= i < self.entries@.len(),
        ensures
            self.map().contains_key(self.keys()[i]),
            self.map()[self.keys()[i]] == self.values()[i],
            self.keys().index_of(self.keys()[i]) == i,
    {
        let k = self.keys()[i];
        assert(self.keys().contains(k));
        self.keys().index_of_first_ensures(k);
        let j = self.keys().index_of(k);
        assert(self.keys()[j] == k);
    }

    /// Every key of the map belongs to some entry.
    pub proof fn lemma_key_index(&self, k: K::V) -> (i: int)
        requires
            self.wf(),
            self.map().contains_key(k),
        ensures
            0 <= i < self.entries@.len(),
            self.keys()[i] == k,
            self.values()[i] == self.map()[k],
    {
        let i = self.keys().index_of(k);
        assert(self.keys().contains(k));
        i
    }

    /// An empty table.
    pub fn new() -> (table: Self)
        ensures
            table.wf(),
            table.map() == Map::<K::V, V::V>::empty(),
            table.keys() == Seq::<K::V>::empty(),
    {
        let table = Table { entries: Vec::new() };
        assert(table.keys() =~= Seq::<K::V>::empty());
        assert(table.map() =~= Map::<K::V, V::V>::empty());
        table
    }

    /// The number of entries.
    pub fn len(&self) -> (n: usize)
        ensures
            n == self.keys().len(),
    {
        self.entries.len()
    }

    /// The position of the entry with this key.
    pub fn position(&self, key: &K) -> (at: Option<usize>)
        ensures
            match at {
                Some(i) => i < self.entries@.len() && self.keys()[i as int] == key@,
                None => !self.keys().contains(key@),
            },
    {
        let mut i: usize = 0;
        while i < self.entries.len()
            invariant
                0 <= i <= self.entries@.len(),
                forall|k: int| 0 <= k < i ==> self.keys()[k] != key@,
            decreases self.entries@.len() - i,
        {
            if self.entries[i].key.same_key(key) {
                return Some(i);
            }
            i += 1;
        }
        None
    }

    /// Whether the table has an entry with this key.
    pub fn contains(&self, key: &K) -> (yes: bool)
        ensures
            yes == self.map().contains_key(key@),
    {
        self.position(key).is_some()
    }

    /// The value bound to the key.
    pub fn get(&self, key: &K) -> (found: Option<&V>)
        requires
            self.wf(),
        ensures
            match found {
                Some(v) => self.map().contains_key(key@) && self.map()[key@] == v@,
                None => !self.map().contains_key(key@),
            },
    {
        match self.position(key) {
            Some(i) => {
                proof {
                    self.lemma_entry(i as int);
                }
                Some(&self.entries[i].value)
            },
            None => None,
        }
    }

    /// Binds the key to the value. A key that is present keeps its place; a
    /// new one goes last.
    pub fn insert(&mut self, key: K, value: V)
        requires
            old(self).wf(),
        ensures
            final(self).wf(),
            final(self).map() == old(self).map().insert(key@, value@),
            old(self).map().contains_key(key@) ==> final(self).keys() == old(self).keys(),
            !old(self).map().contains_key(key@) ==> final(self).keys() == old(self).keys().push(
                key@,
            ),
    {
        let ghost before = *self;
        let ghost k = key@;
        let ghost v = value@;
        match self.position(&key) {
            Some(i) => {
                self.entries[i] = Entry { key, value };
                assert(self.keys() =~= before.keys());
                assert(self.values() =~= before.values().update(i as int, v));
                proof {
                    before.lemma_entry(i as int);
                    assert forall|q: K::V| self.map().contains_key(q) implies #[trigger] self.map()[q]
                        == before.map().insert(k, v)[q] by {
                        let j = self.keys().index_of(q);
                        if q == k {
                            self.lemma_entry(i as int);
                        } else {
                        }
                    }
                }
                assert(self.map() =~= before.map().insert(k, v));
            },
            None => {
                self.entries.push(Entry { key, value });
                assert(self.keys() =~= before.keys().push(k));
                assert(self.values() =~= before.values().push(v));
                proof {
                    let n = before.entries@.len() as int;
                    assert forall|a: int, b: int|
                        0 <= a < self.keys().len() && 0 <= b < self.keys().len() && a
                            != b implies self.keys()[a] != self.keys()[b] by {
                        if a < n && b < n {
                        } else if a < n {
                            assert(before.keys().contains(before.keys()[a]));
                        } else {
                            assert(before.keys().contains(before.keys()[b]));
                        }
                    }
                    self.lemma_entry(n);
                    assert forall|q: K::V| self.map().contains_key(q) implies #[trigger] self.map()[q]
                        == before.map().insert(k, v)[q] by {
                        if q != k {
                            let j = before.lemma_key_index(q);
                            self.lemma_entry(j);
                        }
                    }
                    assert forall|q: K::V| before.map().insert(k, v).contains_key(q) implies self.map().contains_key(q) by {
                        if q != k {
                            let j = before.lemma_key_index(q);
                            assert(self.keys()[j] == q);
                        } else {
                            assert(self.keys()[n] == q);
                        }
                    }
                }
                assert(self.map() =~= before.map().insert(k, v));
            },
        }
    }

    /// Takes the key out. A key that is absent changes nothing.
    pub fn remove(&mut self, key: &K)
        requires
            old(self).wf(),
        ensures
            final(self).wf(),
            final(self).map() == old(self).map().remove(key@),
            !old(self).map().contains_key(key@) ==> final(self).keys() == old(self).keys(),
            old(self).map().contains_key(key@) ==> final(self).keys() == old(self).keys().remove(
                old(self).keys().index_of(key@),
            ),
    {
        let ghost before = *self;
        let ghost k = key@;
        match self.position(key) {
            Some(i) => {
                self.entries.remove(i);
                proof {
                    before.lemma_entry(i as int);
                    assert(self.keys() =~= before.keys().remove(i as int));
                    assert(self.values() =~= before.values().remove(i as int));
                    assert forall|a: int, b: int|
                        0 <= a < self.keys().len() && 0 <= b < self.keys().len() && a
                            != b implies self.keys()[a] != self.keys()[b] by {
                        let a0 = if a < i { a } else { a + 1 };
                        let b0 = if b < i { b } else { b + 1 };
                        assert(self.keys()[a] == before.keys()[a0]);
                        assert(self.keys()[b] == before.keys()[b0]);
                    }
                    assert forall|q: K::V| self.map().contains_key(q) implies before.map().remove(
                        k,
                    ).contains_key(q) && #[trigger] self.map()[q] == before.map().remove(k)[q] by {
                        let j = self.lemma_key_index(q);
                        let j0 = if j < i { j } else { j + 1 };
                        assert(before.keys()[j0] == q);
                        before.lemma_entry(j0);
                    }
                    assert forall|q: K::V| before.map().remove(k).contains_key(q) implies self.map().contains_key(q) by {
                        let j0 = before.lemma_key_index(q);
                        let j = if j0 < i { j0 } else { j0 - 1 };
                        assert(self.keys()[j] == q);
                    }
                }
                assert(self.map() =~= before.map().remove(k));
            },
            None => {
                assert(self.map() =~= before.map().remove(k));
            },
        }
    }
}

} // verus!
