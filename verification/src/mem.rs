//! A purely in-memory key-value store, the simplest shape of the engine
//! interface.

use vstd::prelude::*;

verus! {

/// An in-memory map from string keys to string values.
pub struct KvStore {
    data: Vec<(String, String)>,
}

impl KvStore {
    /// The map this store holds.
    pub closed spec fn view(&self) -> Map<Seq<char>, Seq<char>> {
        Self::map_of(self.data@)
    }

    /// The association list `entries`, read back to front, as a map.
    pub open spec fn map_of(entries: Seq<(String, String)>) -> Map<Seq<char>, Seq<char>>
        decreases entries.len(),
    {
        if entries.len() == 0 {
            Map::empty()
        } else {
            Self::map_of(entries.drop_last()).insert(entries.last().0@, entries.last().1@)
        }
    }

    /// No key occurs twice.
    pub closed spec fn wf(&self) -> bool {
        forall|i: int, j: int|
            0 <= i < j < self.data@.len() ==> self.data@[i].0@ != self.data@[j].0@
    }

    /// A key is in the map exactly when some list entry carries it.
    proof fn lemma_map_of_contains(entries: Seq<(String, String)>, k: Seq<char>)
        ensures
            Self::map_of(entries).dom().contains(k) <==> exists|i: int|
                0 <= i < entries.len() && entries[i].0@ == k,
        decreases entries.len(),
    {
        if entries.len() > 0 {
            Self::lemma_map_of_contains(entries.drop_last(), k);
            if entries.last().0@ == k {
                assert(entries[entries.len() - 1].0@ == k);
            } else {
                if Self::map_of(entries).dom().contains(k) {
                    let i = choose|i: int|
                        0 <= i < entries.drop_last().len() && entries.drop_last()[i].0@ == k;
                    assert(entries[i].0@ == k);
                }
                if exists|i: int| 0 <= i < entries.len() && entries[i].0@ == k {
                    let i = choose|i: int| 0 <= i < entries.len() && entries[i].0@ == k;
                    assert(entries.drop_last()[i].0@ == k);
                }
            }
        }
    }

    /// With no duplicate keys, the entry at `i` gives the map's value at its
    /// key.
    proof fn lemma_map_of_get(entries: Seq<(String, String)>, i: int)
        requires
            0 <= i < entries.len(),
            forall|p: int, q: int|
                0 <= p < q < entries.len() ==> entries[p].0@ != entries[q].0@,
        ensures
            Self::map_of(entries).dom().contains(entries[i].0@),
            Self::map_of(entries)[entries[i].0@] == entries[i].1@,
        decreases entries.len(),
    {
        if i == entries.len() - 1 {
        } else {
            Self::lemma_map_of_get(entries.drop_last(), i);
        }
    }

    /// Updating the entry at `i` in place updates the map at its key.
    proof fn lemma_map_of_update(entries: Seq<(String, String)>, i: int, e: (String, String))
        requires
            0 <= i < entries.len(),
            entries[i].0@ == e.0@,
            forall|p: int, q: int|
                0 <= p < q < entries.len() ==> entries[p].0@ != entries[q].0@,
        ensures
            Self::map_of(entries.update(i, e)) == Self::map_of(entries).insert(e.0@, e.1@),
        decreases entries.len(),
    {
        let updated = entries.update(i, e);
        if i == entries.len() - 1 {
            assert(updated.drop_last() =~= entries.drop_last());
            assert(Self::map_of(updated) =~= Self::map_of(entries).insert(e.0@, e.1@));
        } else {
            Self::lemma_map_of_update(entries.drop_last(), i, e);
            assert(updated.drop_last() =~= entries.drop_last().update(i, e));
            Self::lemma_map_of_contains(entries.drop_last(), entries.last().0@);
            assert(Self::map_of(updated) =~= Self::map_of(entries).insert(e.0@, e.1@));
        }
    }

    /// Removing the entry at `i` removes its key from the map.
    proof fn lemma_map_of_remove(entries: Seq<(String, String)>, i: int)
        requires
            0 <= i < entries.len(),
            forall|p: int, q: int|
                0 <= p < q < entries.len() ==> entries[p].0@ != entries[q].0@,
        ensures
            Self::map_of(entries.remove(i)) == Self::map_of(entries).remove(entries[i].0@),
        decreases entries.len(),
    {
        let removed = entries.remove(i);
        if i == entries.len() - 1 {
            assert(removed =~= entries.drop_last());
            Self::lemma_map_of_contains(entries.drop_last(), entries.last().0@);
            assert(Self::map_of(removed) =~= Self::map_of(entries).remove(entries[i].0@));
        } else {
            Self::lemma_map_of_remove(entries.drop_last(), i);
            assert(removed.drop_last() =~= entries.drop_last().remove(i));
            assert(removed.last() == entries.last());
            Self::lemma_map_of_contains(entries.drop_last(), entries.last().0@);
            assert(Self::map_of(removed) =~= Self::map_of(entries).remove(entries[i].0@));
        }
    }

    /// Creates an empty store.
    pub fn new() -> (r: Self)
        ensures
            r.wf(),
            r@ == Map::<Seq<char>, Seq<char>>::empty(),
    {
        Self { data: Vec::new() }
    }

    /// Looks for the position of `key` in the list.
    fn find(&self, key: &String) -> (r: Option<usize>)
        requires
            self.wf(),
        ensures
            match r {
                Some(i) => i < self.data@.len() && self.data@[i as int].0@ == key@,
                None => forall|i: int| 0 <= i < self.data@.len() ==> self.data@[i].0@ != key@,
            },
    {
        let mut i: usize = 0;
        while i < self.data.len()
            invariant
                self.wf(),
                i <= self.data@.len(),
                forall|j: int| 0 <= j < i ==> self.data@[j].0@ != key@,
            decreases self.data@.len() - i,
        {
            if self.data[i].0.eq(key) {
                return Some(i);
            }
            i = i + 1;
        }
        None
    }

    /// Sets the corresponding `key` to `value`.
    pub fn set(&mut self, key: String, value: String)
        requires
            old(self).wf(),
        ensures
            final(self).wf(),
            final(self)@ == old(self)@.insert(key@, value@),
    {
        let ghost entries0 = self.data@;
        match self.find(&key) {
            Some(i) => {
                let e = (key, value);
                proof {
                    Self::lemma_map_of_update(entries0, i as int, e);
                }
                self.data[i] = e;
            },
            None => {
                self.data.push((key, value));
                proof {
                    assert(self.data@.drop_last() =~= entries0);
                }
            },
        }
    }

    /// The value of `key`, or `None` when the store does not hold it.
    pub fn get(&self, key: String) -> (r: Option<String>)
        requires
            self.wf(),
        ensures
            match r {
                Some(v) => self@.dom().contains(key@) && v@ == self@[key@],
                None => !self@.dom().contains(key@),
            },
    {
        proof {
            Self::lemma_map_of_contains(self.data@, key@);
        }
        match self.find(&key) {
            Some(i) => {
                proof {
                    Self::lemma_map_of_get(self.data@, i as int);
                }
                Some(self.data[i].1.clone())
            },
            None => None,
        }
    }

    /// Removes the pair with `key`, which must be held.
    pub fn remove(&mut self, key: String)
        requires
            old(self).wf(),
            old(self)@.dom().contains(key@),
        ensures
            final(self).wf(),
            final(self)@ == old(self)@.remove(key@),
    {
        let ghost entries0 = self.data@;
        proof {
            Self::lemma_map_of_contains(entries0, key@);
        }
        match self.find(&key) {
            Some(i) => {
                proof {
                    Self::lemma_map_of_remove(entries0, i as int);
                }
                self.data.remove(i);
            },
            None => {
                proof {
                    assert(false);
                }
            },
        }
    }
}

} // verus!
