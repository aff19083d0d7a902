//! The keydir: the in-memory index from each live key to the generation and
//! byte offset of its newest `Set` record.

use vstd::prelude::*;

verus! {

/// One keydir entry: key, generation, offset.
pub struct KeydirEntry {
    pub key: String,
    pub generation: u64,
    pub offset: u64,
}

/// The in-memory index. A key is present exactly when it is live.
pub struct Keydir {
    entries: Vec<KeydirEntry>,
}

impl Keydir {
    /// The association list `entries`, read back to front, as a map.
    pub open spec fn map_of(entries: Seq<KeydirEntry>) -> Map<Seq<char>, (u64, u64)>
        decreases entries.len(),
    {
        if entries.len() == 0 {
            Map::empty()
        } else {
            Self::map_of(entries.drop_last()).insert(
                entries.last().key@,
                (entries.last().generation, entries.last().offset),
            )
        }
    }

    /// The index as a map from key to (generation, offset).
    pub closed spec fn view(&self) -> Map<Seq<char>, (u64, u64)> {
        Self::map_of(self.entries@)
    }

    /// No key occurs twice in the list.
    pub closed spec fn wf(&self) -> bool {
        forall|i: int, j: int|
            0 <= i < j < self.entries@.len() ==> self.entries@[i].key@ != self.entries@[j].key@
    }

    /// A key is in the map exactly when some list entry carries it.
    proof fn lemma_map_of_contains(entries: Seq<KeydirEntry>, k: Seq<char>)
        ensures
            Self::map_of(entries).dom().contains(k) <==> exists|i: int|
                0 <= i < entries.len() && entries[i].key@ == k,
        decreases entries.len(),
    {
        if entries.len() > 0 {
            Self::lemma_map_of_contains(entries.drop_last(), k);
            if entries.last().key@ == k {
                assert(entries[entries.len() - 1].key@ == k);
            } else {
                if Self::map_of(entries).dom().contains(k) {
                    let i = choose|i: int|
                        0 <= i < entries.drop_last().len() && entries.drop_last()[i].key@ == k;
                    assert(entries[i].key@ == k);
                }
                if exists|i: int| 0 <= i < entries.len() && entries[i].key@ == k {
                    let i = choose|i: int| 0 <= i < entries.len() && entries[i].key@ == k;
                    assert(entries.drop_last()[i].key@ == k);
                }
            }
        }
    }

    /// With no duplicate keys, the entry at `i` gives the map's value at its
    /// key.
    proof fn lemma_map_of_get(entries: Seq<KeydirEntry>, i: int)
        requires
            0 <= i < entries.len(),
            forall|p: int, q: int|
                0 <= p < q < entries.len() ==> entries[p].key@ != entries[q].key@,
        ensures
            Self::map_of(entries).dom().contains(entries[i].key@),
            Self::map_of(entries)[entries[i].key@] == (entries[i].generation, entries[i].offset),
        decreases entries.len(),
    {
        if i == entries.len() - 1 {
        } else {
            Self::lemma_map_of_get(entries.drop_last(), i);
        }
    }

    /// Updating the entry at `i` in place updates the map at its key.
    proof fn lemma_map_of_update(entries: Seq<KeydirEntry>, i: int, e: KeydirEntry)
        requires
            0 <= i < entries.len(),
            entries[i].key@ == e.key@,
            forall|p: int, q: int|
                0 <= p < q < entries.len() ==> entries[p].key@ != entries[q].key@,
        ensures
            Self::map_of(entries.update(i, e)) == Self::map_of(entries).insert(
                e.key@,
                (e.generation, e.offset),
            ),
        decreases entries.len(),
    {
        let updated = entries.update(i, e);
        if i == entries.len() - 1 {
            assert(updated.drop_last() =~= entries.drop_last());
            assert(Self::map_of(updated) =~= Self::map_of(entries).insert(
                e.key@,
                (e.generation, e.offset),
            ));
        } else {
            Self::lemma_map_of_update(entries.drop_last(), i, e);
            assert(updated.drop_last() =~= entries.drop_last().update(i, e));
            Self::lemma_map_of_contains(entries.drop_last(), entries.last().key@);
            assert(Self::map_of(updated) =~= Self::map_of(entries).insert(
                e.key@,
                (e.generation, e.offset),
            ));
        }
    }

    /// Removing the entry at `i` removes its key from the map.
    proof fn lemma_map_of_remove(entries: Seq<KeydirEntry>, i: int)
        requires
            0 <= i < entries.len(),
            forall|p: int, q: int|
                0 <= p < q < entries.len() ==> entries[p].key@ != entries[q].key@,
        ensures
            Self::map_of(entries.remove(i)) == Self::map_of(entries).remove(entries[i].key@),
        decreases entries.len(),
    {
        let removed = entries.remove(i);
        if i == entries.len() - 1 {
            assert(removed =~= entries.drop_last());
            Self::lemma_map_of_contains(entries.drop_last(), entries.last().key@);
            assert(Self::map_of(removed) =~= Self::map_of(entries).remove(entries[i].key@));
        } else {
            Self::lemma_map_of_remove(entries.drop_last(), i);
            assert(removed.drop_last() =~= entries.drop_last().remove(i));
            assert(removed.last() == entries.last());
            Self::lemma_map_of_contains(entries.drop_last(), entries.last().key@);
            assert(Self::map_of(removed) =~= Self::map_of(entries).remove(entries[i].key@));
        }
    }

    /// Creates an empty index.
    pub fn new() -> (r: Self)
        ensures
            r.wf(),
            r@ == Map::<Seq<char>, (u64, u64)>::empty(),
    {
        Self { entries: Vec::new() }
    }

    /// Looks for the position of `key` in the list.
    fn find(&self, key: &String) -> (r: Option<usize>)
        requires
            self.wf(),
        ensures
            match r {
                Some(i) => i < self.entries@.len() && self.entries@[i as int].key@ == key@,
                None => forall|i: int|
                    0 <= i < self.entries@.len() ==> self.entries@[i].key@ != key@,
            },
    {
        let mut i: usize = 0;
        while i < self.entries.len()
            invariant
                self.wf(),
                i <= self.entries@.len(),
                forall|j: int| 0 <= j < i ==> self.entries@[j].key@ != key@,
            decreases self.entries@.len() - i,
        {
            if self.entries[i].key.eq(key) {
                return Some(i);
            }
            i = i + 1;
        }
        None
    }

    /// Whether `key` is live.
    pub fn contains_key(&self, key: &String) -> (r: bool)
        requires
            self.wf(),
        ensures
            r == self@.dom().contains(key@),
    {
        proof {
            Self::lemma_map_of_contains(self.entries@, key@);
        }
        match self.find(key) {
            Some(_) => true,
            None => false,
        }
    }

    /// The (generation, offset) of the newest `Set` record for `key`.
    pub fn get(&self, key: &String) -> (r: Option<(u64, u64)>)
        requires
            self.wf(),
        ensures
            match r {
                Some(p) => self@.dom().contains(key@) && self@[key@] == p,
                None => !self@.dom().contains(key@),
            },
    {
        proof {
            Self::lemma_map_of_contains(self.entries@, key@);
        }
        match self.find(key) {
            Some(i) => {
                proof {
                    Self::lemma_map_of_get(self.entries@, i as int);
                }
                let e = &self.entries[i];
                Some((e.generation, e.offset))
            },
            None => None,
        }
    }

    /// Points `key` at (generation, offset), overwriting any older entry.
    pub fn insert(&mut self, key: String, generation: u64, offset: u64)
        requires
            old(self).wf(),
        ensures
            final(self).wf(),
            final(self)@ == old(self)@.insert(key@, (generation, offset)),
    {
        let ghost entries0 = self.entries@;
        match self.find(&key) {
            Some(i) => {
                let e = KeydirEntry { key, generation, offset };
                proof {
                    Self::lemma_map_of_update(entries0, i as int, e);
                }
                self.entries[i] = e;
            },
            None => {
                self.entries.push(KeydirEntry { key, generation, offset });
                proof {
                    assert(self.entries@.drop_last() =~= entries0);
                }
            },
        }
    }

    /// Erases `key`. Does nothing when it is absent.
    pub fn remove(&mut self, key: &String)
        requires
            old(self).wf(),
        ensures
            final(self).wf(),
            final(self)@ == old(self)@.remove(key@),
    {
        let ghost entries0 = self.entries@;
        match self.find(key) {
            Some(i) => {
                proof {
                    Self::lemma_map_of_remove(entries0, i as int);
                }
                self.entries.remove(i);
            },
            None => {
                proof {
                    Self::lemma_map_of_contains(entries0, key@);
                    assert(self@ =~= self@.remove(key@));
                }
            },
        }
    }

    /// A clone of every live key, in list order: distinct, and together
    /// exactly the domain of the index.
    pub fn keys(&self) -> (r: Vec<String>)
        requires
            self.wf(),
        ensures
            forall|i: int, j: int| 0 <= i < j < r@.len() ==> r@[i]@ != r@[j]@,
            forall|i: int| 0 <= i < r@.len() ==> self@.dom().contains(r@[i]@),
            forall|k: Seq<char>|
                self@.dom().contains(k) ==> exists|i: int| 0 <= i < r@.len() && r@[i]@ == k,
    {
        let mut r: Vec<String> = Vec::new();
        let mut i: usize = 0;
        while i < self.entries.len()
            invariant
                self.wf(),
                i <= self.entries@.len(),
                r@.len() == i,
                forall|j: int| 0 <= j < i ==> r@[j]@ == self.entries@[j].key@,
            decreases self.entries@.len() - i,
        {
            r.push(self.entries[i].key.clone());
            i = i + 1;
        }
        proof {
            assert forall|k: Seq<char>| self@.dom().contains(k) implies exists|i: int|
                0 <= i < r@.len() && r@[i]@ == k by {
                Self::lemma_map_of_contains(self.entries@, k);
                let i = choose|i: int|
                    0 <= i < self.entries@.len() && self.entries@[i].key@ == k;
                assert(r@[i]@ == k);
            };
            assert forall|i: int| 0 <= i < r@.len() implies self@.dom().contains(r@[i]@) by {
                Self::lemma_map_of_contains(self.entries@, r@[i]@);
            };
        }
        r
    }
}

} // verus!
