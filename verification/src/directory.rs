//! The key directory: for each live key, the place of its current value.

use vstd::prelude::*;

verus! {

broadcast use vstd::slice::group_slice_axioms;

/// Where the value of a key stands: the segment, the offset of the value in
/// the data log of that segment, its length, and the time it was written.
#[derive(Clone, Copy, Debug, PartialEq, Eq, Structural)]
pub struct Entry {
    pub timestamp: u32,
    pub value_size: u32,
    pub value_pos: u64,
    pub file_id: u32,
}

/// Whether two runs of bytes are the same.
pub fn bytes_equal(a: &[u8], b: &[u8]) -> (same: bool)
    ensures
        same == (a@ == b@),
{
    if a.len() != b.len() {
        return false;
    }
    let mut i: usize = 0;
    while i < a.len()
        invariant
            i <= a@.len(),
            a@.len() == b@.len(),
            forall|j: int| 0 <= j < i ==> a@[j] == b@[j],
        decreases a@.len() - i,
    {
        if a[i] != b[i] {
            return false;
        }
        i = i + 1;
    }
    assert(a@ =~= b@);
    true
}

/// A key and its entry.
struct Slot {
    key: Vec<u8>,
    entry: Entry,
}

/// A map from keys to entries in which no key stands twice.
pub struct Directory {
    slots: Vec<Slot>,
}

impl View for Directory {
    type V = Map<Seq<u8>, Entry>;

    closed spec fn view(&self) -> Map<Seq<u8>, Entry> {
        Map::new(
            |k: Seq<u8>| self.keys().contains(k),
            |k: Seq<u8>| self.slots@[self.keys().index_of(k)].entry,
        )
    }
}

impl Directory {
    /// The keys, position by position.
    spec fn keys(&self) -> Seq<Seq<u8>> {
        Seq::new(self.slots@.len(), |i: int| self.slots@[i].key@)
    }

    /// No key stands twice.
    pub closed spec fn wf(&self) -> bool {
        self.keys().no_duplicates()
    }

    /// The key at a position is a key of the directory, with the entry at
    /// that position.
    proof fn lemma_view_at(&self, i: int)
        requires
            self.wf(),
            0 <= i < self.slots@.len(),
        ensures
            self@.contains_key(self.slots@[i].key@),
            self@[self.slots@[i].key@] == self.slots@[i].entry,
    {
        let k = self.slots@[i].key@;
        assert(self.keys()[i] == k);
        let j = self.keys().index_of(k);
        assert(self.keys()[j] == k);
    }

    /// A directory is finite, and holds as many keys as it has entries.
    pub proof fn lemma_finite(&self)
        requires
            self.wf(),
        ensures
            self@.dom().finite(),
            self@.dom().len() == self.size(),
    {
        self.keys().unique_seq_to_set();
        assert(self@.dom() =~= self.keys().to_set());
    }

    /// The key that stands at position `i`, for `i` below `size()`. Every key
    /// of the directory stands at one position.
    pub closed spec fn key_at(&self, i: int) -> Seq<u8> {
        self.slots@[i].key@
    }

    /// The entry of the key that stands at position `i`.
    pub closed spec fn entry_at(&self, i: int) -> Entry {
        self.slots@[i].entry
    }

    /// The positions hold the keys of the directory, each once, with their
    /// entries.
    pub proof fn lemma_positions(&self)
        requires
            self.wf(),
        ensures
            forall|i: int|
                0 <= i < self.size() ==> self@.contains_key(#[trigger] self.key_at(i))
                    && self@[self.key_at(i)] == self.entry_at(i),
            forall|i: int, j: int|
                0 <= i < j < self.size() ==> self.key_at(i) != self.key_at(j),
            forall|k: Seq<u8>| #[trigger]
                self@.contains_key(k) ==> exists|i: int|
                    0 <= i < self.size() && self.key_at(i) == k,
    {
        assert forall|i: int| 0 <= i < self.size() implies self@.contains_key(
            #[trigger] self.key_at(i),
        ) && self@[self.key_at(i)] == self.entry_at(i) by {
            self.lemma_view_at(i);
        }
        assert forall|i: int, j: int| 0 <= i < j < self.size() implies self.key_at(i)
            != self.key_at(j) by {
            assert(self.keys()[i] == self.key_at(i));
            assert(self.keys()[j] == self.key_at(j));
        }
        assert forall|k: Seq<u8>| #[trigger] self@.contains_key(k) implies exists|i: int|
            0 <= i < self.size() && self.key_at(i) == k by {
            let i = self.keys().index_of(k);
            assert(self.keys()[i] == k);
            assert(self.key_at(i) == k);
        }
    }

    /// Number of keys.
    pub closed spec fn size(&self) -> nat {
        self.slots@.len()
    }

    /// The empty directory.
    pub fn new() -> (d: Directory)
        ensures
            d.wf(),
            d@ == Map::<Seq<u8>, Entry>::empty(),
    {
        let d = Directory { slots: Vec::new() };
        assert(d@ =~= Map::<Seq<u8>, Entry>::empty());
        d
    }

    /// Number of keys.
    pub fn len(&self) -> (n: usize)
        requires
            self.wf(),
        ensures
            n == self.size(),
            n == self@.dom().len(),
    {
        proof {
            self.lemma_finite();
        }
        self.slots.len()
    }

    /// The key that stands at position `i`.
    pub fn key(&self, i: usize) -> (key: &Vec<u8>)
        requires
            i < self.size(),
        ensures
            key@ == self.key_at(i as int),
    {
        &self.slots[i].key
    }

    /// The entry of the key that stands at position `i`.
    pub fn entry(&self, i: usize) -> (entry: Entry)
        requires
            i < self.size(),
        ensures
            entry == self.entry_at(i as int),
    {
        self.slots[i].entry
    }

    /// The position of `key`, if the directory holds it.
    fn find(&self, key: &[u8]) -> (at: Option<usize>)
        ensures
            match at {
                Some(i) => i < self.slots@.len() && self.slots@[i as int].key@ == key@,
                None => !self.keys().contains(key@),
            },
    {
        let mut i: usize = 0;
        while i < self.slots.len()
            invariant
                i <= self.slots@.len(),
                forall|j: int| 0 <= j < i ==> self.slots@[j].key@ != key@,
            decreases self.slots@.len() - i,
        {
            if bytes_equal(self.slots[i].key.as_slice(), key) {
                return Some(i);
            }
            i = i + 1;
        }
        None
    }

    /// The entry of `key`, if the directory holds one.
    pub fn get(&self, key: &[u8]) -> (found: Option<Entry>)
        requires
            self.wf(),
        ensures
            found == if self@.contains_key(key@) {
                Some(self@[key@])
            } else {
                None
            },
    {
        match self.find(key) {
            Some(i) => {
                proof {
                    self.lemma_view_at(i as int);
                }
                Some(self.slots[i].entry)
            },
            None => None,
        }
    }

    /// Sets the entry of `key`, in place of the one it had.
    pub fn insert(&mut self, key: Vec<u8>, entry: Entry)
        requires
            old(self).wf(),
        ensures
            final(self).wf(),
            final(self)@ == old(self)@.insert(key@, entry),
    {
        let ghost before = *self;
        match self.find(key.as_slice()) {
            Some(i) => {
                self.slots.set(i, Slot { key, entry });
                proof {
                    assert(self.keys() =~= before.keys());
                    assert(before.keys()[i as int] == key@);
                    assert forall|k: Seq<u8>| #[trigger]
                        self@.contains_key(k) implies self@[k] == before@.insert(key@, entry)[k] by {
                        let j = self.keys().index_of(k);
                        assert(self.keys()[j] == k);
                        self.lemma_view_at(j);
                        before.lemma_view_at(j);
                        if j == i as int {
                            assert(k == key@);
                        } else {
                            assert(k != key@);
                            assert(self.slots@[j] == before.slots@[j]);
                        }
                    }
                    assert(self@ =~= before@.insert(key@, entry));
                }
            },
            None => {
                self.slots.push(Slot { key, entry });
                proof {
                    assert(self.keys() =~= before.keys().push(key@));
                    assert(self.wf()) by {
                        assert forall|a: int, b: int|
                            0 <= a < self.keys().len() && 0 <= b < self.keys().len() && a
                                != b implies self.keys()[a] != self.keys()[b] by {
                            if a < before.keys().len() {
                                assert(before.keys()[a] == self.keys()[a]);
                            }
                            if b < before.keys().len() {
                                assert(before.keys()[b] == self.keys()[b]);
                            }
                        }
                    }
                    assert forall|k: Seq<u8>| #[trigger]
                        self@.contains_key(k) implies before@.insert(key@, entry).contains_key(k)
                        && self@[k] == before@.insert(key@, entry)[k] by {
                        let j = self.keys().index_of(k);
                        assert(self.keys()[j] == k);
                        self.lemma_view_at(j);
                        if j < before.keys().len() {
                            assert(before.keys()[j] == k);
                            before.lemma_view_at(j);
                        }
                    }
                    assert forall|k: Seq<u8>| #[trigger]
                        before@.insert(key@, entry).contains_key(k) implies self@.contains_key(
                        k,
                    ) by {
                        if k == key@ {
                            assert(self.keys()[before.keys().len() as int] == k);
                        } else {
                            let j = before.keys().index_of(k);
                            assert(before.keys()[j] == k);
                            assert(self.keys()[j] == k);
                        }
                    }
                    assert(self@ =~= before@.insert(key@, entry));
                }
            },
        }
    }

    /// Takes `key` out of the directory, and says whether it was there.
    pub fn remove(&mut self, key: &[u8]) -> (was_there: bool)
        requires
            old(self).wf(),
        ensures
            final(self).wf(),
            final(self)@ == old(self)@.remove(key@),
            was_there == old(self)@.contains_key(key@),
    {
        let ghost before = *self;
        match self.find(key) {
            Some(i) => {
                let _ = self.slots.remove(i);
                proof {
                    assert(self.keys() =~= before.keys().remove(i as int));
                    assert(before.keys()[i as int] == key@);
                    assert(self.wf()) by {
                        assert forall|a: int, b: int|
                            0 <= a < self.keys().len() && 0 <= b < self.keys().len() && a
                                != b implies self.keys()[a] != self.keys()[b] by {
                            let a0 = if a < i { a } else { a + 1 };
                            let b0 = if b < i { b } else { b + 1 };
                            assert(before.keys()[a0] == self.keys()[a]);
                            assert(before.keys()[b0] == self.keys()[b]);
                        }
                    }
                    assert forall|k: Seq<u8>| #[trigger]
                        self@.contains_key(k) implies before@.remove(key@).contains_key(k)
                        && self@[k] == before@.remove(key@)[k] by {
                        let j = self.keys().index_of(k);
                        assert(self.keys()[j] == k);
                        self.lemma_view_at(j);
                        let j0 = if j < i { j } else { j + 1 };
                        assert(before.keys()[j0] == k);
                        before.lemma_view_at(j0);
                    }
                    assert forall|k: Seq<u8>| #[trigger]
                        before@.remove(key@).contains_key(k) implies self@.contains_key(k) by {
                        let j0 = before.keys().index_of(k);
                        assert(before.keys()[j0] == k);
                        let j = if j0 < i { j0 } else { j0 - 1 };
                        assert(self.keys()[j] == k);
                    }
                    assert(self@ =~= before@.remove(key@));
                }
                true
            },
            None => {
                assert(self@ =~= before@.remove(key@));
                false
            },
        }
    }
}

} // verus!
