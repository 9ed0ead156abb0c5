//! A cache of binaries bounded in the number of entries, which evicts the
//! entry with the lowest `access² / size`.

use crate::program::session::cache::{
    bumped, distinct_names, lemma_position, position, slots, str_eq, touch, touched, victim, weight,
    worth_more, CacheEntry, Slot,
};
use vstd::prelude::*;

verus! {

/// A cache that holds up to a number of entries.
pub struct LruCache {
    entries: Vec<CacheEntry>,
    capacity: usize,
}

impl View for LruCache {
    type V = Seq<Slot>;

    closed spec fn view(&self) -> Seq<Slot> {
        slots(self.entries@)
    }
}

/// The entries after `data` was put under `name` into a cache of `capacity`
/// entries. An entry of that name gets the data and one more use. Otherwise
/// the entry worth least makes room if the cache is full, and a new entry
/// with its counter at 1 comes last.
pub open spec fn after_put(entries: Seq<Slot>, capacity: nat, name: Seq<char>, data: Seq<u8>) -> Seq<
    Slot,
> {
    let index = position(entries, name);
    if index >= 0 {
        entries.update(index, Slot { data, access: bumped(entries[index].access), ..entries[index] })
    } else {
        let kept = if entries.len() >= capacity && entries.len() > 0 {
            entries.remove(victim(entries, entries.len()))
        } else {
            entries
        };
        kept.push(Slot { name, data, access: 1 })
    }
}

impl LruCache {
    /// Whether the cache is in order: no name twice.
    pub closed spec fn wf(&self) -> bool {
        distinct_names(self@)
    }

    /// The number of entries at which a new one evicts another.
    pub closed spec fn spec_capacity(&self) -> nat {
        self.capacity as nat
    }

    /// An empty cache for `capacity` entries.
    pub fn new(capacity: usize) -> (cache: Self)
        ensures
            cache.wf(),
            cache@ == Seq::<Slot>::empty(),
            cache.spec_capacity() == capacity,
    {
        let cache = LruCache { entries: Vec::new(), capacity };
        assert(cache@ =~= Seq::<Slot>::empty());
        cache
    }

    /// The position of the entry named `key`.
    fn find(&self, key: &str) -> (index: Option<usize>)
        ensures
            match index {
                Some(i) => i == position(self@, key@) && i < self.entries@.len(),
                None => position(self@, key@) < 0,
            },
    {
        let mut i: usize = 0;
        while i < self.entries.len()
            invariant
                i <= self.entries.len(),
                forall|k: int| 0 <= k < i ==> (#[trigger] self@[k]).name != key@,
            decreases self.entries.len() - i,
        {
            if str_eq(self.entries[i].name.as_str(), key) {
                proof {
                    assert(self@[i as int].name == key@);
                    lemma_position(self@, key@);
                    let p = position(self@, key@);
                    if p < i {
                        assert(self@[p].name == key@);
                    }
                }
                return Some(i);
            }
            i += 1;
        }
        proof {
            lemma_position(self@, key@);
            let p = position(self@, key@);
            if p >= 0 {
                assert(self@[p].name == key@);
            }
        }
        None
    }

    /// The position of the entry that is evicted first.
    fn find_removal_candidate(&self) -> (index: Option<usize>)
        ensures
            match index {
                Some(i) => i == victim(self@, self@.len()) && i < self@.len(),
                None => self@.len() == 0,
            },
    {
        if self.entries.len() == 0 {
            return None;
        }
        let mut best: usize = 0;
        let mut i: usize = 1;
        while i < self.entries.len()
            invariant
                1 <= i <= self.entries.len(),
                best < i,
                best == victim(self@, i as nat),
            decreases self.entries.len() - i,
        {
            let current = &self.entries[best];
            let next = &self.entries[i];
            let more = weight(current.access, next.data.len()) > weight(
                next.access,
                current.data.len(),
            );
            assert(more == worth_more(self@[best as int], self@[i as int]));
            if more {
                best = i;
            }
            i += 1;
        }
        Some(best)
    }

    /// The bytes of the entry named `key`, if there is one; the read is
    /// counted.
    pub fn get(&mut self, key: &str) -> (bytes: Option<&[u8]>)
        requires
            old(self).wf(),
        ensures
            final(self).wf(),
            final(self).spec_capacity() == old(self).spec_capacity(),
            ({
                let index = position(old(self)@, key@);
                if index < 0 {
                    bytes is None && final(self)@ == old(self)@
                } else {
                    &&& bytes is Some
                    &&& bytes->0@ == old(self)@[index].data
                    &&& final(self)@ == touched(old(self)@, index)
                }
            }),
    {
        let index = match self.find(key) {
            Some(index) => index,
            None => {
                return None;
            },
        };
        let ghost before = self@;
        touch(&mut self.entries[index]);
        proof {
            let slot = self@[index as int];
            assert(self@ =~= before.update(index as int, slot));
            assert forall|i: int, j: int|
                0 <= i < self@.len() && 0 <= j < self@.len() && i != j implies (#[trigger] self@[i]).name
                != (#[trigger] self@[j]).name by {
                assert(self@[i].name == before[i].name);
                assert(self@[j].name == before[j].name);
            }
        }
        Some(self.entries[index].data.as_slice())
    }

    /// Puts `data` under `key`.
    pub fn put(&mut self, key: String, data: Vec<u8>)
        requires
            old(self).wf(),
        ensures
            final(self).wf(),
            final(self).spec_capacity() == old(self).spec_capacity(),
            final(self)@ == after_put(old(self)@, old(self).spec_capacity(), key@, data@),
    {
        let ghost before = self@;
        proof {
            lemma_position(before, key@);
        }
        match self.find(key.as_str()) {
            Some(index) => {
                let access = self.entries[index].access;
                let access = if access < u32::MAX {
                    access + 1
                } else {
                    access
                };
                self.entries.set(index, CacheEntry { name: key, data, access });
                proof {
                    assert(self@ =~= after_put(before, self.capacity as nat, key@, data@));
                    assert forall|i: int, j: int|
                        0 <= i < self@.len() && 0 <= j < self@.len() && i != j implies (#[trigger] self@[i]).name
                        != (#[trigger] self@[j]).name by {
                        assert(self@[i].name == before[i].name);
                        assert(self@[j].name == before[j].name);
                    }
                }
            },
            None => {
                if self.entries.len() >= self.capacity {
                    match self.find_removal_candidate() {
                        Some(index) => {
                            self.entries.remove(index);
                            assert(self@ =~= before.remove(index as int));
                        },
                        None => {},
                    }
                }
                let ghost kept = self@;
                proof {
                    assert forall|i: int| 0 <= i < kept.len() implies (#[trigger] kept[i]).name
                        != key@ && exists|k: int| 0 <= k < before.len() && before[k] == kept[i] by {
                        if kept.len() == before.len() {
                            assert(kept[i] == before[i]);
                        } else {
                            let v = victim(before, before.len());
                            if i < v {
                                assert(kept[i] == before[i]);
                            } else {
                                assert(kept[i] == before[i + 1]);
                            }
                        }
                    }
                    assert forall|i: int, j: int|
                        0 <= i < kept.len() && 0 <= j < kept.len() && i != j implies (#[trigger] kept[i]).name
                        != (#[trigger] kept[j]).name by {
                        if kept.len() == before.len() {
                            assert(kept[i] == before[i] && kept[j] == before[j]);
                        } else {
                            let v = victim(before, before.len());
                            let a = if i < v { i } else { i + 1 };
                            let b = if j < v { j } else { j + 1 };
                            assert(kept[i] == before[a] && kept[j] == before[b]);
                        }
                    }
                }
                let entry = CacheEntry { name: key, data, access: 1 };
                self.entries.push(entry);
                proof {
                    assert(self@ =~= kept.push(entry@));
                    assert forall|i: int, j: int|
                        0 <= i < self@.len() && 0 <= j < self@.len() && i != j implies (#[trigger] self@[i]).name
                        != (#[trigger] self@[j]).name by {
                        if i < kept.len() {
                            assert(self@[i] == kept[i]);
                        }
                        if j < kept.len() {
                            assert(self@[j] == kept[j]);
                        }
                    }
                }
            },
        }
    }

    /// Removes the entry named `key`, if there is one.
    pub fn remove(&mut self, key: &str)
        requires
            old(self).wf(),
        ensures
            final(self).wf(),
            final(self).spec_capacity() == old(self).spec_capacity(),
            final(self)@ == crate::program::session::cache::without(old(self)@, key@),
    {
        let ghost before = self@;
        match self.find(key) {
            Some(index) => {
                self.entries.remove(index);
                proof {
                    assert(self@ =~= before.remove(index as int));
                    assert forall|i: int, j: int|
                        0 <= i < self@.len() && 0 <= j < self@.len() && i != j implies (#[trigger] self@[i]).name
                        != (#[trigger] self@[j]).name by {
                        let a = if i < index { i } else { i + 1 };
                        let b = if j < index { j } else { j + 1 };
                        assert(self@[i] == before[a] && self@[j] == before[b]);
                    }
                }
            },
            None => {},
        }
    }
}

} // verus!
