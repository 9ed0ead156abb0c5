//! The worker's module cache: a store of module binaries bounded in bytes,
//! which evicts the slot with the lowest `access² / size`.

use crate::program::Error;
use vstd::prelude::*;

verus! {

/// One cached module: its bytes, allocated in full when the slot is made,
/// and a usage counter that grows with every read and write and stops at
/// `u32::MAX`.
pub struct CacheEntry {
    pub name: String,
    pub data: Vec<u8>,
    pub access: u32,
}

/// Model of a [`CacheEntry`].
pub struct Slot {
    pub name: Seq<char>,
    pub data: Seq<u8>,
    pub access: nat,
}

impl View for CacheEntry {
    type V = Slot;

    open spec fn view(&self) -> Slot {
        Slot { name: self.name@, data: self.data@, access: self.access as nat }
    }
}

/// The slots that hold a list of entries.
pub open spec fn slots(entries: Seq<CacheEntry>) -> Seq<Slot> {
    entries.map_values(|e: CacheEntry| e@)
}

/// The bytes that the slots take together.
pub open spec fn total_size(slots: Seq<Slot>) -> nat
    decreases slots.len(),
{
    if slots.len() == 0 {
        0
    } else {
        total_size(slots.drop_last()) + slots.last().data.len()
    }
}

/// The position of the slot named `name`, or -1 where there is none.
pub open spec fn position(slots: Seq<Slot>, name: Seq<char>) -> int
    decreases slots.len(),
{
    if slots.len() == 0 {
        -1
    } else if position(slots.drop_last(), name) >= 0 {
        position(slots.drop_last(), name)
    } else if slots.last().name == name {
        slots.len() - 1
    } else {
        -1
    }
}

/// Whether slot `a` is worth more than slot `b`: `a.access² / a.size` is
/// greater than `b.access² / b.size`, compared without division.
pub open spec fn worth_more(a: Slot, b: Slot) -> bool {
    a.access * a.access * b.data.len() > b.access * b.access * a.data.len()
}

/// The position of the slot that is evicted first among the first `upto`
/// slots: the one worth least, and among equals the earliest.
pub open spec fn victim(slots: Seq<Slot>, upto: nat) -> int
    decreases upto,
{
    if upto <= 1 {
        0
    } else {
        let earlier = victim(slots, (upto - 1) as nat);
        if worth_more(slots[earlier], slots[upto - 1]) {
            upto - 1
        } else {
            earlier
        }
    }
}

/// The slots left after evicting, worst first, until `size` more bytes fit
/// within `capacity` or nothing is left.
pub open spec fn evicted(slots: Seq<Slot>, capacity: nat, size: nat) -> Seq<Slot>
    decreases slots.len(),
{
    let worst = victim(slots, slots.len());
    if slots.len() == 0 || total_size(slots) + size <= capacity || !(0 <= worst < slots.len()) {
        slots
    } else {
        evicted(slots.remove(worst), capacity, size)
    }
}

/// The slots without the one named `name`.
pub open spec fn without(slots: Seq<Slot>, name: Seq<char>) -> Seq<Slot> {
    if position(slots, name) >= 0 {
        slots.remove(position(slots, name))
    } else {
        slots
    }
}

/// The slots kept when a slot of `size` bytes named `name` is to be made in
/// a cache of `capacity` bytes: a slot of that name is dropped, and then the
/// slots worth least, until the new one fits or nothing is left.
pub open spec fn kept_for(slots: Seq<Slot>, capacity: nat, name: Seq<char>, size: nat) -> Seq<Slot> {
    evicted(without(slots, name), capacity, size)
}

/// Whether a slot of `size` bytes named `name` can be made.
pub open spec fn fits(slots: Seq<Slot>, capacity: nat, name: Seq<char>, size: nat) -> bool {
    total_size(kept_for(slots, capacity, name, size)) + size <= capacity
}

/// The slots after a slot of `size` bytes named `name` was asked for: the
/// slots kept and, where it fits, the new slot, zero-filled and used once.
pub open spec fn with_slot(slots: Seq<Slot>, capacity: nat, name: Seq<char>, size: nat) -> Seq<Slot> {
    let kept = kept_for(slots, capacity, name, size);
    if fits(slots, capacity, name, size) {
        kept.push(Slot { name, data: Seq::new(size, |i: int| 0u8), access: 1 })
    } else {
        kept
    }
}

/// A counter after one more use.
pub open spec fn bumped(access: nat) -> nat {
    if access < u32::MAX {
        access + 1
    } else {
        access
    }
}

/// The slots after the one at `index` was used once more.
pub open spec fn touched(slots: Seq<Slot>, index: int) -> Seq<Slot> {
    slots.update(index, Slot { access: bumped(slots[index].access), ..slots[index] })
}

/// `data` with `bytes` written over it from `offset` on.
pub open spec fn overwritten(data: Seq<u8>, offset: int, bytes: Seq<u8>) -> Seq<u8> {
    Seq::new(
        data.len(),
        |i: int|
            if offset <= i < offset + bytes.len() {
                bytes[i - offset]
            } else {
                data[i]
            },
    )
}

/// A store of module binaries, bounded in bytes.
pub struct ModuleCache {
    entries: Vec<CacheEntry>,
    capacity: usize,
    allocated: usize,
}

impl View for ModuleCache {
    type V = Seq<Slot>;

    closed spec fn view(&self) -> Seq<Slot> {
        slots(self.entries@)
    }
}

/// No two slots have the same name.
pub open spec fn distinct_names(slots: Seq<Slot>) -> bool {
    forall|i: int, j: int|
        0 <= i < slots.len() && 0 <= j < slots.len() && i != j ==> (#[trigger] slots[i]).name
            != (#[trigger] slots[j]).name
}

/// Removing a slot takes its bytes off the total.
pub proof fn lemma_total_remove(slots: Seq<Slot>, index: int)
    requires
        0 <= index < slots.len(),
    ensures
        total_size(slots.remove(index)) + slots[index].data.len() == total_size(slots),
    decreases slots.len(),
{
    if index == slots.len() - 1 {
        assert(slots.remove(index) =~= slots.drop_last());
    } else {
        lemma_total_remove(slots.drop_last(), index);
        assert(slots.remove(index).drop_last() =~= slots.drop_last().remove(index));
        assert(slots.remove(index).last() == slots.last());
    }
}

/// Changing a slot without changing its length leaves the total.
pub proof fn lemma_total_update(slots: Seq<Slot>, index: int, slot: Slot)
    requires
        0 <= index < slots.len(),
        slot.data.len() == slots[index].data.len(),
    ensures
        total_size(slots.update(index, slot)) == total_size(slots),
    decreases slots.len(),
{
    if index == slots.len() - 1 {
        assert(slots.update(index, slot).drop_last() =~= slots.drop_last());
    } else {
        lemma_total_update(slots.drop_last(), index, slot);
        assert(slots.update(index, slot).drop_last() =~= slots.drop_last().update(index, slot));
    }
}

/// A position is that of a slot with the name, and -1 says there is none.
pub proof fn lemma_position(slots: Seq<Slot>, name: Seq<char>)
    ensures
        -1 <= position(slots, name) < slots.len(),
        position(slots, name) >= 0 ==> slots[position(slots, name)].name == name,
        position(slots, name) < 0 ==> forall|i: int|
            0 <= i < slots.len() ==> (#[trigger] slots[i]).name != name,
        forall|i: int|
            0 <= i < slots.len() && (#[trigger] slots[i]).name == name ==> position(slots, name)
                <= i,
    decreases slots.len(),
{
    if slots.len() > 0 {
        lemma_position(slots.drop_last(), name);
        assert forall|i: int| 0 <= i < slots.len() - 1 implies slots.drop_last()[i] == slots[i] by {}
        if position(slots.drop_last(), name) < 0 {
            assert forall|i: int| 0 <= i < slots.len() - 1 implies (#[trigger] slots[i]).name
                != name by {
                assert(slots.drop_last()[i].name != name);
            }
        }
    }
}

/// The victim is one of the slots.
pub proof fn lemma_victim_bounds(slots: Seq<Slot>, upto: nat)
    requires
        1 <= upto <= slots.len(),
    ensures
        0 <= victim(slots, upto) < upto,
    decreases upto,
{
    if upto > 1 {
        lemma_victim_bounds(slots, (upto - 1) as nat);
    }
}

/// Worth is transitive: a slot worth no more than a second, which is worth
/// no more than a third, is worth no more than the third.
pub proof fn lemma_worth_transitive(a: Slot, b: Slot, c: Slot)
    requires
        a.data.len() > 0,
        b.data.len() > 0,
        c.data.len() > 0,
        !worth_more(a, b),
        !worth_more(b, c),
    ensures
        !worth_more(a, c),
{
    let x = (a.access * a.access) as int;
    let y = (b.access * b.access) as int;
    let z = (c.access * c.access) as int;
    let p = a.data.len() as int;
    let q = b.data.len() as int;
    let r = c.data.len() as int;
    assert(x >= 0 && y >= 0 && z >= 0) by (nonlinear_arith)
        requires
            x == a.access * a.access,
            y == b.access * b.access,
            z == c.access * c.access,
    ;
    assert(x * q <= y * p);
    assert(y * r <= z * q);
    assert((x * q) * r <= (y * p) * r) by (nonlinear_arith)
        requires
            x * q <= y * p,
            r > 0,
    ;
    assert((y * r) * p <= (z * q) * p) by (nonlinear_arith)
        requires
            y * r <= z * q,
            p > 0,
    ;
    assert((x * q) * r == q * (x * r)) by (nonlinear_arith);
    assert((y * p) * r == (y * r) * p) by (nonlinear_arith);
    assert((z * q) * p == q * (z * p)) by (nonlinear_arith);
    assert(x * r <= z * p) by (nonlinear_arith)
        requires
            q * (x * r) <= q * (z * p),
            q > 0,
    ;
}

/// The slot that is evicted first is one with the lowest `access² / size`:
/// no slot is worth less.
pub proof fn lemma_victim_is_least(slots: Seq<Slot>, upto: nat, other: int)
    requires
        1 <= upto <= slots.len(),
        0 <= other < upto,
        forall|i: int| 0 <= i < slots.len() ==> (#[trigger] slots[i]).data.len() > 0,
    ensures
        0 <= victim(slots, upto) < upto,
        !worth_more(slots[victim(slots, upto)], slots[other]),
    decreases upto,
{
    lemma_victim_bounds(slots, upto);
    if upto > 1 {
        let earlier = victim(slots, (upto - 1) as nat);
        lemma_victim_bounds(slots, (upto - 1) as nat);
        let last = slots[upto - 1];
        if worth_more(slots[earlier], last) {
            if other < upto - 1 {
                lemma_victim_is_least(slots, (upto - 1) as nat, other);
                lemma_worth_transitive(last, slots[earlier], slots[other]);
            }
        } else {
            if other < upto - 1 {
                lemma_victim_is_least(slots, (upto - 1) as nat, other);
            }
        }
    }
}

/// Of two slots the one with the lower `access² / size` is evicted, and the
/// first where they are equal.
pub proof fn lemma_victim_of_two(a: Slot, b: Slot)
    ensures
        victim(seq![a, b], 2) == if a.access * a.access * b.data.len() > b.access * b.access
            * a.data.len() {
            1int
        } else {
            0int
        },
{
    reveal_with_fuel(victim, 3);
}

impl ModuleCache {
    /// Whether the cache is in order: no name twice, and the bytes
    /// allocated are those of the slots and within the capacity.
    pub closed spec fn wf(&self) -> bool {
        &&& distinct_names(self@)
        &&& self.allocated == total_size(self@)
        &&& self.allocated <= self.capacity
    }

    /// The most bytes that the slots may take together.
    pub closed spec fn spec_capacity(&self) -> nat {
        self.capacity as nat
    }

    /// The bytes of the slots never exceed the capacity.
    pub proof fn lemma_bounded(&self)
        requires
            self.wf(),
        ensures
            total_size(self@) <= self.spec_capacity(),
            distinct_names(self@),
    {
    }

    /// An empty cache that holds up to `capacity` bytes.
    pub fn new(capacity: usize) -> (cache: Self)
        ensures
            cache.wf(),
            cache@ == Seq::<Slot>::empty(),
            cache.spec_capacity() == capacity,
    {
        let cache = ModuleCache { entries: Vec::new(), capacity, allocated: 0 };
        assert(cache@ =~= Seq::<Slot>::empty());
        cache
    }

    /// The most bytes that the slots may take together.
    pub fn capacity(&self) -> (capacity: usize)
        ensures
            capacity == self.spec_capacity(),
    {
        self.capacity
    }

    /// The position of the slot named `key`.
    fn find(&self, key: &str) -> (index: Option<usize>)
        ensures
            match index {
                Some(i) => i == position(self@, key@) && i < self.entries@.len(),
                None => position(self@, key@) < 0,
            },
    {
        let mut i: usize = 0;
        proof {
            lemma_position(self@, key@);
        }
        while i < self.entries.len()
            invariant
                i <= self.entries.len(),
                forall|k: int| 0 <= k < i ==> (#[trigger] self@[k]).name != key@,
            decreases self.entries.len() - i,
        {
            if str_eq(self.entries[i].name.as_str(), key) {
                assert(self@[i as int].name == key@);
                proof {
                    lemma_position(self@, key@);
                    let p = position(self@, key@);
                    if p < i {
                        assert(self@[p].name == key@);
                    }
                }
                return Some(i);
            }
            i += 1;
        }
        proof {
            lemma_position(self@, key@);
            let p = position(self@, key@);
            if p >= 0 {
                assert(self@[p].name == key@);
            }
        }
        None
    }

    /// Whether a slot is named `key`.
    pub fn contains_key(&self, key: &str) -> (found: bool)
        ensures
            found == (position(self@, key@) >= 0),
    {
        self.find(key).is_some()
    }
}

/// `access² · size`, the two sides of a comparison of worth.
pub(crate) fn weight(access: u32, size: usize) -> (product: u128)
    ensures
        product == access * access * size,
{
    assert(access * access * size <= 0xffff_ffff * 0xffff_ffff * 0xffff_ffff_ffff_ffff) by (nonlinear_arith)
        requires
            0 <= access <= 0xffff_ffff,
            0 <= size <= 0xffff_ffff_ffff_ffff,
    ;
    assert(access * access <= 0xffff_ffff * 0xffff_ffff) by (nonlinear_arith)
        requires
            0 <= access <= 0xffff_ffff,
    ;
    (access as u128) * (access as u128) * (size as u128)
}

/// `size` zero bytes.
pub fn zeros(size: usize) -> (bytes: Vec<u8>)
    ensures
        bytes@ == Seq::new(size as nat, |i: int| 0u8),
{
    let mut bytes: Vec<u8> = Vec::new();
    let mut i: usize = 0;
    while i < size
        invariant
            i <= size,
            bytes@ == Seq::new(i as nat, |k: int| 0u8),
        decreases size - i,
    {
        bytes.push(0);
        assert(bytes@ =~= Seq::new((i + 1) as nat, |k: int| 0u8));
        i += 1;
    }
    bytes
}

/// Writes `bytes` into the entry from `offset` on and counts the use.
fn write_into(entry: &mut CacheEntry, offset: usize, bytes: &[u8])
    requires
        offset + bytes@.len() <= old(entry).data@.len(),
    ensures
        final(entry)@ == (Slot {
            data: overwritten(old(entry)@.data, offset as int, bytes@),
            access: bumped(old(entry)@.access),
            ..old(entry)@
        }),
{
    let total = entry.data.len();
    let mut k: usize = 0;
    while k < bytes.len()
        invariant
            k <= bytes.len(),
            total == entry.data@.len(),
            offset + bytes@.len() <= entry.data@.len(),
            entry.name == old(entry).name,
            entry.access == old(entry).access,
            entry.data@ == overwritten(old(entry).data@, offset as int, bytes@.take(k as int)),
        decreases bytes.len() - k,
    {
        entry.data.set(offset + k, bytes[k]);
        assert(entry.data@ =~= overwritten(
            old(entry).data@,
            offset as int,
            bytes@.take(k + 1),
        ));
        k += 1;
    }
    assert(bytes@.take(bytes.len() as int) =~= bytes@);
    if entry.access < u32::MAX {
        entry.access = entry.access + 1;
    }
}

/// Counts one use of the entry.
pub(crate) fn touch(entry: &mut CacheEntry)
    ensures
        final(entry)@ == (Slot { access: bumped(old(entry)@.access), ..old(entry)@ }),
{
    if entry.access < u32::MAX {
        entry.access = entry.access + 1;
    }
}

impl ModuleCache {
    /// The position of the slot that is evicted first.
    fn worst(&self) -> (index: usize)
        requires
            self.entries.len() > 0,
        ensures
            index == victim(self@, self@.len()),
            index < self.entries.len(),
    {
        let mut best: usize = 0;
        let mut i: usize = 1;
        while i < self.entries.len()
            invariant
                1 <= i <= self.entries.len(),
                best < i,
                best == victim(self@, i as nat),
            decreases self.entries.len() - i,
        {
            let current = &self.entries[best];
            let next = &self.entries[i];
            let more = weight(current.access, next.data.len()) > weight(
                next.access,
                current.data.len(),
            );
            assert(more == worth_more(self@[best as int], self@[i as int]));
            if more {
                best = i;
            }
            i += 1;
        }
        best
    }

    /// Takes the entry at `index` out of the cache.
    fn evict(&mut self, index: usize)
        requires
            old(self).wf(),
            index < old(self)@.len(),
        ensures
            final(self).wf(),
            final(self)@ == old(self)@.remove(index as int),
            final(self).spec_capacity() == old(self).spec_capacity(),
    {
        let ghost before = self@;
        proof {
            lemma_total_remove(before, index as int);
        }
        let entry = self.entries.remove(index);
        assert(self@ =~= before.remove(index as int));
        self.allocated = self.allocated - entry.data.len();
    }

    /// Removes the slot named `key`, if there is one, and frees its bytes.
    pub fn remove(&mut self, key: &str)
        requires
            old(self).wf(),
        ensures
            final(self).wf(),
            final(self)@ == without(old(self)@, key@),
            final(self).spec_capacity() == old(self).spec_capacity(),
    {
        match self.find(key) {
            Some(index) => {
                self.evict(index);
            },
            None => {},
        }
    }

    /// Makes a zero-filled slot of `size` bytes named `key`, with its counter
    /// at 1. A slot of that name is dropped first. Then the slot worth least
    /// is evicted, again and again, until the new one fits or nothing is
    /// left. Fails with `CacheFull` where it still does not fit.
    pub fn put(&mut self, key: &str, size: usize) -> (result: Result<usize, Error>)
        requires
            old(self).wf(),
        ensures
            final(self).wf(),
            final(self).spec_capacity() == old(self).spec_capacity(),
            final(self)@ == with_slot(old(self)@, old(self).spec_capacity(), key@, size as nat),
            result == if fits(old(self)@, old(self).spec_capacity(), key@, size as nat) {
                Ok::<usize, Error>(size)
            } else {
                Err::<usize, Error>(
                    Error::CacheFull(
                        total_size(
                            kept_for(old(self)@, old(self).spec_capacity(), key@, size as nat),
                        ) as usize,
                        old(self).spec_capacity() as usize,
                    ),
                )
            },
    {
        self.remove(key);
        let ghost start = self@;
        proof {
            lemma_position(old(self)@, key@);
            assert forall|i: int| 0 <= i < start.len() implies (#[trigger] start[i]).name != key@ by {
                let p = position(old(self)@, key@);
                if p >= 0 {
                    if i < p {
                        assert(start[i] == old(self)@[i]);
                    } else {
                        assert(start[i] == old(self)@[i + 1]);
                    }
                }
            }
        }
        while self.capacity - self.allocated < size && self.entries.len() > 0
            invariant
                self.wf(),
                self.capacity == old(self).capacity,
                evicted(self@, self.capacity as nat, size as nat) == evicted(
                    start,
                    self.capacity as nat,
                    size as nat,
                ),
                forall|i: int| 0 <= i < self@.len() ==> (#[trigger] self@[i]).name != key@,
            decreases self.entries.len(),
        {
            let ghost before = self@;
            let index = self.worst();
            self.evict(index);
            proof {
                assert forall|i: int| 0 <= i < self@.len() implies (#[trigger] self@[i]).name
                    != key@ by {
                    if i < index {
                        assert(self@[i] == before[i]);
                    } else {
                        assert(self@[i] == before[i + 1]);
                    }
                }
            }
        }
        let ghost kept = self@;
        if size <= self.capacity - self.allocated {
            let entry = CacheEntry { name: key.to_owned(), data: zeros(size), access: 1 };
            self.entries.push(entry);
            self.allocated = self.allocated + size;
            proof {
                assert(self@ =~= kept.push(entry@));
                assert(self@.drop_last() =~= kept);
                assert forall|i: int, j: int|
                    0 <= i < self@.len() && 0 <= j < self@.len() && i != j implies (#[trigger] self@[i]).name
                    != (#[trigger] self@[j]).name by {
                    if i < kept.len() {
                        assert(self@[i] == kept[i]);
                    }
                    if j < kept.len() {
                        assert(self@[j] == kept[j]);
                    }
                }
            }
            Ok(size)
        } else {
            Err(Error::CacheFull(self.allocated, self.capacity))
        }
    }

    /// Writes `data` into the slot named `key` from `offset` on, and counts
    /// the use. Fails with `CacheEntryNotFound` where there is no such slot,
    /// and with `CacheFull` where the bytes would pass the slot's end; then
    /// nothing changes.
    pub fn put_slice(&mut self, key: &str, offset: usize, data: &[u8]) -> (result: Result<
        usize,
        Error,
    >)
        requires
            old(self).wf(),
        ensures
            final(self).wf(),
            final(self).spec_capacity() == old(self).spec_capacity(),
            ({
                let index = position(old(self)@, key@);
                if index < 0 {
                    &&& result matches Err(Error::CacheEntryNotFound(name))
                    &&& name@ == key@
                    &&& final(self)@ == old(self)@
                } else if offset + data@.len() > old(self)@[index].data.len() {
                    &&& result == Err::<usize, Error>(
                        Error::CacheFull(
                            total_size(old(self)@) as usize,
                            old(self).spec_capacity() as usize,
                        ),
                    )
                    &&& final(self)@ == old(self)@
                } else {
                    &&& result == Ok::<usize, Error>(data@.len() as usize)
                    &&& final(self)@ == old(self)@.update(
                        index,
                        Slot {
                            data: overwritten(old(self)@[index].data, offset as int, data@),
                            access: bumped(old(self)@[index].access),
                            ..old(self)@[index]
                        },
                    )
                }
            }),
    {
        let index = match self.find(key) {
            Some(index) => index,
            None => {
                return Err(Error::CacheEntryNotFound(key.to_owned()));
            },
        };
        let len = self.entries[index].data.len();
        if offset > len || data.len() > len - offset {
            return Err(Error::CacheFull(self.allocated, self.capacity));
        }
        let ghost before = self@;
        write_into(&mut self.entries[index], offset, data);
        proof {
            let slot = self@[index as int];
            assert(self@ =~= before.update(index as int, slot));
            lemma_total_update(before, index as int, slot);
            assert forall|i: int, j: int|
                0 <= i < self@.len() && 0 <= j < self@.len() && i != j implies (#[trigger] self@[i]).name
                != (#[trigger] self@[j]).name by {
                assert(self@[i].name == before[i].name);
                assert(self@[j].name == before[j].name);
            }
        }
        Ok(data.len())
    }

    /// The bytes of the slot named `key`, if there is one; the read is
    /// counted.
    pub fn get(&mut self, key: &str) -> (bytes: Option<&[u8]>)
        requires
            old(self).wf(),
        ensures
            final(self).wf(),
            final(self).spec_capacity() == old(self).spec_capacity(),
            ({
                let index = position(old(self)@, key@);
                if index < 0 {
                    bytes is None && final(self)@ == old(self)@
                } else {
                    &&& bytes is Some
                    &&& bytes->0@ == old(self)@[index].data
                    &&& final(self)@ == touched(old(self)@, index)
                }
            }),
    {
        let index = match self.find(key) {
            Some(index) => index,
            None => {
                return None;
            },
        };
        let ghost before = self@;
        touch(&mut self.entries[index]);
        proof {
            let slot = self@[index as int];
            assert(self@ =~= before.update(index as int, slot));
            lemma_total_update(before, index as int, slot);
            assert forall|i: int, j: int|
                0 <= i < self@.len() && 0 <= j < self@.len() && i != j implies (#[trigger] self@[i]).name
                != (#[trigger] self@[j]).name by {
                assert(self@[i].name == before[i].name);
                assert(self@[j].name == before[j].name);
            }
        }
        Some(self.entries[index].data.as_slice())
    }

    /// The names of the slots, oldest first.
    pub fn keys(&self) -> (names: Vec<String>)
        ensures
            crate::protocol::names_view(names@) == self@.map_values(|slot: Slot| slot.name),
    {
        let mut names: Vec<String> = Vec::new();
        let mut i: usize = 0;
        while i < self.entries.len()
            invariant
                i <= self.entries.len(),
                names.len() == i,
                forall|k: int| 0 <= k < i ==> names@[k]@ == self@[k].name,
            decreases self.entries.len() - i,
        {
            names.push(self.entries[i].name.clone());
            i += 1;
        }
        assert(crate::protocol::names_view(names@) =~= self@.map_values(|slot: Slot| slot.name));
        names
    }
}

/// Whether two texts hold the same characters.
pub fn str_eq(a: &str, b: &str) -> (same: bool)
    ensures
        same == (a@ == b@),
{
    let x = a.as_bytes();
    let y = b.as_bytes();
    proof {
        vstd::utf8::encode_utf8_decode_utf8(a@);
        vstd::utf8::encode_utf8_decode_utf8(b@);
    }
    if x.len() != y.len() {
        return false;
    }
    let mut i: usize = 0;
    while i < x.len()
        invariant
            i <= x.len(),
            x@.len() == y@.len(),
            x@ == vstd::utf8::encode_utf8(a@),
            y@ == vstd::utf8::encode_utf8(b@),
            forall|k: int| 0 <= k < i ==> x@[k] == y@[k],
        decreases x.len() - i,
    {
        if x[i] != y[i] {
            return false;
        }
        i += 1;
    }
    assert(x@ =~= y@);
    true
}

} // verus!
