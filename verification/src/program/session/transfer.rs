//! The assembler: takes the chunks of a module in any order, writes each
//! into the module's cache slot, and knows when all have arrived.

use crate::bits::{all_set, max_bits, BitSet};
use crate::program::session::cache::{
    bumped, overwritten, position, total_size, ModuleCache, Slot,
};
use crate::program::Error;
use crate::protocol::{ModuleInfo, ModuleInfoView};
use vstd::prelude::*;

verus! {

/// The state of one module's delivery on the worker.
pub struct ModuleTransfer {
    name: String,
    size: usize,
    chunk_size: usize,
    total_chunks: usize,
    received: BitSet,
}

/// Model of a [`ModuleTransfer`].
pub struct ModuleTransferView {
    pub name: Seq<char>,
    pub size: nat,
    pub chunk_size: nat,
    pub total_chunks: nat,
    /// One flag per chunk, set once the chunk is in the cache slot.
    pub received: Seq<bool>,
}

/// Whether a descriptor can be assembled here: its size and chunk count can
/// be held, and its chunks before the last do not pass its size.
pub open spec fn assemblable(module: ModuleInfoView) -> bool {
    &&& module.size <= usize::MAX
    &&& module.total_chunks <= max_bits()
    &&& module.total_chunks >= 1 ==> module.chunk_size * (module.total_chunks - 1) <= module.size
}

/// The length that chunk `index` of the module must have: the chunk size,
/// or for the last chunk what is left of the module.
pub open spec fn expected_size(transfer: ModuleTransferView, index: nat) -> nat {
    if index + 1 == transfer.total_chunks {
        (transfer.size - transfer.chunk_size * (transfer.total_chunks - 1)) as nat
    } else {
        transfer.chunk_size
    }
}

/// Why a chunk is not taken.
pub enum Refusal {
    /// The module has no chunk of that index.
    InvalidIndex,
    /// The chunk has arrived before.
    Duplicate,
    /// The chunk has not the expected length.
    InvalidSize,
    /// The cache has no slot for the module.
    NoSlot,
    /// The chunk would pass the end of the module's slot.
    NoRoom,
}

/// Why chunk `index` with `len` bytes is not taken, if it is not.
pub open spec fn refusal(
    transfer: ModuleTransferView,
    cache: Seq<Slot>,
    index: nat,
    len: nat,
) -> Option<Refusal> {
    let slot = position(cache, transfer.name);
    if index >= transfer.total_chunks {
        Some(Refusal::InvalidIndex)
    } else if transfer.received[index as int] {
        Some(Refusal::Duplicate)
    } else if len != expected_size(transfer, index) {
        Some(Refusal::InvalidSize)
    } else if slot < 0 {
        Some(Refusal::NoSlot)
    } else if index * transfer.chunk_size + len > cache[slot].data.len() {
        Some(Refusal::NoRoom)
    } else {
        None
    }
}

/// The delivery after chunk `index` was taken.
pub open spec fn with_chunk(transfer: ModuleTransferView, index: nat) -> ModuleTransferView {
    ModuleTransferView { received: transfer.received.update(index as int, true), ..transfer }
}

/// The cache after chunk `index` was written into the module's slot, at
/// `index · chunk_size`; the write counts as a use.
pub open spec fn stored(
    cache: Seq<Slot>,
    transfer: ModuleTransferView,
    index: nat,
    data: Seq<u8>,
) -> Seq<Slot> {
    let slot = position(cache, transfer.name);
    cache.update(
        slot,
        Slot {
            data: overwritten(cache[slot].data, (index * transfer.chunk_size) as int, data),
            access: bumped(cache[slot].access),
            ..cache[slot]
        },
    )
}

impl View for ModuleTransfer {
    type V = ModuleTransferView;

    closed spec fn view(&self) -> ModuleTransferView {
        ModuleTransferView {
            name: self.name@,
            size: self.size as nat,
            chunk_size: self.chunk_size as nat,
            total_chunks: self.total_chunks as nat,
            received: self.received@,
        }
    }
}

impl ModuleTransfer {
    /// Whether the state is in order: one flag per chunk, and the chunks
    /// before the last within the module's size.
    pub closed spec fn wf(&self) -> bool {
        &&& self.received@.len() == self.total_chunks
        &&& self.total_chunks >= 1 ==> self.chunk_size * (self.total_chunks - 1) <= self.size
    }

    /// The state at the start of a delivery: nothing received. `None` where
    /// the descriptor cannot be assembled here.
    pub fn new(meta: &ModuleInfo) -> (transfer: Option<Self>)
        ensures
            transfer is Some == assemblable(meta@),
            transfer is Some ==> transfer->0.wf() && transfer->0@ == (ModuleTransferView {
                name: meta@.name,
                size: meta.size as nat,
                chunk_size: meta.chunk_size as nat,
                total_chunks: meta.total_chunks as nat,
                received: Seq::new(meta.total_chunks as nat, |i: int| false),
            }),
    {
        if meta.size > usize::MAX as u64 {
            return None;
        }
        if meta.total_chunks >= 1 {
            assert(meta.chunk_size * (meta.total_chunks - 1) <= 0xffff_ffff * 0xffff_ffff)
                by (nonlinear_arith)
                requires
                    0 <= meta.chunk_size <= 0xffff_ffff,
                    1 <= meta.total_chunks <= 0xffff_ffff,
            ;
            let before_last = meta.chunk_size as u128 * (meta.total_chunks as u128 - 1);
            if before_last > meta.size as u128 {
                return None;
            }
        }
        if meta.total_chunks as u64 > (usize::MAX / 8) as u64 {
            return None;
        }
        match BitSet::zeroed(meta.total_chunks as usize) {
            Some(received) => Some(
                ModuleTransfer {
                    name: meta.name.clone(),
                    size: meta.size as usize,
                    chunk_size: meta.chunk_size as usize,
                    total_chunks: meta.total_chunks as usize,
                    received,
                },
            ),
            None => None,
        }
    }

    /// The module's name.
    pub fn name(&self) -> (name: &str)
        ensures
            name@ == self@.name,
    {
        self.name.as_str()
    }

    /// Whether every chunk has arrived.
    pub fn is_complete(&self) -> (complete: bool)
        ensures
            complete == all_set(self@.received),
    {
        self.received.all()
    }

    /// Takes chunk `index`. The chunk is refused with `InvalidChunkIndex`
    /// where the module has no such chunk, with `DuplicateChunk` where it
    /// has arrived before, and with `InvalidChunkSize` where its length is
    /// not the expected one. Otherwise its bytes are written into the cache
    /// slot of the module's name at `index · chunk_size`, which can fail as
    /// the cache says. On success the chunk counts as received; on failure
    /// nothing changes.
    pub fn add_chunk(&mut self, cache: &mut ModuleCache, index: usize, data: &[u8]) -> (result: Result<
        (),
        Error,
    >)
        requires
            old(self).wf(),
            old(cache).wf(),
        ensures
            final(self).wf(),
            final(cache).wf(),
            final(cache).spec_capacity() == old(cache).spec_capacity(),
            match refusal(old(self)@, old(cache)@, index as nat, data@.len()) {
                None => {
                    &&& result == Ok::<(), Error>(())
                    &&& final(self)@ == with_chunk(old(self)@, index as nat)
                    &&& final(cache)@ == stored(old(cache)@, old(self)@, index as nat, data@)
                },
                Some(refusal) => {
                    &&& final(self)@ == old(self)@
                    &&& final(cache)@ == old(cache)@
                    &&& match refusal {
                        Refusal::InvalidIndex => result == Err::<(), Error>(
                            Error::InvalidChunkIndex(index, old(self)@.total_chunks as usize),
                        ),
                        Refusal::Duplicate => result == Err::<(), Error>(
                            Error::DuplicateChunk(index),
                        ),
                        Refusal::InvalidSize => result == Err::<(), Error>(
                            Error::InvalidChunkSize(
                                expected_size(old(self)@, index as nat) as usize,
                                data@.len() as usize,
                            ),
                        ),
                        Refusal::NoSlot => result matches Err(Error::CacheEntryNotFound(name))
                            && name@ == old(self)@.name,
                        Refusal::NoRoom => result == Err::<(), Error>(
                            Error::CacheFull(
                                total_size(old(cache)@) as usize,
                                old(cache).spec_capacity() as usize,
                            ),
                        ),
                    }
                },
            },
    {
        if index >= self.total_chunks {
            return Err(Error::InvalidChunkIndex(index, self.total_chunks));
        }
        if self.received.get(index) == Some(true) {
            return Err(Error::DuplicateChunk(index));
        }
        proof {
            let chunk = self.chunk_size as int;
            let last = self.total_chunks as int - 1;
            assert(0 <= index * chunk <= chunk * last) by (nonlinear_arith)
                requires
                    0 <= index <= last,
                    0 <= chunk,
            ;
        }
        let offset = index * self.chunk_size;
        let expected = if index == self.total_chunks - 1 {
            self.size - self.chunk_size * (self.total_chunks - 1)
        } else {
            self.chunk_size
        };
        if data.len() != expected {
            return Err(Error::InvalidChunkSize(expected, data.len()));
        }
        match cache.put_slice(self.name.as_str(), offset, data) {
            Ok(_) => {},
            Err(error) => {
                return Err(error);
            },
        }
        self.received.set(index, true);
        Ok(())
    }
}

/// A delivery under way: what has arrived, and the cache it goes to.
pub struct Delivery {
    pub transfer: ModuleTransferView,
    pub cache: Seq<Slot>,
}

/// The delivery after the chunks named by `order` were handed over one
/// after another; `chunks` holds the bytes of each chunk of the module. A
/// chunk that is refused changes nothing.
pub open spec fn delivered(start: Delivery, order: Seq<nat>, chunks: Seq<Seq<u8>>) -> Delivery
    decreases order.len(),
{
    if order.len() == 0 {
        start
    } else {
        let before = delivered(start, order.drop_last(), chunks);
        let index = order.last();
        if refusal(before.transfer, before.cache, index, chunks[index as int].len()) is None {
            Delivery {
                transfer: with_chunk(before.transfer, index),
                cache: stored(before.cache, before.transfer, index, chunks[index as int]),
            }
        } else {
            before
        }
    }
}

/// Whether a delivery is at its start and `chunks` are the chunks of its
/// module: nothing has arrived, the cache has a slot of the module's size,
/// and every chunk has its expected length.
pub open spec fn at_start(start: Delivery, chunks: Seq<Seq<u8>>) -> bool {
    let transfer = start.transfer;
    let slot = position(start.cache, transfer.name);
    &&& transfer.received == Seq::new(transfer.total_chunks, |i: int| false)
    &&& transfer.total_chunks >= 1 ==> transfer.chunk_size * (transfer.total_chunks - 1)
        <= transfer.size
    &&& slot >= 0
    &&& start.cache[slot].data.len() == transfer.size
    &&& chunks.len() == transfer.total_chunks
    &&& forall|i: int|
        0 <= i < chunks.len() ==> (#[trigger] chunks[i]).len() == expected_size(transfer, i as nat)
}

/// Whether byte `at` of the module lies in chunk `index`.
pub open spec fn in_chunk(transfer: ModuleTransferView, index: nat, at: int) -> bool {
    index * transfer.chunk_size <= at < index * transfer.chunk_size + expected_size(transfer, index)
}

/// Whether byte `at` of the module lies in one of the chunks that `order`
/// names.
pub open spec fn covered(transfer: ModuleTransferView, order: Seq<nat>, at: int) -> bool {
    exists|i: nat| order.contains(i) && #[trigger] in_chunk(transfer, i, at)
}

/// A chunk among those that `order` names in which byte `at` lies.
pub open spec fn coverer(transfer: ModuleTransferView, order: Seq<nat>, at: int) -> nat {
    choose|i: nat| order.contains(i) && #[trigger] in_chunk(transfer, i, at)
}

/// Every chunk lies within the module, and no two chunks overlap.
proof fn lemma_chunk_ranges(transfer: ModuleTransferView, i: nat, k: nat)
    requires
        transfer.total_chunks >= 1 ==> transfer.chunk_size * (transfer.total_chunks - 1)
            <= transfer.size,
        i < transfer.total_chunks,
        k < transfer.total_chunks,
    ensures
        0 <= i * transfer.chunk_size,
        i * transfer.chunk_size + expected_size(transfer, i) <= transfer.size,
        i != k ==> forall|at: int| !(in_chunk(transfer, i, at) && in_chunk(transfer, k, at)),
{
    let c = transfer.chunk_size as int;
    let n = transfer.total_chunks as int;
    let a = i as int;
    let b = k as int;
    assert(0 <= a * c) by (nonlinear_arith)
        requires
            0 <= a,
            0 <= c,
    ;
    assert(0 <= b * c) by (nonlinear_arith)
        requires
            0 <= b,
            0 <= c,
    ;
    assert(a * c <= c * (n - 1)) by (nonlinear_arith)
        requires
            0 <= a <= n - 1,
            0 <= c,
    ;
    if a + 1 < n {
        assert(a * c + c <= c * (n - 1)) by (nonlinear_arith)
            requires
                0 <= a,
                a + 1 <= n - 1,
                0 <= c,
        ;
    }
    if a < b {
        assert(a * c + c <= b * c) by (nonlinear_arith)
            requires
                0 <= a,
                a + 1 <= b,
                0 <= c,
        ;
    }
    if b < a {
        assert(b * c + c <= a * c) by (nonlinear_arith)
            requires
                0 <= b,
                b + 1 <= a,
                0 <= c,
        ;
    }
}

/// Changing a slot without changing its name leaves every position.
proof fn lemma_position_kept(cache: Seq<Slot>, index: int, slot: Slot, name: Seq<char>)
    requires
        0 <= index < cache.len(),
        slot.name == cache[index].name,
    ensures
        position(cache.update(index, slot), name) == position(cache, name),
{
    let after = cache.update(index, slot);
    crate::program::session::cache::lemma_position(cache, name);
    crate::program::session::cache::lemma_position(after, name);
    let p = position(cache, name);
    let q = position(after, name);
    if q >= 0 {
        assert(after[q].name == name);
        assert(cache[q].name == name);
    }
    if p >= 0 {
        assert(cache[p].name == name);
        assert(after[p].name == name);
    }
}

/// Chunks may come in any order. After the chunks named by `order`, none
/// twice, were handed over, exactly those count as received, the bytes of
/// each of them stand at their place in the module's slot, and every other
/// byte of the slot is as it was.
pub proof fn lemma_any_order(start: Delivery, order: Seq<nat>, chunks: Seq<Seq<u8>>)
    requires
        at_start(start, chunks),
        order.no_duplicates(),
        forall|k: int| 0 <= k < order.len() ==> #[trigger] order[k] < start.transfer.total_chunks,
    ensures
        ({
            let end = delivered(start, order, chunks);
            let transfer = start.transfer;
            let slot = position(start.cache, transfer.name);
            &&& position(end.cache, transfer.name) == slot
            &&& end.cache.len() == start.cache.len()
            &&& end.cache[slot].data.len() == transfer.size
            &&& end.transfer == ModuleTransferView { received: end.transfer.received, ..transfer }
            &&& end.transfer.received.len() == transfer.total_chunks
            &&& forall|i: int|
                0 <= i < transfer.total_chunks ==> #[trigger] end.transfer.received[i]
                    == order.contains(i as nat)
            &&& forall|at: int|
                0 <= at < transfer.size ==> #[trigger] end.cache[slot].data[at] == if covered(
                    transfer,
                    order,
                    at,
                ) {
                    let i = coverer(transfer, order, at);
                    chunks[i as int][at - i * transfer.chunk_size]
                } else {
                    start.cache[slot].data[at]
                }
        }),
    decreases order.len(),
{
    let transfer = start.transfer;
    let slot = position(start.cache, transfer.name);
    crate::program::session::cache::lemma_position(start.cache, transfer.name);
    if order.len() == 0 {
        assert forall|at: int| 0 <= at < transfer.size implies !#[trigger] covered(
            transfer,
            order,
            at,
        ) by {}
    } else {
        let front = order.drop_last();
        let index = order.last();
        assert(order[order.len() - 1] == index);
        assert forall|k: int| 0 <= k < front.len() implies #[trigger] front[k]
            < transfer.total_chunks by {
            assert(front[k] == order[k]);
        }
        assert(front.no_duplicates()) by {
            assert forall|a: int, b: int|
                0 <= a < front.len() && 0 <= b < front.len() && a != b implies front[a]
                != front[b] by {
                assert(front[a] == order[a] && front[b] == order[b]);
            }
        }
        lemma_any_order(start, front, chunks);
        let before = delivered(start, front, chunks);
        let end = delivered(start, order, chunks);
        assert(!front.contains(index)) by {
            if front.contains(index) {
                let k = choose|k: int| 0 <= k < front.len() && front[k] == index;
                assert(order[k] == index);
            }
        }
        lemma_chunk_ranges(transfer, index, index);
        assert(chunks[index as int].len() == expected_size(transfer, index));
        assert(expected_size(before.transfer, index) == expected_size(transfer, index));
        assert(refusal(before.transfer, before.cache, index, chunks[index as int].len()) is None);
        let written = Slot {
            data: overwritten(
                before.cache[slot].data,
                (index * transfer.chunk_size) as int,
                chunks[index as int],
            ),
            access: bumped(before.cache[slot].access),
            ..before.cache[slot]
        };
        assert(end.cache == before.cache.update(slot, written));
        lemma_position_kept(before.cache, slot, written, transfer.name);
        assert forall|i: int| 0 <= i < transfer.total_chunks implies #[trigger] end.transfer.received[i]
            == order.contains(i as nat) by {
            if i == index {
                assert(order[order.len() - 1] == index);
            } else {
                if order.contains(i as nat) {
                    let k = choose|k: int| 0 <= k < order.len() && order[k] == i as nat;
                    assert(front[k] == i as nat);
                }
                if front.contains(i as nat) {
                    let k = choose|k: int| 0 <= k < front.len() && front[k] == i as nat;
                    assert(order[k] == i as nat);
                }
            }
        }
        assert forall|at: int| 0 <= at < transfer.size implies #[trigger] end.cache[slot].data[at]
            == if covered(transfer, order, at) {
            let i = coverer(transfer, order, at);
            chunks[i as int][at - i * transfer.chunk_size]
        } else {
            start.cache[slot].data[at]
        } by {
            if in_chunk(transfer, index, at) {
                assert(order.contains(index));
                assert(covered(transfer, order, at));
                let i = coverer(transfer, order, at);
                let k = choose|k: int| 0 <= k < order.len() && order[k] == i;
                lemma_chunk_ranges(transfer, i, index);
            } else {
                if covered(transfer, order, at) {
                    let i = coverer(transfer, order, at);
                    let k = choose|k: int| 0 <= k < order.len() && order[k] == i;
                    assert(front[k] == i);
                    assert(front.contains(i));
                    assert(covered(transfer, front, at));
                    let j = coverer(transfer, front, at);
                    let kj = choose|kj: int| 0 <= kj < front.len() && front[kj] == j;
                    assert(order[kj] == j);
                    lemma_chunk_ranges(transfer, i, j);
                } else {
                    if covered(transfer, front, at) {
                        let j = coverer(transfer, front, at);
                        let kj = choose|kj: int| 0 <= kj < front.len() && front[kj] == j;
                        assert(order[kj] == j);
                        assert(order.contains(j));
                    }
                }
            }
        }
    }
}

/// Chunks that arrive in any order give the same module as chunks that
/// arrive in order: two deliveries of all chunks of a module, whatever
/// their order, leave the same bytes in the module's slot, and both are
/// complete.
pub proof fn lemma_order_does_not_matter(
    start: Delivery,
    first: Seq<nat>,
    second: Seq<nat>,
    chunks: Seq<Seq<u8>>,
)
    requires
        at_start(start, chunks),
        first.no_duplicates(),
        second.no_duplicates(),
        forall|i: nat| i < start.transfer.total_chunks <==> first.contains(i),
        forall|i: nat| i < start.transfer.total_chunks <==> second.contains(i),
    ensures
        ({
            let slot = position(start.cache, start.transfer.name);
            let a = delivered(start, first, chunks);
            let b = delivered(start, second, chunks);
            &&& a.cache[slot].data == b.cache[slot].data
            &&& all_set(a.transfer.received)
            &&& all_set(b.transfer.received)
        }),
{
    let transfer = start.transfer;
    let slot = position(start.cache, transfer.name);
    assert forall|k: int| 0 <= k < first.len() implies #[trigger] first[k] < transfer.total_chunks by {
        assert(first.contains(first[k]));
    }
    assert forall|k: int| 0 <= k < second.len() implies #[trigger] second[k]
        < transfer.total_chunks by {
        assert(second.contains(second[k]));
    }
    lemma_any_order(start, first, chunks);
    lemma_any_order(start, second, chunks);
    let a = delivered(start, first, chunks);
    let b = delivered(start, second, chunks);
    assert forall|at: int| 0 <= at < transfer.size implies a.cache[slot].data[at]
        == b.cache[slot].data[at] by {
        if covered(transfer, first, at) {
            let i = coverer(transfer, first, at);
            assert(second.contains(i));
            assert(covered(transfer, second, at));
            let j = coverer(transfer, second, at);
            lemma_chunk_ranges(transfer, i, j);
        } else {
            if covered(transfer, second, at) {
                let j = coverer(transfer, second, at);
                assert(first.contains(j));
            }
        }
    }
    assert(a.cache[slot].data =~= b.cache[slot].data);
    assert forall|i: int| 0 <= i < a.transfer.received.len() implies a.transfer.received[i] by {
        assert(first.contains(i as nat));
    }
    assert forall|i: int| 0 <= i < b.transfer.received.len() implies b.transfer.received[i] by {
        assert(second.contains(i as nat));
    }
}

} // verus!
