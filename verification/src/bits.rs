//! A fixed-length set of bits, one per chunk of a module, stored in a
//! `bitvec` bit-vector.

use vstd::prelude::*;

verus! {

/// One bit per chunk. The storage is a `bitvec::vec::BitVec`; its contents are
/// known to the verifier only through [`bits_of`].
#[verifier::external_body]
pub struct BitSet {
    bits: bitvec::vec::BitVec,
}

/// The bits that a [`BitSet`] holds, in index order.
pub uninterp spec fn bits_of(set: BitSet) -> Seq<bool>;

/// The longest bit-vector that `bitvec` can describe.
pub open spec fn max_bits() -> int {
    usize::MAX as int / 8
}

/// Whether every bit of the sequence is set.
pub open spec fn all_set(bits: Seq<bool>) -> bool {
    forall|i: int| 0 <= i < bits.len() ==> bits[i]
}

/// How many bits of the sequence are set.
pub open spec fn count_set(bits: Seq<bool>) -> nat {
    bits.to_multiset().count(true)
}

impl View for BitSet {
    type V = Seq<bool>;

    open spec fn view(&self) -> Seq<bool> {
        bits_of(*self)
    }
}

impl Clone for BitSet {
    fn clone(&self) -> (copy: Self)
        ensures
            copy@ == self@,
    {
        self.duplicate()
    }
}

impl BitSet {
    /// `BitVec::clone`: the copy holds the same bits.
    #[verifier::external_body]
    pub(crate) fn duplicate(&self) -> (copy: BitSet)
        ensures
            bits_of(copy) == bits_of(*self),
    {
        BitSet { bits: self.bits.clone() }
    }

    /// `BitVec::repeat`: `len` bits, all equal to `bit`. The outside function
    /// panics above `BitSlice::MAX_BITS`, which is `usize::MAX >> 3`.
    #[verifier::external_body]
    pub(crate) fn filled(bit: bool, len: usize) -> (set: BitSet)
        requires
            len <= max_bits(),
        ensures
            bits_of(set) == Seq::new(len as nat, |i: int| bit),
    {
        BitSet { bits: bitvec::vec::BitVec::repeat(bit, len) }
    }

    /// `BitSlice::len`: the number of bits.
    #[verifier::external_body]
    pub(crate) fn size(&self) -> (len: usize)
        ensures
            len == bits_of(*self).len(),
    {
        self.bits.len()
    }

    /// Indexing a `BitSlice` by `usize`: the bit at `index`. The outside
    /// function panics when `index` is out of bounds.
    #[verifier::external_body]
    pub(crate) fn bit(&self, index: usize) -> (bit: bool)
        requires
            index < bits_of(*self).len(),
        ensures
            bit == bits_of(*self)[index as int],
    {
        self.bits[index]
    }

    /// `BitSlice::set`: writes one bit and leaves the others. The outside
    /// function panics when `index` is out of bounds.
    #[verifier::external_body]
    pub(crate) fn assign(&mut self, index: usize, value: bool)
        requires
            index < bits_of(*old(self)).len(),
        ensures
            bits_of(*final(self)) == bits_of(*old(self)).update(index as int, value),
    {
        self.bits.set(index, value)
    }

    /// `BitSlice::fill`: writes `value` into every bit; the length stays.
    #[verifier::external_body]
    pub(crate) fn assign_all(&mut self, value: bool)
        ensures
            bits_of(*final(self)) == Seq::new(bits_of(*old(self)).len(), |i: int| value),
    {
        self.bits.fill(value)
    }

    /// `BitSlice::all`: whether every bit is set; true of an empty set.
    #[verifier::external_body]
    pub(crate) fn every(&self) -> (all: bool)
        ensures
            all == all_set(bits_of(*self)),
    {
        self.bits.all()
    }

    /// `BitSlice::count_ones`: how many bits are set.
    #[verifier::external_body]
    pub(crate) fn ones(&self) -> (count: usize)
        ensures
            count == count_set(bits_of(*self)),
    {
        self.bits.count_ones()
    }

    /// A set of `len` cleared bits, or `None` where `len` is more than the
    /// storage can describe.
    pub fn zeroed(len: usize) -> (set: Option<BitSet>)
        ensures
            len <= max_bits() ==> set is Some && set->0@ == Seq::new(len as nat, |i: int| false),
            len > max_bits() ==> set is None,
    {
        if len <= usize::MAX / 8 {
            Some(BitSet::filled(false, len))
        } else {
            None
        }
    }

    /// The number of bits.
    pub fn len(&self) -> (len: usize)
        ensures
            len == self@.len(),
    {
        self.size()
    }

    /// The bit at `index`, or `None` where the set has no such bit.
    pub fn get(&self, index: usize) -> (bit: Option<bool>)
        ensures
            index < self@.len() ==> bit == Some(self@[index as int]),
            index >= self@.len() ==> bit is None,
    {
        if index < self.size() {
            Some(self.bit(index))
        } else {
            None
        }
    }

    /// Writes the bit at `index`. Returns whether the set has such a bit; if
    /// not, nothing changes.
    pub fn set(&mut self, index: usize, value: bool) -> (written: bool)
        ensures
            written == (index < old(self)@.len()),
            written ==> final(self)@ == old(self)@.update(index as int, value),
            !written ==> final(self)@ == old(self)@,
    {
        if index < self.size() {
            self.assign(index, value);
            true
        } else {
            false
        }
    }

    /// Writes `value` into every bit.
    pub fn fill(&mut self, value: bool)
        ensures
            final(self)@ == Seq::new(old(self)@.len(), |i: int| value),
    {
        self.assign_all(value)
    }

    /// Whether every bit is set.
    pub fn all(&self) -> (all: bool)
        ensures
            all == all_set(self@),
    {
        self.every()
    }

    /// How many bits are set.
    pub fn count_ones(&self) -> (count: usize)
        ensures
            count == count_set(self@),
    {
        self.ones()
    }

    /// The bits as a list, for callers that want plain values.
    pub fn to_vec(&self) -> (bits: Vec<bool>)
        ensures
            bits@ == self@,
    {
        let n = self.size();
        let mut bits: Vec<bool> = Vec::new();
        let mut i: usize = 0;
        while i < n
            invariant
                n == self@.len(),
                i <= n,
                bits@ == self@.take(i as int),
            decreases n - i,
        {
            bits.push(self.bit(i));
            assert(self@.take(i as int).push(self@[i as int]) =~= self@.take(i + 1));
            i += 1;
        }
        assert(self@.take(n as int) =~= self@);
        bits
    }
}

} // verus!
