//! The activation bits of a join and the cursor that scans them.

use bitvec::vec::BitVec;
use vstd::prelude::*;

verus! {

/// A growable array of bits, kept in a `bitvec::vec::BitVec`.
#[verifier::external_body]
#[derive(Debug)]
pub struct Bits {
    inner: BitVec,
}

/// The bits that a bit array holds, first to last.
pub uninterp spec fn bits_of(v: Bits) -> Seq<bool>;

/// The largest number of bits a bit array can hold.
pub const MAX_BITS: usize = usize::MAX / 8;

/// `BitVec::repeat`: a bit array of `len` bits, each equal to `bit`. The
/// call panics when `len` is more than an eighth of the address space, which
/// the precondition rules out.
#[verifier::external_body]
fn bits_repeat(bit: bool, len: usize) -> (v: Bits)
    requires
        len <= MAX_BITS,
    ensures
        bits_of(v) == Seq::new(len as nat, |i: int| bit),
{
    Bits { inner: BitVec::repeat(bit, len) }
}

/// `BitSlice::set` on the bit array: writes `value` at `index` and leaves the
/// other bits alone. The call panics when `index` is out of bounds, which the
/// precondition rules out.
#[verifier::external_body]
fn bits_set(v: &mut Bits, index: usize, value: bool)
    requires
        index < bits_of(*old(v)).len(),
    ensures
        bits_of(*final(v)) == bits_of(*old(v)).update(index as int, value),
{
    v.inner.set(index, value);
}

/// `BitSlice::get` on the bit array with a single index: the bit at `index`,
/// or `None` when `index` is out of bounds.
#[verifier::external_body]
fn bits_get(v: &Bits, index: usize) -> (bit: Option<bool>)
    ensures
        bit == (if index < bits_of(*v).len() {
            Some(bits_of(*v)[index as int])
        } else {
            None
        }),
{
    v.inner.get(index).as_deref().copied()
}

/// A set of marked ranks with a cursor that walks forward over the marks.
///
/// Marks are only ever added. The cursor remembers the rank its current walk
/// started from, so that asking again for the same start continues the walk
/// instead of repeating it.
#[derive(Debug)]
pub struct L1BitVec {
    bitvec: Bits,
    idx: usize,
    start_idx: usize,
}

impl L1BitVec {
    /// For each rank, whether it is marked.
    pub closed spec fn bits(&self) -> Seq<bool> {
        bits_of(self.bitvec)
    }

    /// The ranks can be counted by the machine.
    pub closed spec fn wf(&self) -> bool {
        self.bits().len() <= MAX_BITS
    }

    /// The rank the next walk step looks at first.
    pub closed spec fn cursor(&self) -> usize {
        self.idx
    }

    /// The rank the current walk started from.
    pub closed spec fn start(&self) -> usize {
        self.start_idx
    }

    /// `size` unmarked ranks, the cursor at rank 0.
    pub fn new(size: usize) -> (s: L1BitVec)
        requires
            size <= MAX_BITS,
        ensures
            s.wf(),
            s.bits() == Seq::new(size as nat, |i: int| false),
            s.cursor() == 0,
            s.start() == 0,
    {
        L1BitVec { bitvec: bits_repeat(false, size), idx: 0, start_idx: 0 }
    }

    /// Starts a new walk at `start_idx`, unless the current walk started
    /// there.
    pub fn maybe_reset_start(&mut self, start_idx: usize)
        ensures
            final(self).wf() == old(self).wf(),
            final(self).bits() == old(self).bits(),
            final(self).start() == start_idx,
            final(self).cursor() == (if start_idx == old(self).start() {
                old(self).cursor()
            } else {
                start_idx
            }),
    {
        if start_idx == self.start_idx {
            return ;
        }
        self.idx = start_idx;
        self.start_idx = start_idx;
    }

    /// Marks rank `idx`.
    pub fn set(&mut self, idx: usize)
        requires
            idx < old(self).bits().len(),
        ensures
            final(self).wf() == old(self).wf(),
            final(self).bits() == old(self).bits().update(idx as int, true),
            final(self).cursor() == old(self).cursor(),
            final(self).start() == old(self).start(),
    {
        bits_set(&mut self.bitvec, idx, true);
    }

    /// The first marked rank at or after the cursor; the cursor moves just
    /// past it. `None` when no rank at or after the cursor is marked.
    pub fn next(&mut self) -> (found: Option<usize>)
        requires
            old(self).wf(),
        ensures
            final(self).wf(),
            final(self).bits() == old(self).bits(),
            final(self).start() == old(self).start(),
            match found {
                Some(rank) => {
                    &&& old(self).cursor() <= rank < old(self).bits().len()
                    &&& old(self).bits()[rank as int]
                    &&& forall|k: int| old(self).cursor() <= k < rank ==> !old(self).bits()[k]
                    &&& final(self).cursor() == rank + 1
                },
                None => {
                    &&& forall|k: int|
                        old(self).cursor() <= k < old(self).bits().len() ==> !old(self).bits()[k]
                    &&& final(self).cursor() == (if old(self).cursor() < old(self).bits().len() {
                        old(self).bits().len() as usize
                    } else {
                        old(self).cursor()
                    })
                },
            },
    {
        loop
            invariant
                self.wf(),
                self.bits() == old(self).bits(),
                self.start() == old(self).start(),
                old(self).cursor() <= self.cursor(),
                self.cursor() == old(self).cursor() || self.cursor() <= self.bits().len(),
                forall|k: int| old(self).cursor() <= k < self.cursor() ==> !self.bits()[k],
            decreases self.bits().len() - self.cursor(),
        {
            match bits_get(&self.bitvec, self.idx) {
                None => {
                    return None;
                },
                Some(set) => {
                    if set {
                        let idx = self.idx;
                        self.idx += 1;
                        return Some(idx);
                    }
                    self.idx += 1;
                },
            }
        }
    }
}

} // verus!
