//! The pool of physical frames.
//!
//! The pool manages the page numbers of a fixed range. A frame is either free
//! or allocated; `allocate` hands out a free frame and `deallocate` takes an
//! allocated frame back. Frames that were given back are handed out again
//! before fresh ones, the one given back last first.

use vstd::prelude::*;
use crate::config::PAGE_SIZE;
use crate::mm::address::{PhysPageNum, PPN_LIMIT};

verus! {

/// Why an operation on memory was refused.
#[derive(Clone, Copy, PartialEq, Eq, Structural, Debug)]
pub enum MemoryError {
    /// The frame pool holds too few free frames.
    OutOfMemory,
    /// The range of pages is not one: its start lies after its end, or its
    /// end after the last page.
    InvalidRange,
    /// A page of the range is mapped already.
    AlreadyMapped,
    /// A page of the range is not mapped, or not backed by a frame of its own.
    NotMapped,
    /// The bytes are no program that the kernel can load.
    InvalidImage,
}

/// A physical frame together with what it holds. Whoever holds the value owns
/// the frame.
pub struct FrameTracker {
    ppn: PhysPageNum,
    data: Vec<u8>,
}

impl FrameTracker {
    /// The number of the frame.
    pub closed spec fn spec_ppn(&self) -> PhysPageNum {
        self.ppn
    }

    /// The bytes of the frame.
    pub closed spec fn view(&self) -> Seq<u8> {
        self.data@
    }

    /// A frame holds exactly one page of bytes.
    pub open spec fn wf(&self) -> bool {
        self@.len() == PAGE_SIZE
    }

    /// Takes ownership of frame `ppn` and clears it.
    pub fn new(ppn: PhysPageNum) -> (frame: FrameTracker)
        ensures
            frame.wf(),
            frame.spec_ppn() == ppn,
            frame@ == Seq::new(PAGE_SIZE as nat, |i: int| 0u8),
    {
        let mut data: Vec<u8> = Vec::new();
        let mut i: usize = 0;
        while i < PAGE_SIZE
            invariant
                i <= PAGE_SIZE,
                data@.len() == i,
                forall|k: int| 0 <= k < i ==> data@[k] == 0u8,
            decreases PAGE_SIZE - i,
        {
            data.push(0u8);
            i += 1;
        }
        assert(data@ =~= Seq::new(PAGE_SIZE as nat, |i: int| 0u8));
        FrameTracker { ppn, data }
    }

    /// The number of the frame.
    pub fn ppn(&self) -> (ppn: PhysPageNum)
        ensures
            ppn == self.spec_ppn(),
    {
        self.ppn
    }

    /// The byte at `offset`.
    pub fn read(&self, offset: usize) -> (byte: u8)
        requires
            self.wf(),
            offset < PAGE_SIZE,
        ensures
            byte == self@[offset as int],
    {
        self.data[offset]
    }

    /// Stores `byte` at `offset` and leaves the other bytes as they are.
    pub fn write(&mut self, offset: usize, byte: u8)
        requires
            old(self).wf(),
            offset < PAGE_SIZE,
        ensures
            final(self).wf(),
            final(self).spec_ppn() == old(self).spec_ppn(),
            final(self)@ == old(self)@.update(offset as int, byte),
    {
        self.data[offset] = byte;
    }
}

/// The pool of the frames `start .. end`.
pub struct FrameAllocator {
    start: u64,
    current: u64,
    end: u64,
    recycled: Vec<u64>,
}

impl FrameAllocator {
    /// The first frame that the pool manages.
    pub closed spec fn spec_start(&self) -> int {
        self.start as int
    }

    /// One more than the last frame that the pool manages.
    pub closed spec fn spec_end(&self) -> int {
        self.end as int
    }

    /// Whether the pool manages frame `ppn`.
    pub open spec fn manages(&self, ppn: int) -> bool {
        self.spec_start() <= ppn < self.spec_end()
    }

    /// Whether frame `ppn` is free.
    pub closed spec fn is_free(&self, ppn: int) -> bool {
        self.current <= ppn < self.end || (self.start <= ppn < self.current
            && self.recycled@.contains(ppn as u64))
    }

    /// Whether frame `ppn` is allocated.
    pub open spec fn is_allocated(&self, ppn: int) -> bool {
        self.manages(ppn) && !self.is_free(ppn)
    }

    /// The number of free frames.
    pub closed spec fn free_count(&self) -> nat {
        (self.recycled@.len() + (self.end - self.current)) as nat
    }

    /// The frame that the next `allocate` hands out, if any frame is free.
    pub closed spec fn next_frame(&self) -> int {
        if self.recycled@.len() > 0 {
            self.recycled@.last() as int
        } else {
            self.current as int
        }
    }

    /// The pool's invariant: the frames that were given back are allocated
    /// once, within the range that was handed out.
    pub closed spec fn wf(&self) -> bool {
        &&& self.start <= self.current <= self.end <= PPN_LIMIT
        &&& self.recycled@.len() <= self.current - self.start
        &&& forall|i: int|
            0 <= i < self.recycled@.len() ==> self.start <= #[trigger] self.recycled@[i]
                < self.current
        &&& forall|i: int, j: int|
            0 <= i < j < self.recycled@.len() ==> self.recycled@[i] != self.recycled@[j]
    }

    /// A pool of the frames `start .. end`, all of them free. Where `end` lies
    /// before `start`, or beyond the last frame that an address can name, the
    /// pool is empty.
    pub fn new(start: PhysPageNum, end: PhysPageNum) -> (pool: FrameAllocator)
        ensures
            pool.wf(),
            start@ <= end@ <= PPN_LIMIT ==> {
                &&& pool.spec_start() == start@
                &&& pool.spec_end() == end@
                &&& pool.free_count() == end@ - start@
                &&& forall|ppn: int| pool.is_free(ppn) == (start@ <= ppn < end@)
            },
            !(start@ <= end@ <= PPN_LIMIT) ==> {
                &&& pool.free_count() == 0
                &&& forall|ppn: int| !pool.is_free(ppn) && !pool.manages(ppn)
            },
    {
        if start.0 <= end.0 && end.0 <= PPN_LIMIT {
            FrameAllocator { start: start.0, current: start.0, end: end.0, recycled: Vec::new() }
        } else {
            FrameAllocator { start: 0, current: 0, end: 0, recycled: Vec::new() }
        }
    }

    /// A free frame is managed, and the count of free frames is positive
    /// exactly when some frame is free.
    pub proof fn lemma_free_frames(&self)
        requires
            self.wf(),
        ensures
            forall|ppn: int| self.is_free(ppn) ==> self.manages(ppn),
            self.free_count() > 0 <==> self.is_free(self.next_frame()),
            self.free_count() == 0 ==> forall|ppn: int| !self.is_free(ppn),
    {
        assert forall|ppn: int| self.is_free(ppn) implies self.manages(ppn) by {
            if !(self.current <= ppn < self.end) {
                let i = choose|i: int|
                    0 <= i < self.recycled@.len() && self.recycled@[i] == ppn as u64;
                assert(self.start <= self.recycled@[i] < self.current);
            }
        }
        if self.recycled@.len() > 0 {
            assert(self.recycled@[self.recycled@.len() - 1] == self.recycled@.last());
        }
    }

    /// The count of free frames is the number of the frames that are free.
    pub proof fn lemma_free_count(&self)
        requires
            self.wf(),
        ensures
            Set::new(|ppn: int| self.is_free(ppn)).finite(),
            Set::new(|ppn: int| self.is_free(ppn)).len() == self.free_count(),
    {
        let fresh = vstd::set_lib::set_int_range(self.current as int, self.end as int);
        let given_back = self.recycled@.map_values(|v: u64| v as int);
        vstd::set_lib::lemma_int_range(self.current as int, self.end as int);
        assert(given_back.no_duplicates()) by {
            assert forall|i: int, j: int|
                0 <= i < given_back.len() && 0 <= j < given_back.len() && i != j implies given_back[i]
                != given_back[j] by {
                if i < j {
                    assert(self.recycled@[i] != self.recycled@[j]);
                } else {
                    assert(self.recycled@[j] != self.recycled@[i]);
                }
            }
        }
        given_back.unique_seq_to_set();
        assert(fresh.disjoint(given_back.to_set())) by {
            assert forall|p: int| fresh.contains(p) implies !given_back.to_set().contains(p) by {
                if given_back.to_set().contains(p) {
                    let i = choose|i: int| 0 <= i < given_back.len() && given_back[i] == p;
                    assert(self.recycled@[i] < self.current);
                }
            }
        }
        vstd::set_lib::lemma_set_disjoint_lens(fresh, given_back.to_set());
        assert(Set::new(|ppn: int| self.is_free(ppn)) =~= fresh + given_back.to_set()) by {
            assert forall|p: int| self.is_free(p) == (fresh + given_back.to_set()).contains(
                p,
            ) by {
                if given_back.to_set().contains(p) {
                    let i = choose|i: int| 0 <= i < given_back.len() && given_back[i] == p;
                    assert(self.start <= self.recycled@[i] < self.current);
                    assert(self.recycled@.contains(p as u64));
                }
                if !(self.current <= p < self.end) && self.is_free(p) {
                    let i = choose|i: int|
                        0 <= i < self.recycled@.len() && self.recycled@[i] == p as u64;
                    assert(given_back[i] == p);
                    assert(given_back.to_set().contains(p));
                }
            }
        }
    }

    /// Two pools with the same free frames have the same count of free
    /// frames.
    pub proof fn lemma_same_free_frames(&self, other: &FrameAllocator)
        requires
            self.wf(),
            other.wf(),
            forall|ppn: int| self.is_free(ppn) == other.is_free(ppn),
        ensures
            self.free_count() == other.free_count(),
    {
        self.lemma_free_count();
        other.lemma_free_count();
        assert(Set::new(|ppn: int| self.is_free(ppn)) =~= Set::new(|ppn: int| other.is_free(ppn)));
    }

    /// The number of free frames.
    pub fn available(&self) -> (n: u64)
        requires
            self.wf(),
        ensures
            n == self.free_count(),
    {
        self.recycled.len() as u64 + (self.end - self.current)
    }

    /// Hands out a free frame: the one given back last, or else the lowest
    /// frame never handed out. Fails with `OutOfMemory` exactly when no frame
    /// is free, and then changes nothing.
    pub fn allocate(&mut self) -> (got: Result<PhysPageNum, MemoryError>)
        requires
            old(self).wf(),
        ensures
            final(self).wf(),
            final(self).spec_start() == old(self).spec_start(),
            final(self).spec_end() == old(self).spec_end(),
            got is Ok <==> old(self).free_count() > 0,
            got matches Ok(ppn) ==> {
                &&& ppn@ == old(self).next_frame()
                &&& ppn.wf()
                &&& old(self).is_free(ppn@)
                &&& !final(self).is_free(ppn@)
                &&& final(self).free_count() == old(self).free_count() - 1
                &&& forall|p: int| p != ppn@ ==> final(self).is_free(p) == old(self).is_free(p)
            },
            got matches Err(e) ==> e == MemoryError::OutOfMemory && *final(self) == *old(self),
    {
        let ghost before = self.recycled@;
        if self.recycled.len() > 0 {
            let ppn: u64 = self.recycled.pop().unwrap();
            proof {
                let n = before.len() - 1;
                assert(before[n] == ppn);
                assert(self.recycled@ =~= before.take(n));
                assert(!self.recycled@.contains(ppn)) by {
                    if self.recycled@.contains(ppn) {
                        let i = choose|i: int|
                            0 <= i < self.recycled@.len() && self.recycled@[i] == ppn;
                        assert(before[i] != before[n]);
                    }
                }
                assert forall|p: int| p != ppn as int implies self.is_free(p) == old(self).is_free(
                    p,
                ) by {
                    if self.start <= p < self.current && before.contains(p as u64) {
                        let i = choose|i: int| 0 <= i < before.len() && before[i] == p as u64;
                        assert(self.recycled@[i] == p as u64);
                    }
                }
            }
            Ok(PhysPageNum(ppn))
        } else if self.current == self.end {
            Err(MemoryError::OutOfMemory)
        } else {
            let ppn: u64 = self.current;
            self.current = ppn + 1;
            proof {
                assert(!before.contains(ppn)) by {
                    if before.contains(ppn) {
                        let i = choose|i: int| 0 <= i < before.len() && before[i] == ppn;
                        assert(before[i] < ppn);
                    }
                }
            }
            Ok(PhysPageNum(ppn))
        }
    }

    /// Takes frame `ppn` back. Returns whether it did: only an allocated frame
    /// can be given back, and any other leaves the pool as it is.
    pub fn deallocate(&mut self, ppn: PhysPageNum) -> (done: bool)
        requires
            old(self).wf(),
        ensures
            final(self).wf(),
            final(self).spec_start() == old(self).spec_start(),
            final(self).spec_end() == old(self).spec_end(),
            done == old(self).is_allocated(ppn@),
            forall|p: int|
                final(self).is_free(p) == (old(self).is_free(p) || (p == ppn@ && old(self).manages(
                    p,
                ))),
            done ==> {
                &&& final(self).is_free(ppn@)
                &&& final(self).free_count() == old(self).free_count() + 1
                &&& final(self).next_frame() == ppn@
                &&& forall|p: int| p != ppn@ ==> final(self).is_free(p) == old(self).is_free(p)
            },
            !done ==> *final(self) == *old(self),
    {
        proof {
            self.lemma_free_frames();
        }
        let p: u64 = ppn.0;
        if p < self.start || p >= self.current {
            proof {
                if self.recycled@.contains(p) {
                    let i = choose|i: int| 0 <= i < self.recycled@.len() && self.recycled@[i] == p;
                    assert(self.start <= self.recycled@[i] < self.current);
                }
            }
            return false;
        }
        let mut i: usize = 0;
        while i < self.recycled.len()
            invariant
                i <= self.recycled@.len(),
                *self == *old(self),
                self.wf(),
                self.start <= p < self.current,
                p == ppn.0,
                forall|k: int| 0 <= k < i ==> self.recycled@[k] != p,
            decreases self.recycled@.len() - i,
        {
            if self.recycled[i] == p {
                assert(self.recycled@.contains(p));
                return false;
            }
            i += 1;
        }
        let ghost before = self.recycled@;
        proof {
            assert(!before.contains(p));
            Self::lemma_distinct_bounded(before, self.start, self.current, p);
        }
        self.recycled.push(p);
        proof {
            assert(self.recycled@ =~= before.push(p));
            assert(self.recycled@.last() == p);
            assert(self.recycled@[before.len() as int] == p);
            assert forall|q: int| q != p as int implies self.is_free(q) == old(self).is_free(q) by {
                if self.start <= q < self.current {
                    if before.contains(q as u64) {
                        let i = choose|i: int| 0 <= i < before.len() && before[i] == q as u64;
                        assert(self.recycled@[i] == q as u64);
                    }
                    if self.recycled@.contains(q as u64) {
                        let i = choose|i: int|
                            0 <= i < self.recycled@.len() && self.recycled@[i] == q as u64;
                        assert(before[i] == q as u64);
                    }
                }
            }
        }
        true
    }

    /// Distinct values from `lo .. hi`, none of them `absent`, which itself
    /// lies in that range, are fewer than the range is long.
    proof fn lemma_distinct_bounded(s: Seq<u64>, lo: u64, hi: u64, absent: u64)
        requires
            lo <= absent < hi,
            !s.contains(absent),
            forall|i: int| 0 <= i < s.len() ==> lo <= #[trigger] s[i] < hi,
            forall|i: int, j: int| 0 <= i < j < s.len() ==> s[i] != s[j],
        ensures
            s.len() < hi - lo,
    {
        let elems = s.to_set();
        let range = Set::new(|v: u64| lo <= v < hi);
        s.unique_seq_to_set();
        assert(s.no_duplicates());
        lemma_u64_range_len(lo, hi);
        assert(elems.insert(absent).subset_of(range)) by {
            assert forall|v: u64| elems.insert(absent).contains(v) implies range.contains(v) by {
                if v != absent {
                    let i = choose|i: int| 0 <= i < s.len() && s[i] == v;
                    assert(lo <= s[i] < hi);
                }
            }
        }
        vstd::set_lib::lemma_len_subset(elems.insert(absent), range);
    }
}

/// The set of the 64-bit values `lo .. hi` is finite and has `hi - lo` members.
pub proof fn lemma_u64_range_len(lo: u64, hi: u64)
    requires
        lo <= hi,
    ensures
        Set::new(|v: u64| lo <= v < hi).finite(),
        Set::new(|v: u64| lo <= v < hi).len() == hi - lo,
    decreases hi - lo,
{
    let range = Set::new(|v: u64| lo <= v < hi);
    if lo == hi {
        assert(range =~= Set::<u64>::empty());
    } else {
        let below = Set::new(|v: u64| lo <= v < (hi - 1) as u64);
        lemma_u64_range_len(lo, (hi - 1) as u64);
        assert(range =~= below.insert((hi - 1) as u64));
    }
}

} // verus!
