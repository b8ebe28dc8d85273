//! Address spaces: a translation tree together with the areas that it maps.
//!
//! An area is a run of consecutive pages with one permission. A framed area
//! owns one frame per page; an identical area maps each page to the frame of
//! the same number and owns nothing. No two areas of an address space share a
//! page. Besides its areas every address space maps the trampoline, the one
//! page that all address spaces share, at the highest page.

use vstd::prelude::*;
use crate::config::PAGE_SIZE;
use crate::mm::address::{PhysPageNum, VirtAddr, VirtPageNum, VA_LIMIT, VPN_LIMIT};
use crate::mm::frame_allocator::{FrameAllocator, FrameTracker, MemoryError};
use crate::mm::page_table::{
    has_flags, PageTable, PageTableEntry, PTE_R, PTE_U, PTE_V, PTE_W, PTE_X, SATP_MODE,
};

verus! {

/// Permission of an area: its pages may be read.
pub const PERM_R: u8 = 0x02;

/// Permission of an area: its pages may be written.
pub const PERM_W: u8 = 0x04;

/// Permission of an area: instructions may be fetched from its pages.
pub const PERM_X: u8 = 0x08;

/// Permission of an area: its pages are accessible in user mode.
pub const PERM_U: u8 = 0x10;

/// The page of the trampoline: the highest page of every address space.
pub const TRAMPOLINE_VPN: u64 = 0x7ff_ffff;

/// The page that holds a task's trap context: the one below the trampoline.
pub const TRAP_CONTEXT_VPN: u64 = 0x7ff_fffe;

/// The number of frames that a bare address space takes: the root of its
/// tree, the two nodes above its highest pages, and the trap-context page.
pub const BARE_FRAMES: u64 = 4;

/// Whether `bits` holds nothing but permissions.
pub open spec fn is_permission(bits: u8) -> bool {
    bits & 0xe1 == 0
}

/// A set of the permissions read, write, execute and user.
#[derive(Clone, Copy, PartialEq, Eq, Structural, Debug)]
pub struct MapPermission {
    bits: u8,
}

impl MapPermission {
    /// The permissions as flags of an entry.
    pub closed spec fn view(self) -> u8 {
        self.bits
    }

    /// A permission set holds no flag that is not a permission.
    pub open spec fn wf(self) -> bool {
        is_permission(self@)
    }

    /// The permission set with the flags `bits`, or nothing where `bits`
    /// holds a flag that is not a permission.
    pub fn from_bits(bits: u8) -> (made: Option<MapPermission>)
        ensures
            made is Some <==> is_permission(bits),
            made matches Some(perm) ==> perm@ == bits && perm.wf(),
    {
        if bits & 0xe1 == 0 {
            Some(MapPermission { bits })
        } else {
            None
        }
    }

    /// The permissions as flags of an entry.
    pub fn bits(&self) -> (bits: u8)
        ensures
            bits == self@,
    {
        self.bits
    }

    /// The permissions of `self` together with those of `other`.
    pub fn union(self, other: MapPermission) -> (both: MapPermission)
        ensures
            both@ == self@ | other@,
            self.wf() && other.wf() ==> both.wf(),
    {
        let a: u8 = self.bits;
        let b: u8 = other.bits;
        assert(a & 0xe1 == 0 && b & 0xe1 == 0 ==> (a | b) & 0xe1 == 0) by (bit_vector);
        MapPermission { bits: a | b }
    }

    /// Whether `self` holds every permission of `wanted`.
    pub fn contains(&self, wanted: MapPermission) -> (yes: bool)
        ensures
            yes == has_flags(self@, wanted@),
    {
        self.bits & wanted.bits == wanted.bits
    }
}

/// How the pages of an area find their frames.
#[derive(Clone, Copy, PartialEq, Eq, Structural, Debug)]
pub enum MapType {
    /// Each page maps to the frame of the same number.
    Identical,
    /// Each page maps to a frame of its own, which the area owns.
    Framed,
}

/// A run of consecutive pages with one permission.
pub struct MapArea {
    start: u64,
    end: u64,
    map_type: MapType,
    perm: MapPermission,
    frames: Vec<FrameTracker>,
}

impl MapArea {
    /// The first page of the area.
    pub closed spec fn spec_start(&self) -> int {
        self.start as int
    }

    /// One more than the last page of the area.
    pub closed spec fn spec_end(&self) -> int {
        self.end as int
    }

    /// How the pages find their frames.
    pub closed spec fn spec_map_type(&self) -> MapType {
        self.map_type
    }

    /// The permission of the pages.
    pub closed spec fn spec_perm(&self) -> MapPermission {
        self.perm
    }

    /// Whether page `vpn` belongs to the area.
    pub open spec fn covers(&self, vpn: int) -> bool {
        self.spec_start() <= vpn < self.spec_end()
    }

    /// Whether page `vpn` belongs to the area and has a frame of its own.
    pub open spec fn backs(&self, vpn: int) -> bool {
        self.covers(vpn) && self.spec_map_type() == MapType::Framed
    }

    /// The frame of page `vpn`.
    pub closed spec fn spec_ppn(&self, vpn: int) -> int {
        match self.map_type {
            MapType::Identical => vpn,
            MapType::Framed => self.frames@[vpn - self.start].spec_ppn()@,
        }
    }

    /// The bytes of page `vpn`, where the area owns its frame.
    pub closed spec fn data(&self, vpn: int) -> Seq<u8> {
        self.frames@[vpn - self.start]@
    }

    /// The entry that maps page `vpn`.
    pub open spec fn entry(&self, vpn: int) -> PageTableEntry {
        PageTableEntry::spec_new(self.spec_ppn(vpn), self.spec_perm()@ | PTE_V)
    }

    /// The area's invariant: it holds at least one page and ends below the
    /// trampoline, and a framed area holds one whole frame per page.
    pub closed spec fn wf(&self) -> bool {
        &&& self.start < self.end <= TRAMPOLINE_VPN
        &&& self.perm.wf()
        &&& match self.map_type {
            MapType::Identical => self.frames@.len() == 0,
            MapType::Framed => {
                &&& self.frames@.len() == self.end - self.start
                &&& forall|k: int|
                    0 <= k < self.frames@.len() ==> {
                        &&& (#[trigger] self.frames@[k]).wf()
                        &&& self.frames@[k].spec_ppn().wf()
                    }
            },
        }
    }

    /// What the invariant says of the area's bounds and pages.
    pub proof fn lemma_wf(&self)
        requires
            self.wf(),
        ensures
            0 <= self.spec_start() < self.spec_end() <= TRAMPOLINE_VPN,
            self.spec_perm().wf(),
            forall|vpn: int| self.covers(vpn) ==> 0 <= #[trigger] self.spec_ppn(vpn) < crate::mm::address::PPN_LIMIT,
            forall|vpn: int| self.backs(vpn) ==> (#[trigger] self.data(vpn)).len() == PAGE_SIZE,
    {
        assert forall|vpn: int| self.backs(vpn) implies (#[trigger] self.data(vpn)).len()
            == PAGE_SIZE by {
            assert(self.frames@[vpn - self.start].wf());
        }
        assert forall|vpn: int| self.covers(vpn) implies 0 <= #[trigger] self.spec_ppn(vpn)
            < crate::mm::address::PPN_LIMIT by {
            if self.map_type == MapType::Framed {
                assert(self.frames@[vpn - self.start].wf());
            }
        }
    }

    /// Cuts the area in two before page `at`: the area keeps the pages below
    /// `at`, and the pages from `at` on are returned as an area of their own,
    /// each page with the frame and the bytes that it had.
    fn split_off(&mut self, at: u64) -> (right: MapArea)
        requires
            old(self).wf(),
            old(self).start < at < old(self).end,
        ensures
            final(self).wf(),
            right.wf(),
            final(self).start == old(self).start,
            final(self).end == at,
            right.start == at,
            right.end == old(self).end,
            final(self).map_type == old(self).map_type,
            right.map_type == old(self).map_type,
            final(self).perm == old(self).perm,
            right.perm == old(self).perm,
            forall|vpn: int|
                old(self).start <= vpn < at ==> {
                    &&& #[trigger] final(self).spec_ppn(vpn) == old(self).spec_ppn(vpn)
                    &&& old(self).map_type == MapType::Framed ==> final(self).data(vpn) == old(
                        self,
                    ).data(vpn)
                },
            forall|vpn: int|
                at <= vpn < old(self).end ==> {
                    &&& #[trigger] right.spec_ppn(vpn) == old(self).spec_ppn(vpn)
                    &&& old(self).map_type == MapType::Framed ==> right.data(vpn) == old(
                        self,
                    ).data(vpn)
                },
    {
        let kept: usize = (at - self.start) as usize;
        let ghost all = self.frames@;
        let frames: Vec<FrameTracker> = match self.map_type {
            MapType::Framed => self.frames.split_off(kept),
            MapType::Identical => Vec::new(),
        };
        let right = MapArea {
            start: at,
            end: self.end,
            map_type: self.map_type,
            perm: self.perm,
            frames,
        };
        self.end = at;
        proof {
            if self.map_type == MapType::Framed {
                assert forall|k: int| 0 <= k < self.frames@.len() implies {
                    &&& (#[trigger] self.frames@[k]).wf()
                    &&& self.frames@[k].spec_ppn().wf()
                } by {
                    assert(self.frames@[k] == all[k]);
                }
                assert forall|k: int| 0 <= k < right.frames@.len() implies {
                    &&& (#[trigger] right.frames@[k]).wf()
                    &&& right.frames@[k].spec_ppn().wf()
                } by {
                    assert(right.frames@[k] == all[k + kept]);
                }
            }
        }
        right
    }

    /// The byte at `offset` in the frame of page `vpn`.
    fn read_byte(&self, vpn: u64, offset: usize) -> (byte: u8)
        requires
            self.wf(),
            self.backs(vpn as int),
            offset < PAGE_SIZE,
        ensures
            byte == self.data(vpn as int)[offset as int],
    {
        let k: usize = (vpn - self.start) as usize;
        assert(self.frames@[k as int].wf());
        self.frames[k].read(offset)
    }

    /// Stores `byte` at `offset` in the frame of page `vpn`.
    fn write_byte(&mut self, vpn: u64, offset: usize, byte: u8)
        requires
            old(self).wf(),
            old(self).backs(vpn as int),
            offset < PAGE_SIZE,
        ensures
            final(self).wf(),
            final(self).start == old(self).start,
            final(self).end == old(self).end,
            final(self).map_type == old(self).map_type,
            final(self).perm == old(self).perm,
            forall|u: int|
                old(self).covers(u) ==> #[trigger] final(self).spec_ppn(u) == old(self).spec_ppn(
                    u,
                ),
            final(self).data(vpn as int) == old(self).data(vpn as int).update(offset as int, byte),
            forall|u: int|
                old(self).covers(u) && u != vpn ==> #[trigger] final(self).data(u) == old(
                    self,
                ).data(u),
    {
        let k: usize = (vpn - self.start) as usize;
        let ghost before = self.frames@;
        assert(before[k as int].wf());
        self.frames[k].write(offset, byte);
        proof {
            assert forall|j: int| 0 <= j < self.frames@.len() implies {
                &&& (#[trigger] self.frames@[j]).wf()
                &&& self.frames@[j].spec_ppn().wf()
            } by {
                assert(before[j].wf());
                if j != k {
                    assert(self.frames@[j] == before[j]);
                }
            }
            assert forall|u: int| old(self).covers(u) implies #[trigger] self.spec_ppn(u) == old(
                self,
            ).spec_ppn(u) by {
                if u - self.start != k {
                    assert(self.frames@[u - self.start] == before[u - self.start]);
                }
            }
        }
    }

    /// Whether the area owns frame `ppn`: one of its pages has it as a frame
    /// of its own.
    pub closed spec fn owns_frame(&self, ppn: int) -> bool {
        self.map_type == MapType::Framed && exists|k: int|
            0 <= k < self.frames@.len() && (#[trigger] self.frames@[k]).spec_ppn()@ == ppn
    }

    /// An area owns the frames of its pages, and no others.
    proof fn lemma_owns_frame(&self, ppn: int)
        requires
            self.wf(),
        ensures
            self.owns_frame(ppn) <==> exists|vpn: int|
                self.backs(vpn) && #[trigger] self.spec_ppn(vpn) == ppn,
    {
        if self.owns_frame(ppn) {
            let k = choose|k: int|
                0 <= k < self.frames@.len() && (#[trigger] self.frames@[k]).spec_ppn()@ == ppn;
            assert(self.backs(self.start + k) && self.spec_ppn(self.start + k) == ppn);
        }
        if exists|vpn: int| self.backs(vpn) && #[trigger] self.spec_ppn(vpn) == ppn {
            let vpn = choose|vpn: int| self.backs(vpn) && #[trigger] self.spec_ppn(vpn) == ppn;
            assert(self.frames@[vpn - self.start].spec_ppn()@ == ppn);
        }
    }

    /// Gives the frames that the area owns back to `pool`.
    fn release(self, pool: &mut FrameAllocator)
        requires
            self.wf(),
            old(pool).wf(),
        ensures
            final(pool).wf(),
            final(pool).spec_start() == old(pool).spec_start(),
            final(pool).spec_end() == old(pool).spec_end(),
            forall|p: int|
                final(pool).is_free(p) == (old(pool).is_free(p) || (old(pool).manages(p)
                    && self.owns_frame(p))),
    {
        let mut k: usize = 0;
        while k < self.frames.len()
            invariant
                k <= self.frames@.len(),
                pool.wf(),
                pool.spec_start() == old(pool).spec_start(),
                pool.spec_end() == old(pool).spec_end(),
                forall|p: int|
                    pool.is_free(p) == (old(pool).is_free(p) || (old(pool).manages(p) && exists|
                        j: int,
                    |
                        0 <= j < k && (#[trigger] self.frames@[j]).spec_ppn()@ == p)),
            decreases self.frames@.len() - k,
        {
            pool.deallocate(self.frames[k].ppn());
            proof {
                assert forall|p: int|
                    pool.is_free(p) == (old(pool).is_free(p) || (old(pool).manages(p) && exists|
                        j: int,
                    |
                        0 <= j < k + 1 && (#[trigger] self.frames@[j]).spec_ppn()@ == p)) by {
                    if exists|j: int|
                        0 <= j < k + 1 && (#[trigger] self.frames@[j]).spec_ppn()@ == p {
                        let j = choose|j: int|
                            0 <= j < k + 1 && (#[trigger] self.frames@[j]).spec_ppn()@ == p;
                        if j < k {
                            assert(0 <= j < k && self.frames@[j].spec_ppn()@ == p);
                        }
                    }
                    if exists|j: int| 0 <= j < k && (#[trigger] self.frames@[j]).spec_ppn()@ == p {
                        let j = choose|j: int|
                            0 <= j < k && (#[trigger] self.frames@[j]).spec_ppn()@ == p;
                        assert(0 <= j < k + 1 && self.frames@[j].spec_ppn()@ == p);
                    }
                    if self.frames@[k as int].spec_ppn()@ == p {
                        assert(0 <= k < k + 1 && self.frames@[k as int].spec_ppn()@ == p);
                    }
                }
            }
            k += 1;
        }
        proof {
            assert forall|p: int|
                pool.is_free(p) == (old(pool).is_free(p) || (old(pool).manages(p)
                    && self.owns_frame(p))) by {
                if self.map_type == MapType::Identical {
                    assert(self.frames@.len() == 0);
                }
            }
        }
    }

    /// The first page of the area.
    pub fn start(&self) -> (vpn: VirtPageNum)
        ensures
            vpn@ == self.spec_start(),
    {
        VirtPageNum(self.start)
    }

    /// One more than the last page of the area.
    pub fn end(&self) -> (vpn: VirtPageNum)
        ensures
            vpn@ == self.spec_end(),
    {
        VirtPageNum(self.end)
    }

    /// How the pages find their frames.
    pub fn map_type(&self) -> (map_type: MapType)
        ensures
            map_type == self.spec_map_type(),
    {
        self.map_type
    }

    /// The permission of the pages.
    pub fn permission(&self) -> (perm: MapPermission)
        ensures
            perm == self.spec_perm(),
    {
        self.perm
    }
}

/// What an address space is to its users.
#[verifier::ext_equal]
pub struct MemorySetView {
    /// Each mapped page with its entry.
    pub mappings: Map<int, PageTableEntry>,
    /// Each page that has a frame of its own, with the bytes of the frame.
    pub frames: Map<int, Seq<u8>>,
    /// The frame of the root of the translation tree.
    pub root: int,
    /// The leaves of the translation tree that exist: `prefix` stands for the
    /// leaf of the pages `512 * prefix .. 512 * prefix + 512`.
    pub leaves: Set<int>,
    /// The middle nodes of the translation tree that exist, by their index in
    /// the root.
    pub mids: Set<int>,
    /// The frames in which the nodes of the translation tree lie.
    pub nodes: Set<int>,
}

/// The pages `start .. end`.
pub open spec fn page_range(start: int, end: int) -> Set<int> {
    Set::new(|vpn: int| start <= vpn < end)
}

/// A cleared frame for each of the pages `start .. end`.
pub open spec fn cleared_pages(start: int, end: int) -> Map<int, Seq<u8>> {
    Map::new(|vpn: int| start <= vpn < end, |vpn: int| Seq::new(PAGE_SIZE as nat, |i: int| 0u8))
}

/// How an address space looks after the pages `start .. end`, none of which
/// was mapped, were mapped with `flags`: the mappings that were there stay,
/// each new page is mapped with `flags` to a frame that no other new page
/// has, and where `framed` holds each new page has a cleared frame of its own;
/// otherwise each new page maps to the frame of its own number.
pub open spec fn inserted(
    pre: MemorySetView,
    post: MemorySetView,
    start: int,
    end: int,
    flags: u8,
    framed: bool,
) -> bool {
    &&& post.root == pre.root
    &&& forall|vpn: int| start <= vpn < end ==> !(#[trigger] pre.mappings.contains_key(vpn))
    &&& post.mappings.dom() == pre.mappings.dom().union(page_range(start, end))
    &&& forall|vpn: int| #[trigger]
        pre.mappings.contains_key(vpn) ==> post.mappings[vpn] == pre.mappings[vpn]
    &&& forall|vpn: int|
        start <= vpn < end ==> (#[trigger] post.mappings[vpn]).spec_flags() == flags
    &&& forall|v1: int, v2: int|
        start <= v1 < v2 < end ==> (#[trigger] post.mappings[v1]).spec_ppn() != (
        #[trigger] post.mappings[v2]).spec_ppn()
    &&& framed ==> post.frames == pre.frames.union_prefer_right(cleared_pages(start, end))
    &&& !framed ==> post.frames == pre.frames
    &&& !framed ==> forall|vpn: int|
        start <= vpn < end ==> (#[trigger] post.mappings[vpn]).spec_ppn() == vpn
    &&& post.tables_grown(pre, start, end)
}

/// How an address space looks after the pages `start .. end` were unmapped
/// and their frames released: those pages are gone from the mappings and from
/// the frames, and everything else stays.
pub open spec fn removed(pre: MemorySetView, post: MemorySetView, start: int, end: int) -> bool {
    &&& post.root == pre.root
    &&& post.mappings == pre.mappings.remove_keys(page_range(start, end))
    &&& post.frames == pre.frames.remove_keys(page_range(start, end))
    &&& post.leaves == pre.leaves
    &&& post.mids == pre.mids
    &&& post.nodes == pre.nodes
}

/// Mapping a run of unmapped pages and then unmapping the same run gives the
/// address space back as it was: the same mappings, the same frames with the
/// same bytes, the same root. Only the nodes of the translation tree that the
/// mapping brought stay.
pub proof fn lemma_insert_remove_round_trip(
    pre: MemorySetView,
    mid: MemorySetView,
    post: MemorySetView,
    start: int,
    end: int,
    flags: u8,
    framed: bool,
)
    requires
        pre.wf(),
        inserted(pre, mid, start, end, flags, framed),
        removed(mid, post, start, end),
    ensures
        post.mappings == pre.mappings,
        post.frames == pre.frames,
        post.root == pre.root,
{
    assert(post.mappings =~= pre.mappings);
    assert(post.frames =~= pre.frames);
}

/// Whether one of the pages `start .. end` is mapped to frame `ppn`.
pub open spec fn frame_in(
    mappings: Map<int, PageTableEntry>,
    start: int,
    end: int,
    ppn: int,
) -> bool {
    exists|vpn: int|
        start <= vpn < end && mappings.contains_key(vpn) && (#[trigger] mappings[vpn]).spec_ppn()
            == ppn
}

/// Whether one of the pages `start .. end`, mapped to frame `ppn` in `pre`, is
/// no longer mapped in `now`.
pub open spec fn released_in(
    pre: Map<int, PageTableEntry>,
    now: Map<int, PageTableEntry>,
    start: int,
    end: int,
    ppn: int,
) -> bool {
    exists|vpn: int|
        start <= vpn < end && pre.contains_key(vpn) && !now.contains_key(vpn) && (
        #[trigger] pre[vpn]).spec_ppn() == ppn
}

/// A run of pages.
pub struct PageSpan {
    /// The first page.
    pub first: int,
    /// One more than the last page.
    pub end: int,
}

/// The number of frames that page `vpn` takes when the pages from `start` on
/// are mapped one after the other into a translation tree with the leaves
/// `leaves` and the middle nodes `mids`: one for the page itself where the
/// area is framed, and one for each node of the tree that is missing and that
/// no earlier page of the run has brought.
pub open spec fn page_cost(
    leaves: Set<int>,
    mids: Set<int>,
    start: int,
    vpn: int,
    framed: bool,
) -> nat {
    let own: nat = if framed { 1 } else { 0 };
    let leaf: nat = if !leaves.contains(vpn / 512) && (vpn == start || vpn % 512 == 0) {
        1
    } else {
        0
    };
    let mid: nat = if !mids.contains(vpn / 512 / 512) && (vpn == start || vpn % 262144 == 0) {
        1
    } else {
        0
    };
    own + leaf + mid
}

/// The number of frames that mapping the pages `start .. end` takes in a
/// translation tree with the leaves `leaves` and the middle nodes `mids`.
pub open spec fn frames_for(
    leaves: Set<int>,
    mids: Set<int>,
    start: int,
    end: int,
    framed: bool,
) -> nat
    decreases end - start,
{
    if end <= start {
        0
    } else {
        frames_for(leaves, mids, start, end - 1, framed) + page_cost(
            leaves,
            mids,
            start,
            end - 1,
            framed,
        )
    }
}

/// A longer run never takes fewer frames.
pub proof fn lemma_frames_for_grows(
    leaves: Set<int>,
    mids: Set<int>,
    start: int,
    mid: int,
    end: int,
    framed: bool,
)
    requires
        start <= mid <= end,
    ensures
        frames_for(leaves, mids, start, mid, framed) <= frames_for(
            leaves,
            mids,
            start,
            end,
            framed,
        ),
    decreases end - mid,
{
    if mid < end {
        lemma_frames_for_grows(leaves, mids, start, mid, end - 1, framed);
    }
}

impl MemorySetView {
    /// What holds of the view of every address space: the mapped pages are
    /// pages and their entries are valid, the pages with frames of their own
    /// are mapped and are not the trampoline, each frame holds one page of
    /// bytes, and the trampoline is mapped for the kernel to read and
    /// execute.
    pub open spec fn wf(self) -> bool {
        &&& forall|vpn: int| #[trigger]
            self.mappings.contains_key(vpn) ==> 0 <= vpn < VPN_LIMIT
                && self.mappings[vpn].spec_is_valid()
        &&& forall|vpn: int| #[trigger]
            self.frames.contains_key(vpn) ==> self.mappings.contains_key(vpn) && vpn
                != TRAMPOLINE_VPN && self.frames[vpn].len() == PAGE_SIZE
        &&& self.mappings.contains_key(TRAMPOLINE_VPN as int)
        &&& self.mappings[TRAMPOLINE_VPN as int].spec_flags() == PTE_R | PTE_X | PTE_V
    }

    /// Whether page `vpn` has a frame of its own and is mapped with every
    /// flag of `flags`.
    pub open spec fn accessible(self, vpn: int, flags: u8) -> bool {
        &&& self.frames.contains_key(vpn)
        &&& self.mappings.contains_key(vpn)
        &&& has_flags(self.mappings[vpn].spec_flags(), flags)
    }

    /// Whether each of the `len` bytes from address `addr` on lies in a page
    /// that is accessible with `flags`.
    pub open spec fn span_accessible(self, addr: int, len: int, flags: u8) -> bool {
        &&& 0 <= addr
        &&& addr + len <= VA_LIMIT
        &&& forall|a: int| addr <= a < addr + len ==> self.accessible(#[trigger] (a / 4096), flags)
    }

    /// The byte at address `addr`.
    pub open spec fn byte(self, addr: int) -> u8 {
        self.frames[addr / 4096][addr % 4096]
    }

    /// The `len` bytes from address `addr` on.
    pub open spec fn bytes(self, addr: int, len: int) -> Seq<u8> {
        Seq::new(len as nat, |i: int| self.byte(addr + i))
    }

    /// The address space with `data` stored from address `addr` on and
    /// everything else as it is.
    pub open spec fn with_bytes(self, addr: int, data: Seq<u8>) -> MemorySetView {
        MemorySetView {
            mappings: self.mappings,
            frames: Map::new(
                |vpn: int| self.frames.contains_key(vpn),
                |vpn: int|
                    Seq::new(
                        PAGE_SIZE as nat,
                        |offset: int|
                            if addr <= vpn * 4096 + offset < addr + data.len() {
                                data[vpn * 4096 + offset - addr]
                            } else {
                                self.frames[vpn][offset]
                            },
                    ),
            ),
            root: self.root,
            leaves: self.leaves,
            mids: self.mids,
            nodes: self.nodes,
        }
    }

    /// Whether no frame serves the address space twice: no two pages with
    /// frames of their own have the same frame, and none has a frame in which
    /// a node of the translation tree lies.
    pub open spec fn exclusive(self) -> bool {
        &&& forall|v1: int, v2: int|
            self.frames.contains_key(v1) && self.frames.contains_key(v2) && v1 != v2 ==> (
            #[trigger] self.mappings[v1]).spec_ppn() != (#[trigger] self.mappings[v2]).spec_ppn()
        &&& forall|vpn: int|
            self.frames.contains_key(vpn) ==> !self.nodes.contains(
                (#[trigger] self.mappings[vpn]).spec_ppn(),
            )
    }

    /// Whether every frame that the address space owns is allocated in
    /// `pool`.
    pub open spec fn held_in(self, pool: FrameAllocator) -> bool {
        forall|ppn: int| #[trigger] self.owns(ppn) ==> pool.is_allocated(ppn)
    }

    /// Bytes that are stored change nothing about the frames that the
    /// address space owns.
    pub proof fn lemma_with_bytes_owns(self, addr: int, data: Seq<u8>)
        ensures
            forall|ppn: int| #[trigger] self.with_bytes(addr, data).owns(ppn) == self.owns(ppn),
            self.with_bytes(addr, data).exclusive() == self.exclusive(),
    {
        let post = self.with_bytes(addr, data);
        assert(post.mappings == self.mappings);
        assert(post.nodes == self.nodes);
        assert forall|vpn: int| post.frames.contains_key(vpn) == self.frames.contains_key(vpn) by {}
        assert forall|ppn: int| #[trigger] post.owns(ppn) == self.owns(ppn) by {
            if exists|vpn: int|
                self.frames.contains_key(vpn) && (#[trigger] self.mappings[vpn]).spec_ppn()
                    == ppn {
                let vpn = choose|vpn: int|
                    self.frames.contains_key(vpn) && (#[trigger] self.mappings[vpn]).spec_ppn()
                        == ppn;
                assert(post.frames.contains_key(vpn) && post.mappings[vpn].spec_ppn() == ppn);
            }
            if exists|vpn: int|
                post.frames.contains_key(vpn) && (#[trigger] post.mappings[vpn]).spec_ppn()
                    == ppn {
                let vpn = choose|vpn: int|
                    post.frames.contains_key(vpn) && (#[trigger] post.mappings[vpn]).spec_ppn()
                        == ppn;
                assert(self.frames.contains_key(vpn) && self.mappings[vpn].spec_ppn() == ppn);
            }
        }
        if self.exclusive() {
            assert forall|v1: int, v2: int|
                post.frames.contains_key(v1) && post.frames.contains_key(v2) && v1
                    != v2 implies (#[trigger] post.mappings[v1]).spec_ppn() != (
            #[trigger] post.mappings[v2]).spec_ppn() by {
                assert(self.frames.contains_key(v1) && self.frames.contains_key(v2));
            }
            assert forall|vpn: int| post.frames.contains_key(vpn) implies !post.nodes.contains(
                (#[trigger] post.mappings[vpn]).spec_ppn(),
            ) by {
                assert(self.frames.contains_key(vpn));
            }
        }
        if post.exclusive() {
            assert forall|v1: int, v2: int|
                self.frames.contains_key(v1) && self.frames.contains_key(v2) && v1
                    != v2 implies (#[trigger] self.mappings[v1]).spec_ppn() != (
            #[trigger] self.mappings[v2]).spec_ppn() by {
                assert(post.frames.contains_key(v1) && post.frames.contains_key(v2));
            }
            assert forall|vpn: int| self.frames.contains_key(vpn) implies !self.nodes.contains(
                (#[trigger] self.mappings[vpn]).spec_ppn(),
            ) by {
                assert(post.frames.contains_key(vpn));
            }
        }
    }

    /// Whether the address space owns frame `ppn`: a node of its translation
    /// tree lies in it, or a page that has a frame of its own is mapped to it.
    pub open spec fn owns(self, ppn: int) -> bool {
        self.nodes.contains(ppn) || exists|vpn: int|
            self.frames.contains_key(vpn) && (#[trigger] self.mappings[vpn]).spec_ppn() == ppn
    }

    /// The number of frames that mapping the pages `start .. end` takes: one
    /// for each page where the area is framed, and one for each node of the
    /// translation tree that is missing above them.
    pub open spec fn frames_needed(self, start: int, end: int, framed: bool) -> nat {
        frames_for(self.leaves, self.mids, start, end, framed)
    }

    /// What inserting an area over the pages `start .. end` answers when
    /// `free` frames are free.
    pub open spec fn insert_outcome(self, free: nat, start: int, end: int, framed: bool) -> Result<
        (),
        MemoryError,
    > {
        if !(start <= end <= VPN_LIMIT) {
            Err(MemoryError::InvalidRange)
        } else if exists|vpn: int| start <= vpn < end && self.mappings.contains_key(vpn) {
            Err(MemoryError::AlreadyMapped)
        } else if free < self.frames_needed(start, end, framed) {
            Err(MemoryError::OutOfMemory)
        } else {
            Ok(())
        }
    }

    /// What removing the pages `start .. end` answers.
    pub open spec fn remove_outcome(self, start: int, end: int) -> Result<(), MemoryError> {
        if !(start <= end <= VPN_LIMIT) {
            Err(MemoryError::InvalidRange)
        } else if exists|vpn: int| start <= vpn < end && !self.frames.contains_key(vpn) {
            Err(MemoryError::NotMapped)
        } else {
            Ok(())
        }
    }

    /// How the nodes of the translation tree of `self` relate to those of
    /// `pre` after the pages `start .. end` were mapped: the nodes that were
    /// there stay, and the nodes above the new pages are there.
    pub open spec fn tables_grown(self, pre: MemorySetView, start: int, end: int) -> bool {
        &&& forall|prefix: int| #[trigger]
            self.leaves.contains(prefix) == (pre.leaves.contains(prefix) || (start < end && start
                / 512 <= prefix <= (end - 1) / 512))
        &&& forall|top: int| #[trigger]
            self.mids.contains(top) == (pre.mids.contains(top) || (start < end && start / 512
                / 512 <= top <= (end - 1) / 512 / 512))
    }
}

/// An address space.
pub struct MemorySet {
    page_table: PageTable,
    areas: Vec<MapArea>,
}

impl MemorySet {
    /// Whether some area holds page `vpn`.
    pub closed spec fn covered(&self, vpn: int) -> bool {
        exists|i: int| 0 <= i < self.areas@.len() && (#[trigger] self.areas@[i]).covers(vpn)
    }

    /// The index of an area that holds page `vpn`.
    pub closed spec fn area_of(&self, vpn: int) -> int {
        choose|i: int| 0 <= i < self.areas@.len() && (#[trigger] self.areas@[i]).covers(vpn)
    }

    /// Whether page `vpn` has a frame of its own.
    pub closed spec fn framed(&self, vpn: int) -> bool {
        self.covered(vpn) && self.areas@[self.area_of(vpn)].spec_map_type() == MapType::Framed
    }

    /// The mappings, the frames and the root of the address space.
    pub closed spec fn view(&self) -> MemorySetView {
        MemorySetView {
            mappings: self.page_table@,
            frames: Map::new(
                |vpn: int| self.framed(vpn),
                |vpn: int| self.areas@[self.area_of(vpn)].data(vpn),
            ),
            root: self.page_table.spec_root()@,
            leaves: Set::new(|prefix: int| self.page_table.has_leaf(prefix)),
            mids: Set::new(|top: int| self.page_table.has_mid(top)),
            nodes: Set::new(|ppn: int| self.page_table.owns_node(ppn)),
        }
    }

    /// The number of areas.
    pub closed spec fn spec_area_count(&self) -> nat {
        self.areas@.len()
    }

    /// The area at position `i`.
    pub closed spec fn spec_area(&self, i: int) -> MapArea {
        self.areas@[i]
    }

    /// What the invariant says of the areas: each is well formed, no two
    /// share a page, and the pages of each are mapped as the area says.
    pub proof fn lemma_areas(&self)
        requires
            self.wf(),
        ensures
            forall|i: int| 0 <= i < self.spec_area_count() ==> (#[trigger] self.spec_area(i)).wf(),
            forall|i: int, j: int, vpn: int|
                0 <= i < j < self.spec_area_count() ==> !(#[trigger] self.spec_area(i).covers(vpn)
                    && #[trigger] self.spec_area(j).covers(vpn)),
            forall|i: int, vpn: int|
                0 <= i < self.spec_area_count() && #[trigger] self.spec_area(i).covers(vpn) ==> {
                    &&& self@.mappings.contains_key(vpn)
                    &&& self@.mappings[vpn] == self.spec_area(i).entry(vpn)
                    &&& self@.frames.contains_key(vpn) == (self.spec_area(i).spec_map_type()
                        == MapType::Framed)
                },
    {
        assert forall|i: int, j: int, vpn: int| 0 <= i < j < self.spec_area_count() implies !(
        #[trigger] self.spec_area(i).covers(vpn) && #[trigger] self.spec_area(j).covers(vpn)) by {
            assert(self.areas@[i].end <= self.areas@[j].start || self.areas@[j].end
                <= self.areas@[i].start);
        }
        assert forall|i: int, vpn: int|
            0 <= i < self.spec_area_count() && #[trigger] self.spec_area(i).covers(vpn) implies {
            &&& self@.mappings.contains_key(vpn)
            &&& self@.mappings[vpn] == self.spec_area(i).entry(vpn)
            &&& self@.frames.contains_key(vpn) == (self.spec_area(i).spec_map_type()
                == MapType::Framed)
        } by {
            self.lemma_area_pages(i, vpn);
        }
    }

    /// The number of areas.
    pub fn area_count(&self) -> (n: usize)
        ensures
            n == self.spec_area_count(),
    {
        self.areas.len()
    }

    /// The area at position `i`. New areas come last; an area of which pages
    /// in its middle were removed stays in its place with the pages before
    /// them, and the pages behind them make a new area.
    pub fn area(&self, i: usize) -> (area: &MapArea)
        requires
            i < self.spec_area_count(),
        ensures
            *area == self.spec_area(i as int),
    {
        &self.areas[i]
    }

    /// The address space's invariant: no two areas share a page, the tree maps
    /// each page of each area to that page's frame with the area's
    /// permission, and besides those it maps the trampoline and nothing else.
    pub closed spec fn wf(&self) -> bool {
        &&& self.page_table.wf()
        &&& forall|i: int| 0 <= i < self.areas@.len() ==> (#[trigger] self.areas@[i]).wf()
        &&& forall|i: int, j: int|
            0 <= i < j < self.areas@.len() ==> {
                ||| (#[trigger] self.areas@[i]).end <= (#[trigger] self.areas@[j]).start
                ||| self.areas@[j].end <= self.areas@[i].start
            }
        &&& forall|i: int, vpn: int|
            0 <= i < self.areas@.len() && #[trigger] self.areas@[i].covers(vpn) ==> {
                &&& self.page_table@.contains_key(vpn)
                &&& self.page_table@[vpn] == self.areas@[i].entry(vpn)
            }
        &&& forall|vpn: int| #[trigger]
            self.page_table@.contains_key(vpn) ==> vpn == TRAMPOLINE_VPN || self.covered(vpn)
        &&& self.page_table@.contains_key(TRAMPOLINE_VPN as int)
        &&& self.page_table@[TRAMPOLINE_VPN as int].spec_flags() == PTE_R | PTE_X | PTE_V
    }

    /// In a well-formed address space the area at `i` is the only one that
    /// holds its pages, so the view shows each of its pages as that area has it.
    proof fn lemma_area_pages(&self, i: int, vpn: int)
        requires
            self.wf(),
            0 <= i < self.areas@.len(),
            self.areas@[i].covers(vpn),
        ensures
            self.covered(vpn),
            self.area_of(vpn) == i,
            self.framed(vpn) == (self.areas@[i].spec_map_type() == MapType::Framed),
            self@.mappings.contains_key(vpn),
            self@.mappings[vpn] == self.areas@[i].entry(vpn),
            self.framed(vpn) ==> self@.frames[vpn] == self.areas@[i].data(vpn),
            vpn != TRAMPOLINE_VPN,
    {
        let j = self.area_of(vpn);
        assert(self.areas@[j].covers(vpn));
        assert(self.areas@[i].wf());
        assert(self.areas@[j].wf());
        if i < j {
            assert(self.areas@[i].end <= self.areas@[j].start || self.areas@[j].end
                <= self.areas@[i].start);
        } else if j < i {
            assert(self.areas@[j].end <= self.areas@[i].start || self.areas@[i].end
                <= self.areas@[j].start);
        }
    }

    /// What the invariant says of the view: the pages with frames are mapped,
    /// each frame holds one page of bytes, every mapped page but the
    /// trampoline belongs to an area, and the trampoline is mapped for the
    /// kernel to read and execute.
    pub proof fn lemma_view(&self)
        requires
            self.wf(),
        ensures
            self@.wf(),
            forall|vpn: int| #[trigger]
                self@.frames.contains_key(vpn) ==> self@.mappings.contains_key(vpn) && vpn
                    != TRAMPOLINE_VPN,
            forall|vpn: int| #[trigger]
                self@.frames.contains_key(vpn) ==> self@.frames[vpn].len() == PAGE_SIZE,
            forall|vpn: int| #[trigger]
                self@.mappings.contains_key(vpn) ==> 0 <= vpn < VPN_LIMIT
                    && self@.mappings[vpn].spec_is_valid(),
            self@.mappings.contains_key(TRAMPOLINE_VPN as int),
            self@.mappings[TRAMPOLINE_VPN as int].spec_flags() == PTE_R | PTE_X | PTE_V,
    {
        assert forall|vpn: int| #[trigger] self@.frames.contains_key(vpn) implies {
            &&& self@.mappings.contains_key(vpn)
            &&& vpn != TRAMPOLINE_VPN
            &&& self@.frames[vpn].len() == PAGE_SIZE
        } by {
            let i = self.area_of(vpn);
            self.lemma_area_pages(i, vpn);
            self.areas@[i].lemma_wf();
        }
        assert forall|vpn: int| #[trigger] self@.mappings.contains_key(vpn) implies 0 <= vpn
            < VPN_LIMIT && self@.mappings[vpn].spec_is_valid() by {
            self.page_table.lemma_walk(vpn);
        }
    }

    /// Whether one of the first `n` areas owns frame `ppn`.
    spec fn area_owns_below(&self, n: int, ppn: int) -> bool {
        exists|i: int| 0 <= i < n && (#[trigger] self.areas@[i]).owns_frame(ppn)
    }

    /// The frames that the address space owns are the frames of the nodes of
    /// its tree and the frames that its areas own.
    proof fn lemma_owns(&self, ppn: int)
        requires
            self.wf(),
        ensures
            self@.owns(ppn) <==> (self.page_table.owns_node(ppn) || self.area_owns_below(
                self.areas@.len() as int,
                ppn,
            )),
    {
        if self.area_owns_below(self.areas@.len() as int, ppn) {
            let i = choose|i: int|
                0 <= i < self.areas@.len() && (#[trigger] self.areas@[i]).owns_frame(ppn);
            assert(self.areas@[i].wf());
            self.areas@[i].lemma_owns_frame(ppn);
            let vpn = choose|vpn: int|
                self.areas@[i].backs(vpn) && #[trigger] self.areas@[i].spec_ppn(vpn) == ppn;
            self.lemma_area_pages(i, vpn);
            self.areas@[i].lemma_wf();
            PageTableEntry::lemma_new(ppn, self.areas@[i].spec_perm()@ | PTE_V);
            assert(self@.frames.contains_key(vpn) && self@.mappings[vpn].spec_ppn() == ppn);
        }
        if exists|vpn: int|
            self@.frames.contains_key(vpn) && (#[trigger] self@.mappings[vpn]).spec_ppn() == ppn {
            let vpn = choose|vpn: int|
                self@.frames.contains_key(vpn) && (#[trigger] self@.mappings[vpn]).spec_ppn()
                    == ppn;
            let i = self.area_of(vpn);
            assert(self.areas@[i].covers(vpn));
            self.lemma_area_pages(i, vpn);
            self.areas@[i].lemma_wf();
            PageTableEntry::lemma_new(
                self.areas@[i].spec_ppn(vpn),
                self.areas@[i].spec_perm()@ | PTE_V,
            );
            assert(self.areas@[i].backs(vpn) && self.areas@[i].spec_ppn(vpn) == ppn);
            assert(self.areas@[i].wf());
            self.areas@[i].lemma_owns_frame(ppn);
        }
    }

    /// Gives every frame that the address space owns back to `pool`: the
    /// frames of its pages and the frames of the nodes of its translation
    /// tree. The address space is gone with them.
    pub fn release(self, pool: &mut FrameAllocator)
        requires
            self.wf(),
            old(pool).wf(),
        ensures
            final(pool).wf(),
            final(pool).spec_start() == old(pool).spec_start(),
            final(pool).spec_end() == old(pool).spec_end(),
            forall|p: int|
                final(pool).is_free(p) == (old(pool).is_free(p) || (old(pool).manages(p)
                    && self@.owns(p))),
    {
        let ghost whole = self;
        let MemorySet { page_table, mut areas } = self;
        let ghost all = areas@;
        while areas.len() > 0
            invariant
                whole.wf(),
                all == whole.areas@,
                areas@.len() <= all.len(),
                areas@ =~= all.take(areas@.len() as int),
                pool.wf(),
                pool.spec_start() == old(pool).spec_start(),
                pool.spec_end() == old(pool).spec_end(),
                forall|p: int|
                    pool.is_free(p) == (old(pool).is_free(p) || (old(pool).manages(p) && exists|
                        i: int,
                    |
                        areas@.len() <= i < all.len() && (#[trigger] all[i]).owns_frame(p))),
            decreases areas@.len(),
        {
            let ghost n = areas@.len() as int;
            let area = areas.pop().unwrap();
            proof {
                assert(area == all[n - 1]);
                assert(area.wf());
            }
            area.release(pool);
            proof {
                assert forall|p: int|
                    pool.is_free(p) == (old(pool).is_free(p) || (old(pool).manages(p) && exists|
                        i: int,
                    |
                        n - 1 <= i < all.len() && (#[trigger] all[i]).owns_frame(p))) by {
                    if exists|i: int| n - 1 <= i < all.len() && (#[trigger] all[i]).owns_frame(p) {
                        let i = choose|i: int|
                            n - 1 <= i < all.len() && (#[trigger] all[i]).owns_frame(p);
                        if i >= n {
                            assert(n <= i < all.len() && all[i].owns_frame(p));
                        }
                    }
                    if exists|i: int| n <= i < all.len() && (#[trigger] all[i]).owns_frame(p) {
                        let i = choose|i: int|
                            n <= i < all.len() && (#[trigger] all[i]).owns_frame(p);
                        assert(n - 1 <= i < all.len() && all[i].owns_frame(p));
                    }
                    if area.owns_frame(p) {
                        assert(n - 1 <= n - 1 < all.len() && all[n - 1].owns_frame(p));
                    }
                }
            }
        }
        page_table.release(pool);
        proof {
            assert forall|p: int|
                pool.is_free(p) == (old(pool).is_free(p) || (old(pool).manages(p) && whole@.owns(
                    p,
                ))) by {
                whole.lemma_owns(p);
                if whole.area_owns_below(all.len() as int, p) {
                    let i = choose|i: int| 0 <= i < all.len() && (#[trigger] all[i]).owns_frame(p);
                    assert(0 <= i < all.len() && all[i].owns_frame(p));
                }
                if exists|i: int| 0 <= i < all.len() && (#[trigger] all[i]).owns_frame(p) {
                    assert(whole.area_owns_below(all.len() as int, p));
                }
            }
        }
    }

    /// The value that selects this address space in the address-translation
    /// register.
    pub fn token(&self) -> (token: u64)
        requires
            self.wf(),
        ensures
            token == SATP_MODE + self@.root,
    {
        self.page_table.token()
    }

    /// Walks the translation tree for page `vpn` without changing anything.
    /// Returns the entry in the page's leaf, or nothing where the leaf is
    /// missing. The page is mapped exactly when an entry is returned and is
    /// valid; the entry of a page that is not mapped is zero.
    pub fn translate(&self, vpn: VirtPageNum) -> (found: Option<PageTableEntry>)
        requires
            self.wf(),
            vpn.wf(),
        ensures
            found is Some <==> self@.leaves.contains(vpn@ / 512),
            self@.mappings.contains_key(vpn@) <==> (found matches Some(pte)
                && pte.spec_is_valid()),
            self@.mappings.contains_key(vpn@) ==> found == Some(self@.mappings[vpn@]),
            !self@.mappings.contains_key(vpn@) && found is Some ==> found == Some(
                PageTableEntry { bits: 0 },
            ),
    {
        self.page_table.translate(vpn)
    }

    /// Whether page `vpn` is mapped.
    pub fn is_mapped(&self, vpn: VirtPageNum) -> (yes: bool)
        requires
            self.wf(),
            vpn.wf(),
        ensures
            yes == self@.mappings.contains_key(vpn@),
    {
        match self.page_table.translate(vpn) {
            Some(pte) => pte.is_valid(),
            None => false,
        }
    }

    /// The position of the area that holds page `vpn`, if there is one.
    fn find_area(&self, vpn: u64) -> (found: Option<usize>)
        requires
            self.wf(),
        ensures
            found is Some <==> self.covered(vpn as int),
            found matches Some(i) ==> i < self.areas@.len() && self.areas@[i as int].covers(
                vpn as int,
            ) && self.area_of(vpn as int) == i,
    {
        let mut i: usize = 0;
        while i < self.areas.len()
            invariant
                i <= self.areas@.len(),
                self.wf(),
                forall|k: int| 0 <= k < i ==> !(#[trigger] self.areas@[k]).covers(vpn as int),
            decreases self.areas@.len() - i,
        {
            if self.areas[i].start <= vpn && vpn < self.areas[i].end {
                proof {
                    self.lemma_area_pages(i as int, vpn as int);
                }
                return Some(i);
            }
            i += 1;
        }
        None
    }

    /// Whether page `vpn` has a frame of its own.
    pub fn is_framed(&self, vpn: VirtPageNum) -> (yes: bool)
        requires
            self.wf(),
        ensures
            yes == self@.frames.contains_key(vpn@),
    {
        match self.find_area(vpn.0) {
            Some(i) => self.areas[i].map_type == MapType::Framed,
            None => false,
        }
    }

    /// An address space that holds nothing but what every address space
    /// holds: the trampoline, mapped to frame `trampoline` for the kernel to
    /// read and execute, and below it the trap-context page, a cleared frame
    /// of its own for the kernel to read and write. It takes `BARE_FRAMES`
    /// frames of `pool`, and fails with `OutOfMemory` exactly when fewer are
    /// free; `pool` is then left as it is.
    pub fn new_bare(pool: &mut FrameAllocator, trampoline: PhysPageNum) -> (made: Result<
        MemorySet,
        MemoryError,
    >)
        requires
            old(pool).wf(),
            trampoline.wf(),
        ensures
            final(pool).wf(),
            final(pool).spec_start() == old(pool).spec_start(),
            final(pool).spec_end() == old(pool).spec_end(),
            made is Ok <==> old(pool).free_count() >= BARE_FRAMES,
            made matches Ok(space) ==> {
                &&& space.wf()
                &&& space@.mappings.dom() =~= set![TRAMPOLINE_VPN as int, TRAP_CONTEXT_VPN as int]
                &&& space@.mappings[TRAMPOLINE_VPN as int] == PageTableEntry::spec_new(
                    trampoline@,
                    PTE_R | PTE_X | PTE_V,
                )
                &&& space@.mappings[TRAP_CONTEXT_VPN as int].spec_flags() == PERM_R | PERM_W
                    | PTE_V
                &&& old(pool).is_free(space@.mappings[TRAP_CONTEXT_VPN as int].spec_ppn())
                &&& space@.frames =~= map![TRAP_CONTEXT_VPN as int => Seq::new(PAGE_SIZE as nat, |i: int| 0u8)]
                &&& old(pool).is_free(space@.root)
                &&& space@.leaves =~= set![TRAMPOLINE_VPN as int / 512]
                &&& space@.mids =~= set![TRAMPOLINE_VPN as int / 512 / 512]
                &&& final(pool).free_count() == old(pool).free_count() - BARE_FRAMES
                &&& forall|p: int| final(pool).is_free(p) ==> old(pool).is_free(p)
                &&& !final(pool).is_free(space@.root)
                &&& !final(pool).is_free(space@.mappings[TRAP_CONTEXT_VPN as int].spec_ppn())
                &&& forall|p: int| #[trigger]
                    space@.owns(p) == (old(pool).is_free(p) && !final(pool).is_free(p))
                &&& space@.exclusive()
                &&& space@.held_in(*final(pool))
            },
            made matches Err(e) ==> e == MemoryError::OutOfMemory && *final(pool) == *old(pool),
    {
        if pool.available() < BARE_FRAMES {
            return Err(MemoryError::OutOfMemory);
        }
        let mut page_table = PageTable::new(pool).unwrap();
        let mapped = page_table.map(
            pool,
            VirtPageNum(TRAMPOLINE_VPN),
            trampoline,
            PTE_R | PTE_X,
        );
        assert(mapped is Ok);
        assert(PTE_R | PTE_X | PTE_V == 0x0b && PERM_R | PERM_W | PTE_V == 0x07 && is_permission(
            PERM_R | PERM_W,
        )) by (bit_vector);
        proof {
            assert forall|p: int| #[trigger] page_table.owns_node(p) implies !pool.is_free(p) by {}
        }
        let ppn = pool.allocate().unwrap();
        proof {
            page_table.lemma_walk(TRAP_CONTEXT_VPN as int);
            page_table.lemma_walk(TRAMPOLINE_VPN as int);
            assert(!page_table.owns_node(ppn@));
        }
        let mapped = page_table.map(pool, VirtPageNum(TRAP_CONTEXT_VPN), ppn, PERM_R | PERM_W);
        assert(mapped is Ok);
        let mut frames: Vec<FrameTracker> = Vec::new();
        frames.push(FrameTracker::new(ppn));
        let area = MapArea {
            start: TRAP_CONTEXT_VPN,
            end: TRAMPOLINE_VPN,
            map_type: MapType::Framed,
            perm: MapPermission { bits: PERM_R | PERM_W },
            frames,
        };
        let mut areas: Vec<MapArea> = Vec::new();
        areas.push(area);
        let space = MemorySet { page_table, areas };
        proof {
            PageTableEntry::lemma_new(ppn@, PERM_R | PERM_W | PTE_V);
            PageTableEntry::lemma_new(trampoline@, PTE_R | PTE_X | PTE_V);
            assert(space.areas@[0].covers(TRAP_CONTEXT_VPN as int));
            assert(space.covered(TRAP_CONTEXT_VPN as int));
            assert(space.wf());
            space.lemma_area_pages(0, TRAP_CONTEXT_VPN as int);
            assert(space@.mappings.dom() =~= set![
                TRAMPOLINE_VPN as int,
                TRAP_CONTEXT_VPN as int,
            ]);
            assert forall|vpn: int| space.framed(vpn) implies vpn == TRAP_CONTEXT_VPN by {
                let i = space.area_of(vpn);
                assert(space.areas@[i].covers(vpn));
            }
            assert(space@.frames =~= map![TRAP_CONTEXT_VPN as int => Seq::new(PAGE_SIZE as nat, |i: int| 0u8)]);
            assert forall|p: int|
                space@.owns(p) == (old(pool).is_free(p) && !pool.is_free(p)) by {
                if p == ppn@ {
                    assert(space@.frames.contains_key(TRAP_CONTEXT_VPN as int)
                        && space@.mappings[TRAP_CONTEXT_VPN as int].spec_ppn() == p);
                }
                if exists|vpn: int|
                    space@.frames.contains_key(vpn) && (#[trigger] space@.mappings[vpn]).spec_ppn()
                        == p {
                    let vpn = choose|vpn: int|
                        space@.frames.contains_key(vpn) && (
                        #[trigger] space@.mappings[vpn]).spec_ppn() == p;
                    assert(vpn == TRAP_CONTEXT_VPN);
                }
            }
            old(pool).lemma_free_frames();
            assert(space@.exclusive());
            assert(space@.held_in(*pool));
        }
        Ok(space)
    }

    /// The number of frames that mapping the pages `start .. end` takes.
    pub fn count_frames_needed(&self, start: VirtPageNum, end: VirtPageNum, framed: bool) -> (n:
        u64)
        requires
            self.wf(),
            start@ <= end@ <= VPN_LIMIT,
        ensures
            n == self@.frames_needed(start@, end@, framed),
            n <= 3 * (end@ - start@),
    {
        let mut n: u64 = 0;
        let mut v: u64 = start.0;
        while v < end.0
            invariant
                start@ <= v <= end@ <= VPN_LIMIT,
                self.wf(),
                n == self@.frames_needed(start@, v as int, framed),
                n <= 3 * (v - start@),
            decreases end@ - v,
        {
            let missing: u64 = self.page_table.count_missing(VirtPageNum(v));
            proof {
                self.page_table.lemma_walk(v as int);
            }
            if framed {
                n += 1;
            }
            if missing >= 1 && (v == start.0 || v % 512 == 0) {
                n += 1;
            }
            if missing == 2 && (v == start.0 || v % 262144 == 0) {
                n += 1;
            }
            v += 1;
        }
        n
    }

    /// Maps the pages `start .. end`, each to a cleared frame of its own from
    /// `pool`, with permission `perm`, and records them as one area.
    ///
    /// Refused, with the address space and `pool` left as they are:
    /// `InvalidRange` where `start .. end` is no range of pages; else
    /// `AlreadyMapped` where a page of the range is mapped; else
    /// `OutOfMemory` where `pool` has fewer free frames than the pages and
    /// the missing nodes of the tree take.
    pub fn insert_framed_area(
        &mut self,
        pool: &mut FrameAllocator,
        start: VirtPageNum,
        end: VirtPageNum,
        perm: MapPermission,
    ) -> (done: Result<(), MemoryError>)
        requires
            old(self).wf(),
            old(pool).wf(),
            perm.wf(),
        ensures
            final(self).wf(),
            final(pool).wf(),
            final(pool).spec_start() == old(pool).spec_start(),
            final(pool).spec_end() == old(pool).spec_end(),
            done == old(self)@.insert_outcome(old(pool).free_count(), start@, end@, true),
            done is Ok ==> {
                &&& inserted(old(self)@, final(self)@, start@, end@, perm@ | PTE_V, true)
                &&& final(pool).free_count() == old(pool).free_count() - old(self)@.frames_needed(
                    start@,
                    end@,
                    true,
                )
                &&& forall|p: int| final(pool).is_free(p) ==> old(pool).is_free(p)
                &&& forall|vpn: int|
                    start@ <= vpn < end@ ==> {
                        &&& old(pool).is_free((#[trigger] final(self)@.mappings[vpn]).spec_ppn())
                        &&& !final(pool).is_free(final(self)@.mappings[vpn].spec_ppn())
                    }
                &&& final(self)@.tables_grown(old(self)@, start@, end@)
                &&& forall|p: int| #[trigger]
                    final(self)@.owns(p) == (old(self)@.owns(p) || (old(pool).is_free(p)
                        && !final(pool).is_free(p)))
                &&& old(self)@.exclusive() && old(self)@.held_in(*old(pool)) ==> final(self)@.exclusive() && final(self)@.held_in(*final(pool))
            },
            done is Err ==> final(self)@ == old(self)@ && *final(pool) == *old(pool)
                && final(self)@.tables_grown(old(self)@, 0, 0),
    {
        self.insert_area(pool, start, end, MapType::Framed, perm)
    }

    /// Maps the pages `start .. end`, each to the frame of its own number,
    /// with permission `perm`, and records them as one area. Only the missing
    /// nodes of the tree take frames of `pool`.
    ///
    /// Refused as `insert_framed_area` is, with the address space and `pool`
    /// left as they are.
    pub fn insert_identical_area(
        &mut self,
        pool: &mut FrameAllocator,
        start: VirtPageNum,
        end: VirtPageNum,
        perm: MapPermission,
    ) -> (done: Result<(), MemoryError>)
        requires
            old(self).wf(),
            old(pool).wf(),
            perm.wf(),
        ensures
            final(self).wf(),
            final(pool).wf(),
            final(pool).spec_start() == old(pool).spec_start(),
            final(pool).spec_end() == old(pool).spec_end(),
            done == old(self)@.insert_outcome(old(pool).free_count(), start@, end@, false),
            done is Ok ==> {
                &&& inserted(old(self)@, final(self)@, start@, end@, perm@ | PTE_V, false)
                &&& final(pool).free_count() == old(pool).free_count() - old(self)@.frames_needed(
                    start@,
                    end@,
                    false,
                )
                &&& forall|p: int| final(pool).is_free(p) ==> old(pool).is_free(p)
                &&& final(self)@.tables_grown(old(self)@, start@, end@)
                &&& forall|p: int| #[trigger]
                    final(self)@.owns(p) == (old(self)@.owns(p) || (old(pool).is_free(p)
                        && !final(pool).is_free(p)))
                &&& old(self)@.exclusive() && old(self)@.held_in(*old(pool)) ==> final(self)@.exclusive() && final(self)@.held_in(*final(pool))
            },
            done is Err ==> final(self)@ == old(self)@ && *final(pool) == *old(pool)
                && final(self)@.tables_grown(old(self)@, 0, 0),
    {
        self.insert_area(pool, start, end, MapType::Identical, perm)
    }

    #[verifier::rlimit(60)]
    fn insert_area(
        &mut self,
        pool: &mut FrameAllocator,
        start: VirtPageNum,
        end: VirtPageNum,
        map_type: MapType,
        perm: MapPermission,
    ) -> (done: Result<(), MemoryError>)
        requires
            old(self).wf(),
            old(pool).wf(),
            perm.wf(),
        ensures
            final(self).wf(),
            final(pool).wf(),
            final(pool).spec_start() == old(pool).spec_start(),
            final(pool).spec_end() == old(pool).spec_end(),
            done == old(self)@.insert_outcome(
                old(pool).free_count(),
                start@,
                end@,
                map_type == MapType::Framed,
            ),
            done is Ok ==> {
                &&& inserted(
                    old(self)@,
                    final(self)@,
                    start@,
                    end@,
                    perm@ | PTE_V,
                    map_type == MapType::Framed,
                )
                &&& final(pool).free_count() == old(pool).free_count() - old(self)@.frames_needed(
                    start@,
                    end@,
                    map_type == MapType::Framed,
                )
                &&& forall|p: int| final(pool).is_free(p) ==> old(pool).is_free(p)
                &&& map_type == MapType::Framed ==> forall|vpn: int|
                    start@ <= vpn < end@ ==> {
                        &&& old(pool).is_free((#[trigger] final(self)@.mappings[vpn]).spec_ppn())
                        &&& !final(pool).is_free(final(self)@.mappings[vpn].spec_ppn())
                    }
                &&& final(self)@.tables_grown(old(self)@, start@, end@)
                &&& forall|p: int| #[trigger]
                    final(self)@.owns(p) == (old(self)@.owns(p) || (old(pool).is_free(p)
                        && !final(pool).is_free(p)))
                &&& old(self)@.exclusive() && old(self)@.held_in(*old(pool)) ==> final(self)@.exclusive() && final(self)@.held_in(*final(pool))
            },
            done is Err ==> final(self)@ == old(self)@ && *final(pool) == *old(pool)
                && final(self)@.tables_grown(old(self)@, 0, 0),
    {
        let framed: bool = map_type == MapType::Framed;
        if start.0 > end.0 || end.0 > VPN_LIMIT {
            return Err(MemoryError::InvalidRange);
        }
        let mut v: u64 = start.0;
        while v < end.0
            invariant
                start@ <= v <= end@ <= VPN_LIMIT,
                self.wf(),
                *self == *old(self),
                *pool == *old(pool),
                pool.wf(),
                forall|u: int| start@ <= u < v ==> !self@.mappings.contains_key(u),
            decreases end@ - v,
        {
            if self.is_mapped(VirtPageNum(v)) {
                return Err(MemoryError::AlreadyMapped);
            }
            v += 1;
        }
        let needed: u64 = self.count_frames_needed(start, end, framed);
        if pool.available() < needed {
            return Err(MemoryError::OutOfMemory);
        }
        if start.0 == end.0 {
            proof {
                assert(page_range(start@, end@) =~= Set::<int>::empty());
                assert(self@.mappings.dom().union(page_range(start@, end@))
                    =~= self@.mappings.dom());
                assert(self@.frames.union_prefer_right(cleared_pages(start@, end@))
                    =~= self@.frames);
            }
            return Ok(());
        }
        proof {
            self.lemma_view();
        }
        let ghost s: int = start@;
        let ghost flags: u8 = perm@ | PTE_V;
        let ghost mut node_frames: Set<int> = Set::empty();
        let mut frames: Vec<FrameTracker> = Vec::new();
        let mut v: u64 = start.0;
        while v < end.0
            invariant
                s == start@,
                flags == perm@ | PTE_V,
                framed == (map_type == MapType::Framed),
                perm.wf(),
                s <= v <= end@ <= TRAMPOLINE_VPN,
                s < end@,
                old(self).wf(),
                old(pool).wf(),
                self.page_table.wf(),
                pool.wf(),
                pool.spec_start() == old(pool).spec_start(),
                pool.spec_end() == old(pool).spec_end(),
                self.areas == old(self).areas,
                self.page_table.spec_root() == old(self).page_table.spec_root(),
                forall|u: int| s <= u < end@ ==> !old(self).page_table@.contains_key(u),
                self.page_table@.dom() =~= old(self).page_table@.dom().union(
                    page_range(s, v as int),
                ),
                forall|u: int| #[trigger]
                    old(self).page_table@.contains_key(u) ==> self.page_table@[u] == old(
                        self,
                    ).page_table@[u],
                framed ==> frames@.len() == v - s,
                !framed ==> frames@.len() == 0,
                forall|k: int|
                    0 <= k < frames@.len() ==> {
                        &&& (#[trigger] frames@[k]).wf()
                        &&& frames@[k].spec_ppn().wf()
                        &&& frames@[k]@ == Seq::new(PAGE_SIZE as nat, |i: int| 0u8)
                        &&& old(pool).is_free(frames@[k].spec_ppn()@)
                        &&& !pool.is_free(frames@[k].spec_ppn()@)
                    },
                forall|j: int, k: int|
                    0 <= j < k < frames@.len() ==> (#[trigger] frames@[j]).spec_ppn() != (
                    #[trigger] frames@[k]).spec_ppn(),
                forall|u: int|
                    s <= u < v ==> #[trigger] self.page_table@[u] == PageTableEntry::spec_new(
                        if framed {
                            frames@[u - s].spec_ppn()@
                        } else {
                            u
                        },
                        flags,
                    ),
                forall|prefix: int| #[trigger]
                    self.page_table.has_leaf(prefix) == (old(self).page_table.has_leaf(prefix)
                        || (s < v && s / 512 <= prefix <= (v - 1) / 512)),
                forall|top: int| #[trigger]
                    self.page_table.has_mid(top) == (old(self).page_table.has_mid(top) || (s < v
                        && s / 512 / 512 <= top <= (v - 1) / 512 / 512)),
                pool.free_count() == old(pool).free_count() - old(self)@.frames_needed(
                    s,
                    v as int,
                    framed,
                ),
                old(pool).free_count() >= old(self)@.frames_needed(s, end@, framed),
                forall|p: int| pool.is_free(p) ==> old(pool).is_free(p),
                forall|p: int| #[trigger]
                    self.page_table.owns_node(p) == (old(self).page_table.owns_node(p)
                        || node_frames.contains(p)),
                forall|k: int|
                    0 <= k < frames@.len() ==> !node_frames.contains(
                        (#[trigger] frames@[k]).spec_ppn()@,
                    ),
                forall|p: int|
                    (old(pool).is_free(p) && !#[trigger] pool.is_free(p)) == (node_frames.contains(p)
                        || exists|k: int|
                        0 <= k < frames@.len() && (#[trigger] frames@[k]).spec_ppn()@ == p),
            decreases end@ - v,
        {
            proof {
                lemma_frames_for_grows(
                    old(self)@.leaves,
                    old(self)@.mids,
                    s,
                    v as int + 1,
                    end@,
                    framed,
                );
                self.page_table.lemma_walk(v as int);
                old(self).page_table.lemma_walk(v as int);
            }
            let ghost before = *pool;
            let ghost frames_before = frames@;
            let ppn: PhysPageNum = if framed {
                let got = pool.allocate().unwrap();
                frames.push(FrameTracker::new(got));
                got
            } else {
                PhysPageNum(v)
            };
            proof {
                if framed {
                    assert forall|k: int| 0 <= k < frames_before.len() implies (
                    #[trigger] frames@[k]).spec_ppn() != ppn by {
                        assert(frames@[k] == frames_before[k]);
                    }
                }
            }
            let ghost pool_mid = *pool;
            let ghost nodes_before = node_frames;
            let mapped = self.page_table.map(pool, VirtPageNum(v), ppn, perm.bits);
            assert(mapped is Ok);
            proof {
                node_frames = Set::new(
                    |p: int| nodes_before.contains(p) || (pool_mid.is_free(p) && !pool.is_free(p)),
                );
                assert forall|p: int| #[trigger]
                    self.page_table.owns_node(p) == (old(self).page_table.owns_node(p)
                        || node_frames.contains(p)) by {}
                assert forall|k: int| 0 <= k < frames@.len() implies !node_frames.contains(
                    (#[trigger] frames@[k]).spec_ppn()@,
                ) by {
                    if k < frames_before.len() {
                        assert(frames@[k] == frames_before[k]);
                    }
                    assert(!pool_mid.is_free(frames@[k].spec_ppn()@));
                }
                assert forall|p: int|
                    (old(pool).is_free(p) && !pool.is_free(p)) == (node_frames.contains(p)
                        || exists|k: int|
                        0 <= k < frames@.len() && (#[trigger] frames@[k]).spec_ppn()@ == p) by {
                    if exists|k: int|
                        0 <= k < frames@.len() && (#[trigger] frames@[k]).spec_ppn()@ == p {
                        let k = choose|k: int|
                            0 <= k < frames@.len() && (#[trigger] frames@[k]).spec_ppn()@ == p;
                        if k < frames_before.len() {
                            assert(frames@[k] == frames_before[k]);
                            assert(0 <= k < frames_before.len() && frames_before[k].spec_ppn()@
                                == p);
                        }
                    }
                    if exists|k: int|
                        0 <= k < frames_before.len() && (#[trigger] frames_before[k]).spec_ppn()@
                            == p {
                        let k = choose|k: int|
                            0 <= k < frames_before.len() && (
                            #[trigger] frames_before[k]).spec_ppn()@ == p;
                        assert(frames@[k] == frames_before[k]);
                        assert(0 <= k < frames@.len() && frames@[k].spec_ppn()@ == p);
                    }
                    if framed && p == ppn@ {
                        let k = frames@.len() - 1;
                        assert(0 <= k < frames@.len() && frames@[k].spec_ppn()@ == p);
                    }
                }
                assert(self.page_table@.dom() =~= old(self).page_table@.dom().union(
                    page_range(s, v as int + 1),
                ));
                assert forall|u: int| s <= u < v + 1 implies #[trigger] self.page_table@[u]
                    == PageTableEntry::spec_new(
                    if framed {
                        frames@[u - s].spec_ppn()@
                    } else {
                        u
                    },
                    flags,
                ) by {
                    if u < v && framed {
                        assert(frames@[u - s] == frames_before[u - s]);
                    }
                }
            }
            v += 1;
        }
        let ghost table = self.page_table;
        let ghost new_frames = frames@;
        let area = MapArea { start: start.0, end: end.0, map_type, perm, frames };
        let ghost old_areas = self.areas@;
        self.areas.push(area);
        proof {
            let n = old_areas.len() as int;
            assert(self.areas@[n] == area);
            assert(area.wf());
            assert forall|vpn: int| area.covers(vpn) implies table@.contains_key(vpn)
                && table@[vpn] == area.entry(vpn) by {
                assert(page_range(s, end@).contains(vpn));
            }
            assert forall|i: int| 0 <= i < n implies (#[trigger] self.areas@[i]).end <= area.start
                || area.end <= self.areas@[i].start by {
                let a = old_areas[i];
                assert(self.areas@[i] == a);
                assert(a.wf());
                if !(a.end <= area.start || area.end <= a.start) {
                    let w: int = if a.start >= area.start {
                        a.start as int
                    } else {
                        area.start as int
                    };
                    assert(a.covers(w));
                    old(self).lemma_area_pages(i, w);
                }
            }
            assert forall|i: int, vpn: int|
                0 <= i < self.areas@.len() && #[trigger] self.areas@[i].covers(vpn) implies {
                &&& table@.contains_key(vpn)
                &&& table@[vpn] == self.areas@[i].entry(vpn)
            } by {
                if i < n {
                    assert(self.areas@[i] == old_areas[i]);
                    old(self).lemma_area_pages(i, vpn);
                }
            }
            assert forall|vpn: int| #[trigger] table@.contains_key(vpn) implies vpn
                == TRAMPOLINE_VPN || self.covered(vpn) by {
                if old(self).page_table@.contains_key(vpn) {
                    if vpn != TRAMPOLINE_VPN {
                        let i = old(self).area_of(vpn);
                        assert(old_areas[i].covers(vpn));
                        assert(self.areas@[i].covers(vpn));
                    }
                } else {
                    assert(page_range(s, end@).contains(vpn));
                    assert(self.areas@[n].covers(vpn));
                }
            }
            assert(self.wf());
            assert forall|vpn: int| self.framed(vpn) == (old(self).framed(vpn) || (framed && s
                <= vpn < end@)) by {
                if s <= vpn < end@ {
                    self.lemma_area_pages(n, vpn);
                    if old(self).covered(vpn) {
                        let i = old(self).area_of(vpn);
                        old(self).lemma_area_pages(i, vpn);
                    }
                } else if old(self).covered(vpn) {
                    let i = old(self).area_of(vpn);
                    assert(self.areas@[i] == old_areas[i]);
                    old(self).lemma_area_pages(i, vpn);
                    self.lemma_area_pages(i, vpn);
                } else if self.covered(vpn) {
                    let i = self.area_of(vpn);
                    assert(self.areas@[i].covers(vpn));
                    if i < n {
                        assert(old_areas[i].covers(vpn));
                    }
                }
            }
            assert forall|vpn: int| self.framed(vpn) implies #[trigger] self@.frames[vpn] == (if s
                <= vpn < end@ {
                Seq::new(PAGE_SIZE as nat, |i: int| 0u8)
            } else {
                old(self)@.frames[vpn]
            }) by {
                if s <= vpn < end@ {
                    self.lemma_area_pages(n, vpn);
                    assert(new_frames[vpn - s]@ == Seq::new(PAGE_SIZE as nat, |i: int| 0u8));
                } else {
                    let i = old(self).area_of(vpn);
                    assert(self.areas@[i] == old_areas[i]);
                    old(self).lemma_area_pages(i, vpn);
                    self.lemma_area_pages(i, vpn);
                }
            }
            if framed {
                assert(self@.frames =~= old(self)@.frames.union_prefer_right(
                    cleared_pages(s, end@),
                ));
            } else {
                assert(self@.frames =~= old(self)@.frames);
            }
            assert forall|vpn: int| s <= vpn < end@ implies (#[trigger] self@.mappings[vpn]).spec_flags()
                == flags && (framed ==> self@.mappings[vpn].spec_ppn() == new_frames[vpn
                - s].spec_ppn()@) && (!framed ==> self@.mappings[vpn].spec_ppn() == vpn) by {
                if framed {
                    PageTableEntry::lemma_new(new_frames[vpn - s].spec_ppn()@, flags);
                } else {
                    PageTableEntry::lemma_new(vpn, flags);
                }
            }
            assert(inserted(old(self)@, self@, s, end@, flags, framed));
            assert forall|p: int|
                self@.owns(p) == (old(self)@.owns(p) || (old(pool).is_free(p) && !pool.is_free(
                    p,
                ))) by {
                assert(self@.nodes.contains(p) == (old(self)@.nodes.contains(p)
                    || node_frames.contains(p)));
                let data = exists|k: int|
                    0 <= k < new_frames.len() && (#[trigger] new_frames[k]).spec_ppn()@ == p;
                assert((old(pool).is_free(p) && !pool.is_free(p)) == (node_frames.contains(p)
                    || data));
                let had = exists|vpn: int|
                    old(self)@.frames.contains_key(vpn) && (
                    #[trigger] old(self)@.mappings[vpn]).spec_ppn() == p;
                let has = exists|vpn: int|
                    self@.frames.contains_key(vpn) && (#[trigger] self@.mappings[vpn]).spec_ppn()
                        == p;
                if data {
                    let k = choose|k: int|
                        0 <= k < new_frames.len() && (#[trigger] new_frames[k]).spec_ppn()@ == p;
                    assert(self@.frames.contains_key(s + k) && self@.mappings[s + k].spec_ppn()
                        == p);
                }
                if had {
                    let vpn = choose|vpn: int|
                        old(self)@.frames.contains_key(vpn) && (
                        #[trigger] old(self)@.mappings[vpn]).spec_ppn() == p;
                    old(self).lemma_view();
                    assert(self@.frames.contains_key(vpn) && self@.mappings[vpn].spec_ppn() == p);
                }
                if has {
                    let vpn = choose|vpn: int|
                        self@.frames.contains_key(vpn) && (#[trigger] self@.mappings[vpn]).spec_ppn()
                            == p;
                    if s <= vpn < end@ {
                        assert(framed);
                        assert(0 <= vpn - s < new_frames.len() && new_frames[vpn
                            - s].spec_ppn()@ == p);
                    } else {
                        old(self).lemma_view();
                        assert(old(self)@.frames.contains_key(vpn) && old(
                            self,
                        )@.mappings[vpn].spec_ppn() == p);
                    }
                }
            }
            if old(self)@.exclusive() && old(self)@.held_in(*old(pool)) {
                old(self).lemma_view();
                old(pool).lemma_free_frames();
                let pre = old(self)@;
                let post = self@;
                // the frame of a page that was there is owned, and so not free before
                assert forall|vpn: int| pre.frames.contains_key(vpn) implies !old(pool).is_free(
                    (#[trigger] post.mappings[vpn]).spec_ppn(),
                ) && post.mappings[vpn] == pre.mappings[vpn] && !(s <= vpn < end@) by {
                    assert(pre.owns(pre.mappings[vpn].spec_ppn()));
                }
                // the frame of a new page was free before and is no frame of a node
                assert forall|vpn: int| s <= vpn < end@ && framed implies old(pool).is_free(
                    (#[trigger] post.mappings[vpn]).spec_ppn(),
                ) && !post.nodes.contains(post.mappings[vpn].spec_ppn()) by {
                    let p = post.mappings[vpn].spec_ppn();
                    assert(new_frames[vpn - s].spec_ppn()@ == p);
                    assert(!node_frames.contains(p));
                    if pre.nodes.contains(p) {
                        assert(pre.owns(p));
                    }
                }
                assert forall|v1: int, v2: int|
                    post.frames.contains_key(v1) && post.frames.contains_key(v2) && v1
                        != v2 implies (#[trigger] post.mappings[v1]).spec_ppn() != (
                #[trigger] post.mappings[v2]).spec_ppn() by {
                    if pre.frames.contains_key(v1) && pre.frames.contains_key(v2) {
                    } else if !pre.frames.contains_key(v1) && !pre.frames.contains_key(v2) {
                        if v1 < v2 {
                            assert(post.mappings[v1].spec_ppn() != post.mappings[v2].spec_ppn());
                        } else {
                            assert(post.mappings[v2].spec_ppn() != post.mappings[v1].spec_ppn());
                        }
                    }
                }
                assert forall|vpn: int| post.frames.contains_key(vpn) implies !post.nodes.contains(
                    (#[trigger] post.mappings[vpn]).spec_ppn(),
                ) by {
                    let p = post.mappings[vpn].spec_ppn();
                    if pre.frames.contains_key(vpn) {
                        assert(!pre.nodes.contains(pre.mappings[vpn].spec_ppn()));
                        if node_frames.contains(p) {
                            assert(old(pool).is_free(p) && !pool.is_free(p));
                        }
                    }
                }
                assert(post.exclusive());
                assert forall|p: int| #[trigger] post.owns(p) implies pool.is_allocated(p) by {
                    assert(post.owns(p) == (pre.owns(p) || (old(pool).is_free(p) && !pool.is_free(
                        p,
                    ))));
                    assert(pool.manages(p) == old(pool).manages(p));
                    if pre.owns(p) {
                        assert(old(pool).is_allocated(p));
                        assert(!pool.is_free(p));
                    } else {
                        assert(old(pool).is_free(p));
                        assert(old(pool).manages(p));
                    }
                }
            }
        }
        Ok(())
    }

    /// Whether no area has pages on both sides of the boundary before page
    /// `at`.
    spec fn cut_at(&self, at: int) -> bool {
        forall|i: int|
            0 <= i < self.areas@.len() ==> !((#[trigger] self.areas@[i]).start < at
                < self.areas@[i].end)
    }

    /// Cuts the area that has pages on both sides of the boundary before page
    /// `at`, if there is one, in two. The address space stays as it is; only
    /// its division into areas changes.
    #[verifier::rlimit(60)]
    fn split_at(&mut self, at: u64)
        requires
            old(self).wf(),
        ensures
            final(self).wf(),
            final(self)@ == old(self)@,
            final(self)@.tables_grown(old(self)@, 0, 0),
            final(self).cut_at(at as int),
            forall|other: int| old(self).cut_at(other) ==> final(self).cut_at(other),
    {
        let mut i: usize = 0;
        while i < self.areas.len() && !(self.areas[i].start < at && at < self.areas[i].end)
            invariant
                i <= self.areas@.len(),
                self.wf(),
                *self == *old(self),
                forall|k: int|
                    0 <= k < i ==> !((#[trigger] self.areas@[k]).start < at < self.areas@[k].end),
            decreases self.areas@.len() - i,
        {
            i += 1;
        }
        if i == self.areas.len() {
            return ;
        }
        let ghost whole = self.areas@[i as int];
        let ghost n = self.areas@.len() as int;
        let ghost table = self.page_table;
        proof {
            assert(whole.wf());
        }
        let right = self.areas[i].split_off(at);
        let ghost left = self.areas@[i as int];
        self.areas.push(right);
        proof {
            let now = self.areas@;
            let was = old(self).areas@;
            assert(now.len() == n + 1);
            assert(now[i as int] == left);
            assert(now[n] == right);
            assert forall|k: int| 0 <= k < n && k != i implies now[k] == was[k] by {}
            // each new area lies within the old area that it comes from
            let origin = |k: int| if k == n { i as int } else { k };
            assert forall|k: int| 0 <= k < n + 1 implies {
                &&& (#[trigger] now[k]).wf()
                &&& was[origin(k)].start <= now[k].start
                &&& now[k].end <= was[origin(k)].end
                &&& now[k].map_type == was[origin(k)].map_type
                &&& now[k].perm == was[origin(k)].perm
            } by {
                assert(was[origin(k)].wf());
            }
            assert forall|j: int, k: int| 0 <= j < k < n + 1 implies {
                ||| (#[trigger] now[j]).end <= (#[trigger] now[k]).start
                ||| now[k].end <= now[j].start
            } by {
                let oj = origin(j);
                let ok = origin(k);
                assert(was[oj].wf() && was[ok].wf());
                if oj < ok {
                    assert(was[oj].end <= was[ok].start || was[ok].end <= was[oj].start);
                } else if ok < oj {
                    assert(was[ok].end <= was[oj].start || was[oj].end <= was[ok].start);
                }
            }
            assert forall|k: int, vpn: int| 0 <= k < n + 1 && #[trigger] now[k].covers(vpn) implies {
                &&& table@.contains_key(vpn)
                &&& table@[vpn] == now[k].entry(vpn)
                &&& was[origin(k)].covers(vpn)
                &&& now[k].spec_ppn(vpn) == was[origin(k)].spec_ppn(vpn)
                &&& now[k].map_type == MapType::Framed ==> now[k].data(vpn) == was[origin(
                    k,
                )].data(vpn)
            } by {
                assert(now[k].wf());
                assert(was[origin(k)].wf());
                assert(was[origin(k)].covers(vpn));
                old(self).lemma_area_pages(origin(k), vpn);
                if k == i {
                    assert(left.spec_ppn(vpn) == whole.spec_ppn(vpn));
                } else if k == n {
                    assert(right.spec_ppn(vpn) == whole.spec_ppn(vpn));
                } else {
                    assert(now[k] == was[k]);
                }
            }
            assert forall|vpn: int| #[trigger] table@.contains_key(vpn) implies vpn
                == TRAMPOLINE_VPN || self.covered(vpn) by {
                if vpn != TRAMPOLINE_VPN {
                    let k = old(self).area_of(vpn);
                    assert(was[k].covers(vpn));
                    if k != i {
                        assert(now[k].covers(vpn));
                    } else if vpn < at {
                        assert(now[i as int].covers(vpn));
                    } else {
                        assert(now[n].covers(vpn));
                    }
                }
            }
            assert(self.wf());
            assert forall|vpn: int| self.framed(vpn) == old(self).framed(vpn) && (self.framed(vpn)
                ==> self@.frames[vpn] == old(self)@.frames[vpn]) by {
                if self.covered(vpn) {
                    let k = self.area_of(vpn);
                    assert(now[k].covers(vpn));
                    self.lemma_area_pages(k, vpn);
                    old(self).lemma_area_pages(origin(k), vpn);
                } else if old(self).covered(vpn) {
                    let k = old(self).area_of(vpn);
                    assert(was[k].covers(vpn));
                    if k != i {
                        assert(now[k].covers(vpn));
                    } else if vpn < at {
                        assert(now[i as int].covers(vpn));
                    } else {
                        assert(now[n].covers(vpn));
                    }
                }
            }
            assert(self@.frames =~= old(self)@.frames);
            assert forall|other: int| old(self).cut_at(other) implies self.cut_at(other) by {
                assert forall|k: int| 0 <= k < n + 1 implies !((#[trigger] now[k]).start < other
                    < now[k].end) by {
                    assert(!(was[origin(k)].start < other < was[origin(k)].end));
                }
            }
            assert(self.cut_at(at as int)) by {
                assert forall|k: int| 0 <= k < n + 1 implies !((#[trigger] now[k]).start < at
                    < now[k].end) by {
                    if k != i && k != n {
                        let ok = origin(k);
                        assert(was[ok].wf() && was[i as int].wf());
                        if ok < i {
                            assert(was[ok].end <= was[i as int].start || was[i as int].end
                                <= was[ok].start);
                        } else {
                            assert(was[i as int].end <= was[ok].start || was[ok].end
                                <= was[i as int].start);
                        }
                    }
                }
            }
        }
    }

    /// Takes the area at position `i` out of the address space: unmaps each
    /// of its pages and gives each of its frames back to `pool`.
    #[verifier::rlimit(60)]
    fn drop_area(&mut self, pool: &mut FrameAllocator, i: usize)
        requires
            old(self).wf(),
            old(pool).wf(),
            i < old(self).areas@.len(),
        ensures
            final(self).wf(),
            final(pool).wf(),
            final(pool).spec_start() == old(pool).spec_start(),
            final(pool).spec_end() == old(pool).spec_end(),
            final(self).areas@ == old(self).areas@.remove(i as int),
            removed(
                old(self)@,
                final(self)@,
                old(self).areas@[i as int].start as int,
                old(self).areas@[i as int].end as int,
            ),
            final(self)@.tables_grown(old(self)@, 0, 0),
            old(self).areas@[i as int].map_type == MapType::Framed ==> forall|p: int|
                final(pool).is_free(p) == (old(pool).is_free(p) || (old(pool).manages(p)
                    && frame_in(
                    old(self)@.mappings,
                    old(self).areas@[i as int].start as int,
                    old(self).areas@[i as int].end as int,
                    p,
                ))),
            old(self).areas@[i as int].map_type == MapType::Identical ==> *final(pool) == *old(
                pool,
            ),
    {
        proof {
            old(self).lemma_view();
            assert(old(self).areas@[i as int].wf());
            assert forall|vpn: int| old(self).areas@[i as int].covers(vpn) implies old(
                self,
            ).page_table@.contains_key(vpn) && old(self).page_table@[vpn] == old(
                self,
            ).areas@[i as int].entry(vpn) by {
                old(self).lemma_area_pages(i as int, vpn);
            }
        }
        let mut area = self.areas.remove(i);
        let ghost whole = area;
        let ghost first: int = area.start as int;
        let ghost last: int = area.end as int;
        let ghost framed: bool = area.map_type == MapType::Framed;
        let ghost entries = old(self).page_table@;
        proof {
            assert(whole == old(self).areas@[i as int]);
            assert forall|u: int| first <= u < last implies #[trigger] entries.contains_key(u)
                && entries[u] == whole.entry(u) by {
                assert(whole.covers(u));
                old(self).lemma_area_pages(i as int, u);
            }
        }
        let mut v: u64 = area.end;
        while v > area.start
            invariant
                first == area.start == whole.start,
                last == area.end == whole.end,
                area.map_type == whole.map_type,
                framed == (whole.map_type == MapType::Framed),
                whole.wf(),
                first <= v <= last <= TRAMPOLINE_VPN,
                self.page_table.wf(),
                pool.wf(),
                old(pool).wf(),
                pool.spec_start() == old(pool).spec_start(),
                pool.spec_end() == old(pool).spec_end(),
                self.areas@ == old(self).areas@.remove(i as int),
                entries == old(self).page_table@,
                self.page_table.spec_root() == old(self).page_table.spec_root(),
                self.page_table@ =~= entries.remove_keys(page_range(v as int, last)),
                forall|u: int|
                    first <= u < last ==> #[trigger] entries.contains_key(u) && entries[u]
                        == whole.entry(u),
                forall|prefix: int|
                    self.page_table.has_leaf(prefix) == old(self).page_table.has_leaf(prefix),
                forall|top: int| self.page_table.has_mid(top) == old(self).page_table.has_mid(top),
                forall|p: int| #[trigger]
                    self.page_table.owns_node(p) == old(self).page_table.owns_node(p),
                framed ==> area.frames@ =~= whole.frames@.take(v - first),
                !framed ==> *pool == *old(pool),
                framed ==> forall|p: int|
                    pool.is_free(p) == (old(pool).is_free(p) || (old(pool).manages(p) && frame_in(
                        entries,
                        v as int,
                        last,
                        p,
                    ))),
            decreases v - first,
        {
            v -= 1;
            assert(entries.contains_key(v as int));
            self.page_table.unmap(VirtPageNum(v));
            proof {
                assert(self.page_table@ =~= entries.remove_keys(page_range(v as int, last)));
            }
            match area.map_type {
                MapType::Framed => {
                    let ghost pool_before = *pool;
                    let frame = area.frames.pop().unwrap();
                    let ppn = frame.ppn();
                    pool.deallocate(ppn);
                    proof {
                        assert(frame == whole.frames@[v - first]);
                        assert(whole.spec_ppn(v as int) == ppn@);
                        assert(ppn.wf());
                        PageTableEntry::lemma_new(ppn@, whole.spec_perm()@ | PTE_V);
                        assert(entries[v as int].spec_ppn() == ppn@);
                        assert forall|p: int|
                            pool.is_free(p) == (old(pool).is_free(p) || (old(pool).manages(p)
                                && frame_in(entries, v as int, last, p))) by {
                            if frame_in(entries, v as int, last, p) {
                                let w = choose|w: int|
                                    v <= w < last && entries.contains_key(w) && (
                                    #[trigger] entries[w]).spec_ppn() == p;
                                if w != v {
                                    assert(frame_in(entries, v as int + 1, last, p));
                                }
                            }
                            if frame_in(entries, v as int + 1, last, p) {
                                let w = choose|w: int|
                                    v + 1 <= w < last && entries.contains_key(w) && (
                                    #[trigger] entries[w]).spec_ppn() == p;
                                assert(v <= w < last && entries.contains_key(w) && entries[w].spec_ppn() == p);
                            }
                            if p == ppn@ {
                                assert(entries.contains_key(v as int));
                                assert(frame_in(entries, v as int, last, p));
                                pool_before.lemma_free_frames();
                            }
                        }
                    }
                },
                MapType::Identical => {},
            }
        }
        proof {
            let now = self.areas@;
            let was = old(self).areas@;
            let table = self.page_table;
            let origin = |k: int| if k < i { k } else { k + 1 };
            assert forall|k: int| 0 <= k < now.len() implies #[trigger] now[k] == was[origin(k)] by {}
            assert forall|k: int| 0 <= k < now.len() implies (#[trigger] now[k]).wf() by {
                assert(was[origin(k)].wf());
            }
            assert forall|j: int, k: int| 0 <= j < k < now.len() implies {
                ||| (#[trigger] now[j]).end <= (#[trigger] now[k]).start
                ||| now[k].end <= now[j].start
            } by {
                assert(was[origin(j)].end <= was[origin(k)].start || was[origin(k)].end
                    <= was[origin(j)].start);
            }
            assert forall|k: int, vpn: int| 0 <= k < now.len() && #[trigger] now[k].covers(vpn) implies {
                &&& table@.contains_key(vpn)
                &&& table@[vpn] == now[k].entry(vpn)
                &&& !(first <= vpn < last)
            } by {
                let ok = origin(k);
                assert(was[ok].covers(vpn));
                old(self).lemma_area_pages(ok, vpn);
                assert(was[ok].wf());
                if ok < i {
                    assert(was[ok].end <= was[i as int].start || was[i as int].end
                        <= was[ok].start);
                } else {
                    assert(was[i as int].end <= was[ok].start || was[ok].end
                        <= was[i as int].start);
                }
            }
            assert forall|vpn: int| #[trigger] table@.contains_key(vpn) implies vpn
                == TRAMPOLINE_VPN || self.covered(vpn) by {
                if vpn != TRAMPOLINE_VPN {
                    let k = old(self).area_of(vpn);
                    assert(was[k].covers(vpn));
                    assert(k != i);
                    if k < i {
                        assert(now[k].covers(vpn));
                    } else {
                        assert(now[k - 1] == was[k]);
                        assert(now[k - 1].covers(vpn));
                    }
                }
            }
            assert(self.wf());
            assert forall|vpn: int| self.framed(vpn) == (old(self).framed(vpn) && !(first <= vpn
                < last)) && (self.framed(vpn) ==> self@.frames[vpn] == old(self)@.frames[vpn]) by {
                if self.covered(vpn) {
                    let k = self.area_of(vpn);
                    assert(now[k].covers(vpn));
                    self.lemma_area_pages(k, vpn);
                    old(self).lemma_area_pages(origin(k), vpn);
                } else if old(self).covered(vpn) {
                    let k = old(self).area_of(vpn);
                    assert(was[k].covers(vpn));
                    old(self).lemma_area_pages(k, vpn);
                    if k < i {
                        assert(now[k].covers(vpn));
                    } else if k > i {
                        assert(now[k - 1] == was[k]);
                        assert(now[k - 1].covers(vpn));
                    }
                }
            }
            assert(self@.frames =~= old(self)@.frames.remove_keys(page_range(first, last)));
            assert(self@.mappings =~= old(self)@.mappings.remove_keys(page_range(first, last)));
            assert(self@.leaves =~= old(self)@.leaves);
            assert(self@.mids =~= old(self)@.mids);
            assert(self@.nodes =~= old(self)@.nodes);
        }
    }

    /// Unmaps the pages `start .. end` and gives the frame of each back to
    /// `pool`. What is left of an area that held some of the pages stays, as
    /// one area or as two.
    ///
    /// Refused, with the address space and `pool` left as they are:
    /// `InvalidRange` where `start .. end` is no range of pages; else
    /// `NotMapped` where a page of the range has no frame of its own: it is
    /// not mapped, or it is the trampoline or a page of an identical area.
    #[verifier::rlimit(60)]
    pub fn remove_framed_area(
        &mut self,
        pool: &mut FrameAllocator,
        start: VirtPageNum,
        end: VirtPageNum,
    ) -> (done: Result<(), MemoryError>)
        requires
            old(self).wf(),
            old(pool).wf(),
        ensures
            final(self).wf(),
            final(pool).wf(),
            final(pool).spec_start() == old(pool).spec_start(),
            final(pool).spec_end() == old(pool).spec_end(),
            done == old(self)@.remove_outcome(start@, end@),
            final(self)@.tables_grown(old(self)@, 0, 0),
            done is Ok ==> {
                &&& removed(old(self)@, final(self)@, start@, end@)
                &&& forall|p: int|
                    final(pool).is_free(p) == (old(pool).is_free(p) || (old(pool).manages(p)
                        && frame_in(old(self)@.mappings, start@, end@, p)))
                &&& old(self)@.exclusive() && old(self)@.held_in(*old(pool)) ==> {
                    &&& final(self)@.exclusive()
                    &&& final(self)@.held_in(*final(pool))
                    &&& forall|p: int| #[trigger]
                        final(self)@.owns(p) == (old(self)@.owns(p) && !frame_in(
                            old(self)@.mappings,
                            start@,
                            end@,
                            p,
                        ))
                }
            },
            done is Err ==> final(self)@ == old(self)@ && *final(pool) == *old(pool),
    {
        if start.0 > end.0 || end.0 > VPN_LIMIT {
            return Err(MemoryError::InvalidRange);
        }
        let mut v: u64 = start.0;
        while v < end.0
            invariant
                start@ <= v <= end@ <= VPN_LIMIT,
                self.wf(),
                *self == *old(self),
                *pool == *old(pool),
                pool.wf(),
                forall|u: int| start@ <= u < v ==> self@.frames.contains_key(u),
            decreases end@ - v,
        {
            if !self.is_framed(VirtPageNum(v)) {
                return Err(MemoryError::NotMapped);
            }
            v += 1;
        }
        if start.0 == end.0 {
            proof {
                assert(self@.mappings.remove_keys(page_range(start@, end@)) =~= self@.mappings);
                assert(self@.frames.remove_keys(page_range(start@, end@)) =~= self@.frames);
                assert forall|p: int| !frame_in(self@.mappings, start@, end@, p) by {}
            }
            return Ok(());
        }
        self.split_at(start.0);
        self.split_at(end.0);
        let ghost s: int = start@;
        let ghost e: int = end@;
        let ghost pre = old(self)@;
        proof {
            self.lemma_view();
            assert forall|p: int| !released_in(pre.mappings, self@.mappings, s, e, p) by {}
        }
        let mut i: usize = 0;
        while i < self.areas.len()
            invariant
                s == start@,
                e == end@,
                s < e <= VPN_LIMIT,
                pre == old(self)@,
                i <= self.areas@.len(),
                self.wf(),
                pool.wf(),
                old(pool).wf(),
                pool.spec_start() == old(pool).spec_start(),
                pool.spec_end() == old(pool).spec_end(),
                self.cut_at(s),
                self.cut_at(e),
                self@.tables_grown(old(self)@, 0, 0),
                self@.nodes == pre.nodes,
                forall|k: int|
                    0 <= k < i ==> (#[trigger] self.areas@[k]).end <= s || e
                        <= self.areas@[k].start,
                self@.root == pre.root,
                forall|vpn: int| s <= vpn < e ==> pre.frames.contains_key(vpn),
                forall|vpn: int| #[trigger]
                    pre.frames.contains_key(vpn) ==> pre.mappings.contains_key(vpn),
                forall|vpn: int| #[trigger]
                    self@.mappings.contains_key(vpn) ==> pre.mappings.contains_key(vpn)
                        && self@.mappings[vpn] == pre.mappings[vpn],
                forall|vpn: int| #[trigger]
                    self@.frames.contains_key(vpn) ==> pre.frames.contains_key(vpn)
                        && self@.frames[vpn] == pre.frames[vpn],
                forall|vpn: int|
                    !(s <= vpn < e) ==> (#[trigger] self@.mappings.contains_key(vpn))
                        == pre.mappings.contains_key(vpn),
                forall|vpn: int|
                    !(s <= vpn < e) ==> (#[trigger] self@.frames.contains_key(vpn))
                        == pre.frames.contains_key(vpn),
                forall|vpn: int| #[trigger]
                    self@.mappings.contains_key(vpn) ==> (self@.frames.contains_key(vpn)
                        == pre.frames.contains_key(vpn)),
                forall|p: int|
                    pool.is_free(p) == (old(pool).is_free(p) || (old(pool).manages(p)
                        && released_in(pre.mappings, self@.mappings, s, e, p))),
            decreases self.areas@.len() - i,
        {
            if start.0 <= self.areas[i].start && self.areas[i].end <= end.0 {
                let ghost before = self@;
                let ghost area = self.areas@[i as int];
                let ghost areas_before = self.areas@;
                proof {
                    assert(area.wf());
                    assert(area.covers(area.start as int));
                    self.lemma_area_pages(i as int, area.start as int);
                    assert(pre.frames.contains_key(area.start as int));
                    assert(self@.mappings.contains_key(area.start as int));
                    assert(self@.frames.contains_key(area.start as int));
                    assert forall|vpn: int| area.covers(vpn) implies before.mappings.contains_key(
                        vpn,
                    ) by {
                        self.lemma_area_pages(i as int, vpn);
                    }
                }
                self.drop_area(pool, i);
                proof {
                    let a = area.start as int;
                    let b = area.end as int;
                    assert(self.cut_at(s) && self.cut_at(e)) by {
                        assert forall|k: int| 0 <= k < self.areas@.len() implies !((
                        #[trigger] self.areas@[k]).start < s < self.areas@[k].end) && !(
                        self.areas@[k].start < e < self.areas@[k].end) by {
                            let ok = if k < i { k } else { k + 1 };
                            assert(self.areas@[k] == areas_before[ok]);
                        }
                    }
                    assert forall|k: int| 0 <= k < i implies (#[trigger] self.areas@[k]).end <= s
                        || e <= self.areas@[k].start by {
                        assert(self.areas@[k] == areas_before[k]);
                    }
                    assert forall|p: int|
                        pool.is_free(p) == (old(pool).is_free(p) || (old(pool).manages(p)
                            && released_in(pre.mappings, self@.mappings, s, e, p))) by {
                        if frame_in(before.mappings, a, b, p) {
                            let w = choose|w: int|
                                a <= w < b && before.mappings.contains_key(w) && (
                                #[trigger] before.mappings[w]).spec_ppn() == p;
                            assert(pre.mappings.contains_key(w) && pre.mappings[w]
                                == before.mappings[w]);
                            assert(s <= w < e && !self@.mappings.contains_key(w)
                                && pre.mappings[w].spec_ppn() == p);
                            assert(released_in(pre.mappings, self@.mappings, s, e, p));
                        }
                        if released_in(pre.mappings, before.mappings, s, e, p) {
                            let w = choose|w: int|
                                s <= w < e && pre.mappings.contains_key(w)
                                    && !before.mappings.contains_key(w) && (
                                #[trigger] pre.mappings[w]).spec_ppn() == p;
                            assert(!self@.mappings.contains_key(w));
                            assert(released_in(pre.mappings, self@.mappings, s, e, p));
                        }
                        if released_in(pre.mappings, self@.mappings, s, e, p) {
                            let w = choose|w: int|
                                s <= w < e && pre.mappings.contains_key(w)
                                    && !self@.mappings.contains_key(w) && (
                                #[trigger] pre.mappings[w]).spec_ppn() == p;
                            if before.mappings.contains_key(w) {
                                assert(a <= w < b);
                                assert(before.mappings[w] == pre.mappings[w]);
                                assert(frame_in(before.mappings, a, b, p));
                            } else {
                                assert(released_in(pre.mappings, before.mappings, s, e, p));
                            }
                        }
                    }
                }
            } else {
                proof {
                    let a = self.areas@[i as int];
                    assert(a.wf());
                    assert(!(a.start < s < a.end));
                    assert(!(a.start < e < a.end));
                }
                i += 1;
            }
        }
        proof {
            assert forall|vpn: int| s <= vpn < e implies !self@.mappings.contains_key(vpn) by {
                if self@.mappings.contains_key(vpn) {
                    self.lemma_view();
                    assert(self@.frames.contains_key(vpn));
                    let k = self.area_of(vpn);
                    assert(self.framed(vpn));
                    assert(self.areas@[k].covers(vpn));
                }
            }
            assert forall|vpn: int| s <= vpn < e implies !self@.frames.contains_key(vpn) by {
                self.lemma_view();
            }
            assert(self@.mappings =~= pre.mappings.remove_keys(page_range(s, e)));
            assert(self@.frames =~= pre.frames.remove_keys(page_range(s, e)));
            if pre.exclusive() && pre.held_in(*old(pool)) {
                let post = self@;
                assert forall|p: int| #[trigger]
                    post.owns(p) == (pre.owns(p) && !frame_in(pre.mappings, s, e, p)) by {
                    if exists|vpn: int|
                        post.frames.contains_key(vpn) && (#[trigger] post.mappings[vpn]).spec_ppn()
                            == p {
                        let vpn = choose|vpn: int|
                            post.frames.contains_key(vpn) && (
                            #[trigger] post.mappings[vpn]).spec_ppn() == p;
                        assert(pre.frames.contains_key(vpn) && pre.mappings[vpn].spec_ppn() == p);
                        if frame_in(pre.mappings, s, e, p) {
                            let w = choose|w: int|
                                s <= w < e && pre.mappings.contains_key(w) && (
                                #[trigger] pre.mappings[w]).spec_ppn() == p;
                            assert(pre.frames.contains_key(w));
                            assert(pre.mappings[w].spec_ppn() != pre.mappings[vpn].spec_ppn());
                        }
                    }
                    if post.nodes.contains(p) && frame_in(pre.mappings, s, e, p) {
                        let w = choose|w: int|
                            s <= w < e && pre.mappings.contains_key(w) && (
                            #[trigger] pre.mappings[w]).spec_ppn() == p;
                        assert(pre.frames.contains_key(w));
                        assert(!pre.nodes.contains(pre.mappings[w].spec_ppn()));
                    }
                    if exists|vpn: int|
                        pre.frames.contains_key(vpn) && (#[trigger] pre.mappings[vpn]).spec_ppn()
                            == p {
                        let vpn = choose|vpn: int|
                            pre.frames.contains_key(vpn) && (
                            #[trigger] pre.mappings[vpn]).spec_ppn() == p;
                        if !frame_in(pre.mappings, s, e, p) {
                            assert(!(s <= vpn < e && pre.mappings.contains_key(vpn)));
                            assert(post.frames.contains_key(vpn) && post.mappings[vpn].spec_ppn()
                                == p);
                        }
                    }
                }
                assert forall|v1: int, v2: int|
                    post.frames.contains_key(v1) && post.frames.contains_key(v2) && v1
                        != v2 implies (#[trigger] post.mappings[v1]).spec_ppn() != (
                #[trigger] post.mappings[v2]).spec_ppn() by {
                    assert(pre.frames.contains_key(v1) && pre.frames.contains_key(v2));
                    assert(pre.mappings[v1].spec_ppn() != pre.mappings[v2].spec_ppn());
                }
                assert forall|vpn: int| post.frames.contains_key(vpn) implies !post.nodes.contains(
                    (#[trigger] post.mappings[vpn]).spec_ppn(),
                ) by {
                    assert(pre.frames.contains_key(vpn));
                    assert(!pre.nodes.contains(pre.mappings[vpn].spec_ppn()));
                }
                assert forall|p: int| #[trigger] post.owns(p) implies pool.is_allocated(p) by {
                    assert(pre.owns(p) && !frame_in(pre.mappings, s, e, p));
                    assert(old(pool).is_allocated(p));
                    assert(pool.manages(p) == old(pool).manages(p));
                }
            }
            assert(self@.leaves =~= old(self)@.leaves);
            assert(self@.mids =~= old(self)@.mids);
            assert(self@.nodes =~= old(self)@.nodes);
            assert forall|p: int|
                pool.is_free(p) == (old(pool).is_free(p) || (old(pool).manages(p) && frame_in(
                    pre.mappings,
                    s,
                    e,
                    p,
                ))) by {
                if frame_in(pre.mappings, s, e, p) {
                    let w = choose|w: int|
                        s <= w < e && pre.mappings.contains_key(w) && (
                        #[trigger] pre.mappings[w]).spec_ppn() == p;
                    assert(!self@.mappings.contains_key(w));
                    assert(released_in(pre.mappings, self@.mappings, s, e, p));
                }
                if released_in(pre.mappings, self@.mappings, s, e, p) {
                    let w = choose|w: int|
                        s <= w < e && pre.mappings.contains_key(w)
                            && !self@.mappings.contains_key(w) && (
                        #[trigger] pre.mappings[w]).spec_ppn() == p;
                    assert(frame_in(pre.mappings, s, e, p));
                }
            }
        }
        Ok(())
    }

    /// Whether page `vpn` has a frame of its own and is mapped with every
    /// flag of `flags`.
    pub fn page_accessible(&self, vpn: VirtPageNum, flags: u8) -> (yes: bool)
        requires
            self.wf(),
            vpn.wf(),
        ensures
            yes == self@.accessible(vpn@, flags),
    {
        match self.page_table.translate(vpn) {
            Some(pte) => pte.is_valid() && pte.flags() & flags == flags && self.is_framed(vpn),
            None => false,
        }
    }

    /// Whether each of the `len` bytes from address `addr` on lies in a page
    /// that is accessible with `flags`.
    pub fn span_accessible(&self, addr: VirtAddr, len: usize, flags: u8) -> (yes: bool)
        requires
            self.wf(),
            addr.wf(),
        ensures
            yes == self@.span_accessible(addr@, len as int, flags),
    {
        if len as u64 > VA_LIMIT - addr.0 {
            return false;
        }
        if len == 0 {
            return true;
        }
        let end: u64 = addr.0 + len as u64;
        let last: u64 = (end - 1) / 4096;
        let mut v: u64 = addr.0 / 4096;
        while v <= last
            invariant
                self.wf(),
                addr@ / 4096 <= v <= last + 1,
                last == (end - 1) / 4096,
                len > 0,
                end == addr@ + len,
                end <= VA_LIMIT,
                forall|u: int| addr@ / 4096 <= u < v ==> self@.accessible(u, flags),
            decreases last + 1 - v,
        {
            if !self.page_accessible(VirtPageNum(v), flags) {
                proof {
                    let a: int = if v as int * 4096 >= addr@ {
                        v as int * 4096
                    } else {
                        addr@
                    };
                    assert(a / 4096 == v);
                    assert(addr@ <= a < addr@ + len);
                }
                return false;
            }
            v += 1;
        }
        true
    }

    /// The byte at address `addr`.
    fn read_byte(&self, addr: u64) -> (byte: u8)
        requires
            self.wf(),
            self@.frames.contains_key(addr as int / 4096),
        ensures
            byte == self@.byte(addr as int),
    {
        let vpn: u64 = addr / 4096;
        let k: usize = self.find_area(vpn).unwrap();
        proof {
            self.lemma_area_pages(k as int, vpn as int);
        }
        self.areas[k].read_byte(vpn, (addr % 4096) as usize)
    }

    /// Stores `byte` at address `addr`.
    fn write_byte(&mut self, addr: u64, byte: u8)
        requires
            old(self).wf(),
            old(self)@.frames.contains_key(addr as int / 4096),
        ensures
            final(self).wf(),
            final(self)@.mappings == old(self)@.mappings,
            final(self)@.root == old(self)@.root,
            final(self)@.frames == old(self)@.frames.insert(
                addr as int / 4096,
                old(self)@.frames[addr as int / 4096].update(addr as int % 4096, byte),
            ),
            final(self)@.tables_grown(old(self)@, 0, 0),
            final(self)@.nodes == old(self)@.nodes,
    {
        let vpn: u64 = addr / 4096;
        let k: usize = self.find_area(vpn).unwrap();
        proof {
            self.lemma_area_pages(k as int, vpn as int);
            assert(self.areas@[k as int].wf());
        }
        self.areas[k].write_byte(vpn, (addr % 4096) as usize, byte);
        proof {
            let now = self.areas@;
            let was = old(self).areas@;
            let table = self.page_table;
            assert forall|j: int| 0 <= j < now.len() implies {
                &&& (#[trigger] now[j]).wf()
                &&& now[j].start == was[j].start
                &&& now[j].end == was[j].end
                &&& now[j].map_type == was[j].map_type
                &&& now[j].perm == was[j].perm
            } by {
                assert(was[j].wf());
                if j != k {
                    assert(now[j] == was[j]);
                }
            }
            assert forall|j: int, u: int| 0 <= j < now.len() && #[trigger] now[j].covers(u) implies {
                &&& table@.contains_key(u)
                &&& table@[u] == now[j].entry(u)
            } by {
                assert(was[j].covers(u));
                old(self).lemma_area_pages(j, u);
                if j != k {
                    assert(now[j] == was[j]);
                }
            }
            assert forall|j: int, l: int| 0 <= j < l < now.len() implies {
                ||| (#[trigger] now[j]).end <= (#[trigger] now[l]).start
                ||| now[l].end <= now[j].start
            } by {
                assert(was[j].end <= was[l].start || was[l].end <= was[j].start);
            }
            assert forall|u: int| #[trigger] table@.contains_key(u) implies u == TRAMPOLINE_VPN
                || self.covered(u) by {
                if u != TRAMPOLINE_VPN {
                    let j = old(self).area_of(u);
                    assert(was[j].covers(u));
                    assert(now[j].covers(u));
                }
            }
            assert(self.wf());
            assert forall|u: int| self.framed(u) == old(self).framed(u) && (self.framed(u)
                ==> self@.frames[u] == (if u == vpn {
                old(self)@.frames[u].update(addr as int % 4096, byte)
            } else {
                old(self)@.frames[u]
            })) by {
                if self.covered(u) {
                    let j = self.area_of(u);
                    assert(now[j].covers(u));
                    assert(was[j].covers(u));
                    self.lemma_area_pages(j, u);
                    old(self).lemma_area_pages(j, u);
                    if j != k {
                        assert(now[j] == was[j]);
                    }
                } else if old(self).covered(u) {
                    let j = old(self).area_of(u);
                    assert(was[j].covers(u));
                    assert(now[j].covers(u));
                }
            }
            assert(self@.frames =~= old(self)@.frames.insert(
                addr as int / 4096,
                old(self)@.frames[addr as int / 4096].update(addr as int % 4096, byte),
            ));
        }
    }

    /// Copies the `len` bytes from address `addr` on out of the address
    /// space. Refused, with nothing returned, unless every one of the bytes
    /// lies in a page that has a frame of its own and is mapped readable and
    /// accessible in user mode.
    pub fn read_bytes(&self, addr: VirtAddr, len: usize) -> (got: Option<Vec<u8>>)
        requires
            self.wf(),
            addr.wf(),
        ensures
            got is Some <==> self@.span_accessible(addr@, len as int, PTE_U | PTE_R),
            got matches Some(data) ==> data@ == self@.bytes(addr@, len as int),
    {
        if !self.span_accessible(addr, len, PTE_U | PTE_R) {
            return None;
        }
        let mut data: Vec<u8> = Vec::new();
        let mut i: usize = 0;
        while i < len
            invariant
                self.wf(),
                i <= len,
                self@.span_accessible(addr@, len as int, PTE_U | PTE_R),
                data@.len() == i,
                forall|k: int| 0 <= k < i ==> data@[k] == self@.byte(addr@ + k),
            decreases len - i,
        {
            let a: u64 = addr.0 + i as u64;
            assert(self@.accessible(a as int / 4096, PTE_U | PTE_R));
            let byte = self.read_byte(a);
            data.push(byte);
            i += 1;
        }
        assert(data@ =~= self@.bytes(addr@, len as int));
        Some(data)
    }

    /// Copies `data` into the address space, from address `addr` on. Refused,
    /// with the address space left as it is, unless every one of the bytes
    /// lies in a page that has a frame of its own and is mapped with every
    /// flag of `flags`.
    pub fn store_bytes(&mut self, addr: VirtAddr, data: &Vec<u8>, flags: u8) -> (done: bool)
        requires
            old(self).wf(),
            addr.wf(),
        ensures
            final(self).wf(),
            done == old(self)@.span_accessible(addr@, data@.len() as int, flags),
            done ==> final(self)@ == old(self)@.with_bytes(addr@, data@),
            !done ==> final(self)@ == old(self)@,
            final(self)@.tables_grown(old(self)@, 0, 0),
    {
        if !self.span_accessible(addr, data.len(), flags) {
            return false;
        }
        proof {
            self.lemma_view();
            assert(self@.with_bytes(addr@, data@.take(0)).frames =~~= self@.frames);
        }
        let ghost pre = self@;
        let mut i: usize = 0;
        while i < data.len()
            invariant
                self.wf(),
                addr.wf(),
                i <= data@.len(),
                pre == old(self)@,
                pre.span_accessible(addr@, data@.len() as int, flags),
                forall|vpn: int| #[trigger]
                    pre.frames.contains_key(vpn) ==> pre.frames[vpn].len() == PAGE_SIZE,
                self@.mappings == pre.mappings,
                self@.root == pre.root,
                self@.frames == pre.with_bytes(addr@, data@.take(i as int)).frames,
                self@.tables_grown(old(self)@, 0, 0),
                self@.nodes == pre.nodes,
            decreases data@.len() - i,
        {
            let a: u64 = addr.0 + i as u64;
            assert(pre.accessible(a as int / 4096, flags));
            self.write_byte(a, data[i]);
            proof {
                let grown = pre.with_bytes(addr@, data@.take(i as int + 1)).frames;
                assert forall|vpn: int| grown.contains_key(vpn) implies #[trigger] grown[vpn]
                    =~= self@.frames[vpn] by {
                    let page = self@.frames[vpn];
                    assert forall|offset: int| 0 <= offset < PAGE_SIZE implies grown[vpn][offset]
                        == page[offset] by {
                        let here = vpn * 4096 + offset;
                        if here == a {
                            assert(vpn == a as int / 4096 && offset == a as int % 4096);
                        } else {
                            assert(!(vpn == a as int / 4096 && offset == a as int % 4096));
                        }
                    }
                }
                assert(self@.frames =~= grown);
            }
            i += 1;
        }
        proof {
            assert(data@.take(data@.len() as int) =~= data@);
            assert(self@.leaves =~= old(self)@.leaves);
            assert(self@.mids =~= old(self)@.mids);
            assert(self@.nodes =~= old(self)@.nodes);
        }
        true
    }

    /// Copies `data` into the address space, from address `addr` on, on
    /// behalf of the program that runs in it. Refused, with the address space
    /// left as it is, unless every one of the bytes lies in a page that has a
    /// frame of its own and is mapped writable and accessible in user mode.
    pub fn write_bytes(&mut self, addr: VirtAddr, data: &Vec<u8>) -> (done: bool)
        requires
            old(self).wf(),
            addr.wf(),
        ensures
            final(self).wf(),
            done == old(self)@.span_accessible(addr@, data@.len() as int, PTE_U | PTE_W),
            done ==> final(self)@ == old(self)@.with_bytes(addr@, data@),
            !done ==> final(self)@ == old(self)@,
    {
        self.store_bytes(addr, data, PTE_U | PTE_W)
    }
}

} // verus!
