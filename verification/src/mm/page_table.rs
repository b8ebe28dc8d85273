//! Translation tables: a radix tree of fixed depth three that maps virtual
//! page numbers to entries.
//!
//! Each node of the tree occupies one physical frame and has 512 slots. A
//! virtual page number is split into three 9-bit indexes, one per level. The
//! nodes of the two upper levels hold their children; a leaf node holds the
//! entries themselves. A page is mapped when its leaf exists and its entry
//! carries the valid flag.

use vstd::prelude::*;
use crate::mm::address::{PhysPageNum, VirtPageNum, PPN_LIMIT, TABLE_ENTRIES, VPN_LIMIT};
use crate::mm::frame_allocator::{FrameAllocator, MemoryError};

verus! {

/// Flag of an entry: the entry is valid.
pub const PTE_V: u8 = 0x01;

/// Flag of an entry: the page may be read.
pub const PTE_R: u8 = 0x02;

/// Flag of an entry: the page may be written.
pub const PTE_W: u8 = 0x04;

/// Flag of an entry: instructions may be fetched from the page.
pub const PTE_X: u8 = 0x08;

/// Flag of an entry: the page is accessible in user mode.
pub const PTE_U: u8 = 0x10;

/// Flag of an entry: the mapping exists in every address space.
pub const PTE_G: u8 = 0x20;

/// Flag of an entry: the page was accessed.
pub const PTE_A: u8 = 0x40;

/// Flag of an entry: the page was written.
pub const PTE_D: u8 = 0x80;

/// The mode field of a translation-root token: three-level paging.
pub const SATP_MODE: u64 = 0x8000_0000_0000_0000;

/// Whether `flags` holds every flag of `wanted`.
pub open spec fn has_flags(flags: u8, wanted: u8) -> bool {
    flags & wanted == wanted
}

/// An entry of a translation table: a physical page number in bits 10 to 53
/// and eight flags in bits 0 to 7.
#[derive(Clone, Copy, PartialEq, Eq, Structural, Debug)]
pub struct PageTableEntry {
    pub bits: u64,
}

impl PageTableEntry {
    /// The entry that names frame `ppn` with `flags`.
    pub open spec fn spec_new(ppn: int, flags: u8) -> PageTableEntry {
        PageTableEntry { bits: (ppn * 1024 + flags) as u64 }
    }

    /// The physical page number that the entry names.
    pub open spec fn spec_ppn(self) -> int {
        (self.bits as int / 1024) % (PPN_LIMIT as int)
    }

    /// The flags of the entry.
    pub open spec fn spec_flags(self) -> u8 {
        (self.bits % 256) as u8
    }

    /// Whether the entry carries the valid flag.
    pub open spec fn spec_is_valid(self) -> bool {
        has_flags(self.spec_flags(), PTE_V)
    }

    /// What `spec_new` builds gives back its page number and its flags.
    pub proof fn lemma_new(ppn: int, flags: u8)
        requires
            0 <= ppn < PPN_LIMIT,
        ensures
            Self::spec_new(ppn, flags).spec_ppn() == ppn,
            Self::spec_new(ppn, flags).spec_flags() == flags,
            Self::spec_new(ppn, flags).bits == ppn * 1024 + flags,
    {
    }

    /// The entry that names frame `ppn` with `flags`.
    pub fn new(ppn: PhysPageNum, flags: u8) -> (pte: PageTableEntry)
        requires
            ppn.wf(),
        ensures
            pte == Self::spec_new(ppn@, flags),
            pte.spec_ppn() == ppn@,
            pte.spec_flags() == flags,
    {
        let p: u64 = ppn.0;
        let bits: u64 = (p << 10) | (flags as u64);
        assert(bits == p * 1024 + flags) by (bit_vector)
            requires
                p < 0x1000_0000_0000u64,
                bits == (p << 10) | (flags as u64),
        ;
        PageTableEntry { bits }
    }

    /// The entry that maps nothing.
    pub fn empty() -> (pte: PageTableEntry)
        ensures
            pte.bits == 0,
            !pte.spec_is_valid(),
    {
        assert(!has_flags(0u8, PTE_V)) by (bit_vector);
        PageTableEntry { bits: 0 }
    }

    /// The physical page number that the entry names.
    pub fn ppn(&self) -> (ppn: PhysPageNum)
        ensures
            ppn@ == self.spec_ppn(),
            ppn.wf(),
    {
        let b: u64 = self.bits;
        let p: u64 = (b >> 10) & 0xfff_ffff_ffff;
        assert(p == (b / 1024) % 0x1000_0000_0000) by (bit_vector)
            requires
                p == (b >> 10) & 0xfff_ffff_ffff,
        ;
        PhysPageNum(p)
    }

    /// The flags of the entry.
    pub fn flags(&self) -> (flags: u8)
        ensures
            flags == self.spec_flags(),
    {
        (self.bits % 256) as u8
    }

    /// Whether the entry carries the valid flag.
    pub fn is_valid(&self) -> (yes: bool)
        ensures
            yes == self.spec_is_valid(),
    {
        self.flags() & PTE_V == PTE_V
    }

    /// Whether the page may be read.
    pub fn readable(&self) -> (yes: bool)
        ensures
            yes == has_flags(self.spec_flags(), PTE_R),
    {
        self.flags() & PTE_R == PTE_R
    }

    /// Whether the page may be written.
    pub fn writable(&self) -> (yes: bool)
        ensures
            yes == has_flags(self.spec_flags(), PTE_W),
    {
        self.flags() & PTE_W == PTE_W
    }

    /// Whether instructions may be fetched from the page.
    pub fn executable(&self) -> (yes: bool)
        ensures
            yes == has_flags(self.spec_flags(), PTE_X),
    {
        self.flags() & PTE_X == PTE_X
    }

    /// Whether the page is accessible in user mode.
    pub fn is_user(&self) -> (yes: bool)
        ensures
            yes == has_flags(self.spec_flags(), PTE_U),
    {
        self.flags() & PTE_U == PTE_U
    }
}

/// A node of the lowest level: 512 entries.
pub struct LeafTable {
    ppn: PhysPageNum,
    entries: Vec<PageTableEntry>,
}

/// A node of the middle level: 512 slots for leaves.
pub struct MidTable {
    ppn: PhysPageNum,
    tables: Vec<Option<LeafTable>>,
}

/// A translation tree. It owns its root frame and the frames of all the nodes
/// below.
pub struct PageTable {
    root_ppn: PhysPageNum,
    tables: Vec<Option<MidTable>>,
}

impl LeafTable {
    /// A leaf has 512 entries, and each of them is valid or maps nothing.
    spec fn wf(&self) -> bool {
        &&& self.entries@.len() == TABLE_ENTRIES
        &&& forall|i: int|
            0 <= i < TABLE_ENTRIES ==> (#[trigger] self.entries@[i]).spec_is_valid()
                || self.entries@[i].bits == 0
    }

    /// A leaf in frame `ppn` that maps nothing.
    fn new(ppn: PhysPageNum) -> (leaf: LeafTable)
        ensures
            leaf.wf(),
            leaf.ppn == ppn,
            forall|i: int| 0 <= i < TABLE_ENTRIES ==> leaf.entries@[i].bits == 0,
    {
        let mut entries: Vec<PageTableEntry> = Vec::new();
        let mut i: usize = 0;
        while i < TABLE_ENTRIES
            invariant
                i <= TABLE_ENTRIES,
                entries@.len() == i,
                forall|k: int| 0 <= k < i ==> entries@[k].bits == 0,
            decreases TABLE_ENTRIES - i,
        {
            entries.push(PageTableEntry::empty());
            i += 1;
        }
        LeafTable { ppn, entries }
    }
}

impl MidTable {
    /// Whether one of the first `n` leaves of the node lies in frame `ppn`.
    spec fn holds_below(&self, n: int, ppn: int) -> bool {
        exists|j: int|
            0 <= j < n && (#[trigger] self.tables@[j]) is Some && self.tables@[j].unwrap().ppn@
                == ppn
    }

    /// Whether the node or one of its leaves lies in frame `ppn`.
    spec fn holds(&self, ppn: int) -> bool {
        self.ppn@ == ppn || self.holds_below(TABLE_ENTRIES as int, ppn)
    }

    /// A middle node has 512 slots, and each leaf in them is well formed.
    spec fn wf(&self) -> bool {
        &&& self.tables@.len() == TABLE_ENTRIES
        &&& forall|i: int|
            0 <= i < TABLE_ENTRIES ==> (#[trigger] self.tables@[i] matches Some(leaf)
                ==> leaf.wf())
    }

    /// A middle node in frame `ppn` without leaves.
    fn new(ppn: PhysPageNum) -> (mid: MidTable)
        ensures
            mid.wf(),
            mid.ppn == ppn,
            forall|i: int| 0 <= i < TABLE_ENTRIES ==> mid.tables@[i] is None,
    {
        let mut tables: Vec<Option<LeafTable>> = Vec::new();
        let mut i: usize = 0;
        while i < TABLE_ENTRIES
            invariant
                i <= TABLE_ENTRIES,
                tables@.len() == i,
                forall|k: int| 0 <= k < i ==> tables@[k] is None,
            decreases TABLE_ENTRIES - i,
        {
            tables.push(None);
            i += 1;
        }
        MidTable { ppn, tables }
    }
}

impl PageTable {
    /// The frame of the root node.
    pub closed spec fn spec_root(&self) -> PhysPageNum {
        self.root_ppn
    }

    /// What a walk for page `vpn` finds: the entry in the page's leaf, valid
    /// or not, or nothing where a node on the way is missing.
    pub closed spec fn walk(&self, vpn: int) -> Option<PageTableEntry> {
        if 0 <= vpn < VPN_LIMIT {
            match self.tables@[vpn / 512 / 512] {
                None => None,
                Some(mid) => match mid.tables@[vpn / 512 % 512] {
                    None => None,
                    Some(leaf) => Some(leaf.entries@[vpn % 512]),
                },
            }
        } else {
            None
        }
    }

    /// The mappings: each mapped page with its valid entry.
    pub open spec fn view(&self) -> Map<int, PageTableEntry> {
        Map::new(
            |vpn: int| self.walk(vpn) matches Some(pte) && pte.spec_is_valid(),
            |vpn: int| self.walk(vpn).unwrap(),
        )
    }

    /// Whether the middle node for the root index `top` exists.
    pub closed spec fn has_mid(&self, top: int) -> bool {
        0 <= top < 512 && self.tables@[top] is Some
    }

    /// Whether the leaf for the pages `512 * prefix .. 512 * prefix + 512`
    /// exists.
    pub closed spec fn has_leaf(&self, prefix: int) -> bool {
        &&& 0 <= prefix < 512 * 512
        &&& self.tables@[prefix / 512] matches Some(mid)
        &&& mid.tables@[prefix % 512] is Some
    }

    /// Whether one of the first `n` middle nodes, or a leaf of one, lies in
    /// frame `ppn`.
    spec fn owns_below(&self, n: int, ppn: int) -> bool {
        exists|i: int|
            0 <= i < n && (#[trigger] self.tables@[i]) is Some && self.tables@[i].unwrap().holds(
                ppn,
            )
    }

    /// Whether a node of the tree lies in frame `ppn`.
    pub closed spec fn owns_node(&self, ppn: int) -> bool {
        self.root_ppn@ == ppn || self.owns_below(TABLE_ENTRIES as int, ppn)
    }

    /// The number of nodes that mapping page `vpn` has to create.
    pub open spec fn missing_tables(&self, vpn: int) -> nat {
        if !self.has_mid(vpn / 512 / 512) {
            2
        } else if !self.has_leaf(vpn / 512) {
            1
        } else {
            0
        }
    }

    /// The tree's invariant: every node has 512 slots.
    pub closed spec fn wf(&self) -> bool {
        &&& self.root_ppn.wf()
        &&& self.tables@.len() == TABLE_ENTRIES
        &&& forall|i: int|
            0 <= i < TABLE_ENTRIES ==> (#[trigger] self.tables@[i] matches Some(mid)
                ==> mid.wf())
    }

    /// A page has an entry only where its leaf exists, and a leaf only under a
    /// middle node. Pages beyond the last have none.
    pub proof fn lemma_walk(&self, vpn: int)
        ensures
            self.walk(vpn) is Some <==> 0 <= vpn < VPN_LIMIT && self.has_leaf(vpn / 512),
            self.has_leaf(vpn / 512) ==> self.has_mid(vpn / 512 / 512),
            self@.contains_key(vpn) ==> 0 <= vpn < VPN_LIMIT && self.has_leaf(vpn / 512),
    {
    }

    /// An empty tree, whose root takes one frame of `pool`. Fails with
    /// `OutOfMemory` exactly when no frame is free.
    pub fn new(pool: &mut FrameAllocator) -> (made: Result<PageTable, MemoryError>)
        requires
            old(pool).wf(),
        ensures
            final(pool).wf(),
            final(pool).spec_start() == old(pool).spec_start(),
            final(pool).spec_end() == old(pool).spec_end(),
            made is Ok <==> old(pool).free_count() > 0,
            made matches Ok(table) ==> {
                &&& table.wf()
                &&& table@ == Map::<int, PageTableEntry>::empty()
                &&& forall|vpn: int| table.walk(vpn) is None
                &&& forall|top: int| !table.has_mid(top)
                &&& forall|prefix: int| !table.has_leaf(prefix)
                &&& forall|p: int| #[trigger] table.owns_node(p) == (p == table.spec_root()@)
                &&& table.spec_root()@ == old(pool).next_frame()
                &&& old(pool).is_free(table.spec_root()@)
                &&& !final(pool).is_free(table.spec_root()@)
                &&& final(pool).free_count() == old(pool).free_count() - 1
                &&& forall|p: int|
                    p != table.spec_root()@ ==> final(pool).is_free(p) == old(pool).is_free(p)
            },
            made matches Err(e) ==> e == MemoryError::OutOfMemory && *final(pool) == *old(pool),
    {
        match pool.allocate() {
            Err(e) => Err(e),
            Ok(root_ppn) => {
                let mut tables: Vec<Option<MidTable>> = Vec::new();
                let mut i: usize = 0;
                while i < TABLE_ENTRIES
                    invariant
                        i <= TABLE_ENTRIES,
                        tables@.len() == i,
                        forall|k: int| 0 <= k < i ==> tables@[k] is None,
                    decreases TABLE_ENTRIES - i,
                {
                    tables.push(None);
                    i += 1;
                }
                let table = PageTable { root_ppn, tables };
                assert(table@ =~= Map::<int, PageTableEntry>::empty());
                assert forall|p: int| table.owns_node(p) == (p == root_ppn@) by {
                    if table.owns_below(TABLE_ENTRIES as int, p) {
                        let i = choose|i: int|
                            0 <= i < TABLE_ENTRIES && (#[trigger] table.tables@[i]) is Some
                                && table.tables@[i].unwrap().holds(p);
                    }
                }
                Ok(table)
            },
        }
    }

    /// The value that selects this tree in the address-translation register:
    /// the mode for three-level paging together with the root's frame.
    pub fn token(&self) -> (token: u64)
        requires
            self.wf(),
        ensures
            token == SATP_MODE + self.spec_root()@,
    {
        let p: u64 = self.root_ppn.0;
        let token: u64 = SATP_MODE | p;
        assert(token == 0x8000_0000_0000_0000u64 + p) by (bit_vector)
            requires
                p < 0x1000_0000_0000u64,
                token == 0x8000_0000_0000_0000u64 | p,
        ;
        token
    }

    /// Walks the tree for page `vpn` without changing anything. Returns the
    /// entry in the page's leaf, or nothing where a node on the way is missing.
    pub fn translate(&self, vpn: VirtPageNum) -> (found: Option<PageTableEntry>)
        requires
            self.wf(),
            vpn.wf(),
        ensures
            found == self.walk(vpn@),
            found is Some <==> self.has_leaf(vpn@ / 512),
            self@.contains_key(vpn@) <==> (found matches Some(pte) && pte.spec_is_valid()),
            self@.contains_key(vpn@) ==> found == Some(self@[vpn@]),
            !self@.contains_key(vpn@) && found is Some ==> found == Some(
                PageTableEntry { bits: 0 },
            ),
    {
        let idx = vpn.indexes();
        match &self.tables[idx[0]] {
            None => None,
            Some(mid) => match &mid.tables[idx[1]] {
                None => None,
                Some(leaf) => Some(leaf.entries[idx[2]]),
            },
        }
    }

    /// The number of nodes that mapping page `vpn` has to create.
    pub fn count_missing(&self, vpn: VirtPageNum) -> (n: u64)
        requires
            self.wf(),
            vpn.wf(),
        ensures
            n == self.missing_tables(vpn@),
    {
        let idx = vpn.indexes();
        match &self.tables[idx[0]] {
            None => 2,
            Some(mid) => match &mid.tables[idx[1]] {
                None => 1,
                Some(_) => 0,
            },
        }
    }

    /// Maps page `vpn` to frame `ppn` with `flags` and the valid flag, and
    /// creates the nodes that are missing on the way, each in a frame of `pool`.
    /// Fails with `OutOfMemory` exactly when `pool` has fewer free frames than
    /// nodes are missing, and then changes nothing.
    pub fn map(
        &mut self,
        pool: &mut FrameAllocator,
        vpn: VirtPageNum,
        ppn: PhysPageNum,
        flags: u8,
    ) -> (done: Result<(), MemoryError>)
        requires
            old(self).wf(),
            old(pool).wf(),
            vpn.wf(),
            ppn.wf(),
            !old(self)@.contains_key(vpn@),
        ensures
            final(self).wf(),
            final(pool).wf(),
            final(pool).spec_start() == old(pool).spec_start(),
            final(pool).spec_end() == old(pool).spec_end(),
            final(self).spec_root() == old(self).spec_root(),
            done is Ok <==> old(pool).free_count() >= old(self).missing_tables(vpn@),
            done is Ok ==> {
                &&& final(self)@ == old(self)@.insert(
                    vpn@,
                    PageTableEntry::spec_new(ppn@, flags | PTE_V),
                )
                &&& forall|top: int|
                    final(self).has_mid(top) == (old(self).has_mid(top) || top == vpn@ / 512 / 512)
                &&& forall|prefix: int|
                    final(self).has_leaf(prefix) == (old(self).has_leaf(prefix) || prefix == vpn@
                        / 512)
                &&& final(pool).free_count() == old(pool).free_count() - old(self).missing_tables(
                    vpn@,
                )
                &&& forall|p: int| final(pool).is_free(p) ==> old(pool).is_free(p)
                &&& forall|p: int| #[trigger]
                    final(self).owns_node(p) == (old(self).owns_node(p) || (old(pool).is_free(p)
                        && !final(pool).is_free(p)))
            },
            done matches Err(e) ==> {
                &&& e == MemoryError::OutOfMemory
                &&& *final(self) == *old(self)
                &&& *final(pool) == *old(pool)
            },
    {
        let idx = vpn.indexes();
        let need: u64 = self.count_missing(vpn);
        if pool.available() < need {
            return Err(MemoryError::OutOfMemory);
        }
        let pte = PageTableEntry::new(ppn, flags | PTE_V);
        proof {
            let f = flags;
            assert(has_flags(f | PTE_V, PTE_V)) by (bit_vector);
        }
        let ghost mut new_mid: Option<int> = None;
        let ghost mut new_leaf: Option<int> = None;
        if self.tables[idx[0]].is_none() {
            let frame = pool.allocate().unwrap();
            proof {
                new_mid = Some(frame@);
            }
            self.tables[idx[0]] = Some(MidTable::new(frame));
        }
        let ghost with_mid = self.tables@;
        let mut mid = self.tables[idx[0]].take().unwrap();
        let ghost mid_before = mid;
        if mid.tables[idx[1]].is_none() {
            let frame = pool.allocate().unwrap();
            proof {
                new_leaf = Some(frame@);
            }
            mid.tables[idx[1]] = Some(LeafTable::new(frame));
        }
        let ghost leaves = mid.tables@;
        let mut leaf = mid.tables[idx[1]].take().unwrap();
        leaf.entries[idx[2]] = pte;
        mid.tables[idx[1]] = Some(leaf);
        self.tables[idx[0]] = Some(mid);
        proof {
            let i0 = idx[0] as int;
            let i1 = idx[1] as int;
            let taken = |p: int| old(pool).is_free(p) && !pool.is_free(p);
            assert forall|p: int| taken(p) == (new_mid == Some(p) || new_leaf == Some(p)) by {}
            assert(mid.ppn == mid_before.ppn);
            assert(mid.tables@ =~= leaves.update(i1, Some(leaf)));
            assert(leaves[i1] is Some && leaves[i1].unwrap().ppn == leaf.ppn);
            assert(self.tables@ =~= with_mid.update(i0, Some(mid)));
            assert(with_mid[i0] == Some(mid_before));
            assert forall|p: int| mid.holds(p) == (mid_before.holds(p) || new_leaf == Some(p)) by {
                if mid_before.holds_below(TABLE_ENTRIES as int, p) {
                    let j = choose|j: int|
                        0 <= j < TABLE_ENTRIES && (#[trigger] mid_before.tables@[j]) is Some
                            && mid_before.tables@[j].unwrap().ppn@ == p;
                    assert(mid.tables@[j] is Some && mid.tables@[j].unwrap().ppn@ == p);
                }
                if new_leaf == Some(p) {
                    assert(mid.tables@[i1] is Some && mid.tables@[i1].unwrap().ppn@ == p);
                }
                if mid.holds_below(TABLE_ENTRIES as int, p) {
                    let j = choose|j: int|
                        0 <= j < TABLE_ENTRIES && (#[trigger] mid.tables@[j]) is Some
                            && mid.tables@[j].unwrap().ppn@ == p;
                    if j != i1 || new_leaf is None {
                        assert(mid_before.tables@[j] is Some && mid_before.tables@[j].unwrap().ppn@
                            == p);
                    }
                }
            }
            assert forall|p: int| mid_before.holds(p) == ((old(self).tables@[i0] is Some && old(
                self,
            ).tables@[i0].unwrap().holds(p)) || new_mid == Some(p)) by {
                if new_mid is Some {
                    if mid_before.holds_below(TABLE_ENTRIES as int, p) {
                        let j = choose|j: int|
                            0 <= j < TABLE_ENTRIES && (#[trigger] mid_before.tables@[j]) is Some
                                && mid_before.tables@[j].unwrap().ppn@ == p;
                    }
                }
            }
            assert forall|p: int|
                self.owns_node(p) == (old(self).owns_node(p) || taken(p)) by {
                if old(self).owns_below(TABLE_ENTRIES as int, p) {
                    let i = choose|i: int|
                        0 <= i < TABLE_ENTRIES && (#[trigger] old(self).tables@[i]) is Some && old(
                            self,
                        ).tables@[i].unwrap().holds(p);
                    if i != i0 {
                        assert(self.tables@[i] == old(self).tables@[i]);
                    }
                    assert(self.tables@[i] is Some && self.tables@[i].unwrap().holds(p));
                }
                if taken(p) {
                    assert(self.tables@[i0] is Some && self.tables@[i0].unwrap().holds(p));
                }
                if self.owns_below(TABLE_ENTRIES as int, p) {
                    let i = choose|i: int|
                        0 <= i < TABLE_ENTRIES && (#[trigger] self.tables@[i]) is Some
                            && self.tables@[i].unwrap().holds(p);
                    if i != i0 {
                        assert(self.tables@[i] == old(self).tables@[i]);
                        assert(old(self).tables@[i] is Some && old(self).tables@[i].unwrap().holds(
                            p,
                        ));
                    } else if !taken(p) {
                        assert(old(self).tables@[i0] is Some && old(
                            self,
                        ).tables@[i0].unwrap().holds(p));
                    }
                }
            }
        }
        proof {
            assert(!has_flags(0u8, PTE_V)) by (bit_vector);
            assert forall|v: int| #[trigger] self.walk(v) is Some && v != vpn@ implies (old(
                self,
            ).walk(v) is Some && old(self).walk(v) == self.walk(v)) || !self.walk(
                v,
            ).unwrap().spec_is_valid() by {
                if old(self).walk(v) is None {
                    assert(self.walk(v).unwrap().bits == 0);
                }
            }
            assert(self@ =~= old(self)@.insert(vpn@, pte));
        }
        Ok(())
    }

    /// Removes the mapping of page `vpn`. The nodes of the tree stay.
    pub fn unmap(&mut self, vpn: VirtPageNum)
        requires
            old(self).wf(),
            vpn.wf(),
            old(self)@.contains_key(vpn@),
        ensures
            final(self).wf(),
            final(self).spec_root() == old(self).spec_root(),
            final(self)@ == old(self)@.remove(vpn@),
            forall|top: int| final(self).has_mid(top) == old(self).has_mid(top),
            forall|prefix: int| final(self).has_leaf(prefix) == old(self).has_leaf(prefix),
            forall|p: int| #[trigger] final(self).owns_node(p) == old(self).owns_node(p),
    {
        let idx = vpn.indexes();
        let mut mid = self.tables[idx[0]].take().unwrap();
        let ghost mid_before = mid;
        let mut leaf = mid.tables[idx[1]].take().unwrap();
        leaf.entries[idx[2]] = PageTableEntry::empty();
        mid.tables[idx[1]] = Some(leaf);
        self.tables[idx[0]] = Some(mid);
        proof {
            assert(self@ =~= old(self)@.remove(vpn@));
            let i0 = idx[0] as int;
            let i1 = idx[1] as int;
            assert(old(self).tables@[i0] == Some(mid_before));
            assert(mid_before.tables@[i1] is Some && mid_before.tables@[i1].unwrap().ppn
                == leaf.ppn);
            assert forall|p: int| mid.holds(p) == mid_before.holds(p) by {
                if mid_before.holds_below(TABLE_ENTRIES as int, p) {
                    let j = choose|j: int|
                        0 <= j < TABLE_ENTRIES && (#[trigger] mid_before.tables@[j]) is Some
                            && mid_before.tables@[j].unwrap().ppn@ == p;
                    assert(mid.tables@[j] is Some && mid.tables@[j].unwrap().ppn@ == p);
                }
                if mid.holds_below(TABLE_ENTRIES as int, p) {
                    let j = choose|j: int|
                        0 <= j < TABLE_ENTRIES && (#[trigger] mid.tables@[j]) is Some
                            && mid.tables@[j].unwrap().ppn@ == p;
                    assert(mid_before.tables@[j] is Some && mid_before.tables@[j].unwrap().ppn@
                        == p);
                }
            }
            assert forall|p: int| self.owns_node(p) == old(self).owns_node(p) by {
                if old(self).owns_below(TABLE_ENTRIES as int, p) {
                    let i = choose|i: int|
                        0 <= i < TABLE_ENTRIES && (#[trigger] old(self).tables@[i]) is Some && old(
                            self,
                        ).tables@[i].unwrap().holds(p);
                    if i != i0 {
                        assert(self.tables@[i] == old(self).tables@[i]);
                    }
                    assert(self.tables@[i] is Some && self.tables@[i].unwrap().holds(p));
                }
                if self.owns_below(TABLE_ENTRIES as int, p) {
                    let i = choose|i: int|
                        0 <= i < TABLE_ENTRIES && (#[trigger] self.tables@[i]) is Some
                            && self.tables@[i].unwrap().holds(p);
                    if i != i0 {
                        assert(self.tables@[i] == old(self).tables@[i]);
                    }
                    assert(old(self).tables@[i] is Some && old(self).tables@[i].unwrap().holds(p));
                }
            }
        }
    }

    /// Gives the frames of all nodes of the tree back to `pool`. The
    /// mappings of the tree are gone with it.
    pub fn release(self, pool: &mut FrameAllocator)
        requires
            self.wf(),
            old(pool).wf(),
        ensures
            final(pool).wf(),
            final(pool).spec_start() == old(pool).spec_start(),
            final(pool).spec_end() == old(pool).spec_end(),
            forall|p: int|
                final(pool).is_free(p) == (old(pool).is_free(p) || (old(pool).manages(p)
                    && self.owns_node(p))),
    {
        let mut i: usize = 0;
        while i < TABLE_ENTRIES
            invariant
                i <= TABLE_ENTRIES,
                self.wf(),
                pool.wf(),
                pool.spec_start() == old(pool).spec_start(),
                pool.spec_end() == old(pool).spec_end(),
                forall|p: int|
                    pool.is_free(p) == (old(pool).is_free(p) || (old(pool).manages(p)
                        && self.owns_below(i as int, p))),
            decreases TABLE_ENTRIES - i,
        {
            match &self.tables[i] {
                Some(mid) => {
                    let mut j: usize = 0;
                    while j < TABLE_ENTRIES
                        invariant
                            j <= TABLE_ENTRIES,
                            i < TABLE_ENTRIES,
                            self.wf(),
                            self.tables@[i as int] == Some(*mid),
                            mid.wf(),
                            pool.wf(),
                            pool.spec_start() == old(pool).spec_start(),
                            pool.spec_end() == old(pool).spec_end(),
                            forall|p: int|
                                pool.is_free(p) == (old(pool).is_free(p) || (old(pool).manages(p)
                                    && (self.owns_below(i as int, p) || mid.holds_below(
                                    j as int,
                                    p,
                                )))),
                        decreases TABLE_ENTRIES - j,
                    {
                        match &mid.tables[j] {
                            Some(leaf) => {
                                pool.deallocate(leaf.ppn);
                            },
                            None => {},
                        }
                        proof {
                            assert forall|p: int|
                                pool.is_free(p) == (old(pool).is_free(p) || (old(pool).manages(p)
                                    && (self.owns_below(i as int, p) || mid.holds_below(
                                    j as int + 1,
                                    p,
                                )))) by {
                                if mid.holds_below(j as int + 1, p) {
                                    let w = choose|w: int|
                                        0 <= w < j + 1 && (#[trigger] mid.tables@[w]) is Some
                                            && mid.tables@[w].unwrap().ppn@ == p;
                                    if w < j {
                                        assert(mid.holds_below(j as int, p));
                                    }
                                }
                                if mid.holds_below(j as int, p) {
                                    let w = choose|w: int|
                                        0 <= w < j && (#[trigger] mid.tables@[w]) is Some
                                            && mid.tables@[w].unwrap().ppn@ == p;
                                    assert(0 <= w < j + 1 && mid.tables@[w] is Some
                                        && mid.tables@[w].unwrap().ppn@ == p);
                                }
                                if mid.tables@[j as int] is Some && mid.tables@[j as int].unwrap().ppn@
                                    == p {
                                    assert(mid.holds_below(j as int + 1, p));
                                }
                            }
                        }
                        j += 1;
                    }
                    pool.deallocate(mid.ppn);
                    proof {
                        assert forall|p: int|
                            pool.is_free(p) == (old(pool).is_free(p) || (old(pool).manages(p)
                                && self.owns_below(i as int + 1, p))) by {
                            if self.owns_below(i as int + 1, p) {
                                let w = choose|w: int|
                                    0 <= w < i + 1 && (#[trigger] self.tables@[w]) is Some
                                        && self.tables@[w].unwrap().holds(p);
                                if w < i {
                                    assert(self.owns_below(i as int, p));
                                }
                            }
                            if self.owns_below(i as int, p) {
                                let w = choose|w: int|
                                    0 <= w < i && (#[trigger] self.tables@[w]) is Some
                                        && self.tables@[w].unwrap().holds(p);
                                assert(0 <= w < i + 1 && self.tables@[w] is Some
                                    && self.tables@[w].unwrap().holds(p));
                            }
                            if mid.holds(p) {
                                assert(self.tables@[i as int] is Some
                                    && self.tables@[i as int].unwrap().holds(p));
                                assert(self.owns_below(i as int + 1, p));
                            }
                        }
                    }
                },
                None => {
                    proof {
                        assert forall|p: int|
                            self.owns_below(i as int + 1, p) == self.owns_below(i as int, p) by {
                            if self.owns_below(i as int + 1, p) {
                                let w = choose|w: int|
                                    0 <= w < i + 1 && (#[trigger] self.tables@[w]) is Some
                                        && self.tables@[w].unwrap().holds(p);
                                assert(self.owns_below(i as int, p));
                            }
                            if self.owns_below(i as int, p) {
                                let w = choose|w: int|
                                    0 <= w < i && (#[trigger] self.tables@[w]) is Some
                                        && self.tables@[w].unwrap().holds(p);
                                assert(0 <= w < i + 1 && self.tables@[w] is Some
                                    && self.tables@[w].unwrap().holds(p));
                            }
                        }
                    }
                },
            }
            i += 1;
        }
        pool.deallocate(self.root_ppn);
    }
}

} // verus!
