//! Typed addresses and page numbers of the three-level, 39-bit paging scheme.
//!
//! A virtual address has 39 significant bits: a 27-bit page number and a
//! 12-bit offset. A physical address has 56 significant bits: a 44-bit page
//! number and a 12-bit offset. The constructors keep the significant bits and
//! drop the rest, so that every value of these types is in range.

use vstd::prelude::*;

verus! {

/// Number of bytes in a page, as a 64-bit value.
pub const PAGE_BYTES: u64 = 0x1000;

/// One more than the largest virtual address.
pub const VA_LIMIT: u64 = 0x80_0000_0000;

/// One more than the largest virtual page number.
pub const VPN_LIMIT: u64 = 0x800_0000;

/// One more than the largest physical address.
pub const PA_LIMIT: u64 = 0x100_0000_0000_0000;

/// One more than the largest physical page number.
pub const PPN_LIMIT: u64 = 0x1000_0000_0000;

/// Number of entries in one node of the translation tree.
pub const TABLE_ENTRIES: usize = 512;

/// A virtual address.
#[derive(Clone, Copy, PartialEq, Eq, Structural, Debug)]
pub struct VirtAddr(pub u64);

/// A virtual page number. The value `VPN_LIMIT` itself occurs only as the
/// exclusive end of a range of pages.
#[derive(Clone, Copy, PartialEq, Eq, Structural, Debug)]
pub struct VirtPageNum(pub u64);

/// A physical address.
#[derive(Clone, Copy, PartialEq, Eq, Structural, Debug)]
pub struct PhysAddr(pub u64);

/// A physical page number.
#[derive(Clone, Copy, PartialEq, Eq, Structural, Debug)]
pub struct PhysPageNum(pub u64);

/// The number of the page that holds byte address `addr`.
pub open spec fn page_floor(addr: int) -> int {
    addr / 0x1000
}

/// The number of the first page that starts at or after byte address `addr`.
pub open spec fn page_ceil(addr: int) -> int {
    (addr + 0xfff) / 0x1000
}

/// The position of byte address `addr` within its page.
pub open spec fn page_offset_of(addr: int) -> int {
    addr % 0x1000
}

impl VirtAddr {
    /// The address as a mathematical integer.
    pub open spec fn view(self) -> int {
        self.0 as int
    }

    /// Every address made by `new` lies below `VA_LIMIT`.
    pub open spec fn wf(self) -> bool {
        self.0 < VA_LIMIT
    }

    /// Keeps the low 39 bits of `bits`.
    pub fn new(bits: u64) -> (va: VirtAddr)
        ensures
            va@ == bits as int % 0x80_0000_0000,
            va.wf(),
            bits < VA_LIMIT ==> va@ == bits,
            page_offset_of(va@) == page_offset_of(bits as int),
    {
        let kept: u64 = bits & 0x7f_ffff_ffff;
        assert(kept == bits % 0x80_0000_0000) by (bit_vector)
            requires
                kept == bits & 0x7f_ffff_ffff,
        ;
        assert(kept % 0x1000 == bits % 0x1000) by (bit_vector)
            requires
                kept == bits & 0x7f_ffff_ffff,
        ;
        VirtAddr(kept)
    }

    /// Reads a register-sized value as a virtual address.
    pub fn from_usize(value: usize) -> (va: VirtAddr)
        ensures
            va@ == value as int % 0x80_0000_0000,
            va.wf(),
            page_offset_of(va@) == page_offset_of(value as int),
    {
        VirtAddr::new(value as u64)
    }

    /// The page that holds this address.
    pub fn floor(self) -> (vpn: VirtPageNum)
        ensures
            vpn@ == page_floor(self@),
            self.wf() ==> vpn.wf(),
    {
        VirtPageNum(self.0 / PAGE_BYTES)
    }

    /// The first page that starts at or after this address.
    pub fn ceil(self) -> (vpn: VirtPageNum)
        requires
            self.wf(),
        ensures
            vpn@ == page_ceil(self@),
            vpn@ <= VPN_LIMIT,
    {
        VirtPageNum((self.0 + (PAGE_BYTES - 1)) / PAGE_BYTES)
    }

    /// The position of this address within its page.
    pub fn page_offset(self) -> (offset: usize)
        ensures
            offset == page_offset_of(self@),
    {
        (self.0 % PAGE_BYTES) as usize
    }

    /// Whether this address is the first of its page.
    pub fn aligned(self) -> (yes: bool)
        ensures
            yes == (page_offset_of(self@) == 0),
    {
        self.0 % PAGE_BYTES == 0
    }
}

impl VirtPageNum {
    /// The page number as a mathematical integer.
    pub open spec fn view(self) -> int {
        self.0 as int
    }

    /// A page number that names a page: it lies below `VPN_LIMIT`.
    pub open spec fn wf(self) -> bool {
        self.0 < VPN_LIMIT
    }

    /// Keeps the low 27 bits of `bits`.
    pub fn new(bits: u64) -> (vpn: VirtPageNum)
        ensures
            vpn@ == bits as int % 0x800_0000,
            vpn.wf(),
            bits < VPN_LIMIT ==> vpn@ == bits,
    {
        let kept: u64 = bits & 0x7ff_ffff;
        assert(kept == bits % 0x800_0000) by (bit_vector)
            requires
                kept == bits & 0x7ff_ffff,
        ;
        VirtPageNum(kept)
    }

    /// The address of the first byte of this page.
    pub fn start_addr(self) -> (va: VirtAddr)
        requires
            self.wf(),
        ensures
            va@ == self@ * 0x1000,
            va.wf(),
    {
        VirtAddr(self.0 * PAGE_BYTES)
    }

    /// The index of this page in the root table.
    pub open spec fn spec_index0(self) -> int {
        self@ / 512 / 512
    }

    /// The index of this page in its second-level table.
    pub open spec fn spec_index1(self) -> int {
        self@ / 512 % 512
    }

    /// The index of this page in its leaf table.
    pub open spec fn spec_index2(self) -> int {
        self@ % 512
    }

    /// Splits the page number into its three 9-bit table indexes, the root
    /// table's index first.
    pub fn indexes(self) -> (idx: [usize; 3])
        requires
            self.wf(),
        ensures
            idx[0] == self.spec_index0(),
            idx[1] == self.spec_index1(),
            idx[2] == self.spec_index2(),
            idx[0] < TABLE_ENTRIES,
            idx[1] < TABLE_ENTRIES,
            idx[2] < TABLE_ENTRIES,
    {
        let v: u64 = self.0;
        [(v / 512 / 512) as usize, (v / 512 % 512) as usize, (v % 512) as usize]
    }
}

impl PhysAddr {
    /// The address as a mathematical integer.
    pub open spec fn view(self) -> int {
        self.0 as int
    }

    /// Every address made by `new` lies below `PA_LIMIT`.
    pub open spec fn wf(self) -> bool {
        self.0 < PA_LIMIT
    }

    /// Keeps the low 56 bits of `bits`.
    pub fn new(bits: u64) -> (pa: PhysAddr)
        ensures
            pa@ == bits as int % 0x100_0000_0000_0000,
            pa.wf(),
            bits < PA_LIMIT ==> pa@ == bits,
    {
        let kept: u64 = bits & 0xff_ffff_ffff_ffff;
        assert(kept == bits % 0x100_0000_0000_0000) by (bit_vector)
            requires
                kept == bits & 0xff_ffff_ffff_ffff,
        ;
        PhysAddr(kept)
    }

    /// The page that holds this address.
    pub fn floor(self) -> (ppn: PhysPageNum)
        ensures
            ppn@ == page_floor(self@),
            self.wf() ==> ppn.wf(),
    {
        PhysPageNum(self.0 / PAGE_BYTES)
    }

    /// The first page that starts at or after this address.
    pub fn ceil(self) -> (ppn: PhysPageNum)
        requires
            self.wf(),
        ensures
            ppn@ == page_ceil(self@),
            ppn@ <= PPN_LIMIT,
    {
        PhysPageNum((self.0 + (PAGE_BYTES - 1)) / PAGE_BYTES)
    }

    /// The position of this address within its page.
    pub fn page_offset(self) -> (offset: usize)
        ensures
            offset == page_offset_of(self@),
    {
        (self.0 % PAGE_BYTES) as usize
    }

    /// Whether this address is the first of its page.
    pub fn aligned(self) -> (yes: bool)
        ensures
            yes == (page_offset_of(self@) == 0),
    {
        self.0 % PAGE_BYTES == 0
    }
}

impl PhysPageNum {
    /// The page number as a mathematical integer.
    pub open spec fn view(self) -> int {
        self.0 as int
    }

    /// A page number that names a page: it lies below `PPN_LIMIT`.
    pub open spec fn wf(self) -> bool {
        self.0 < PPN_LIMIT
    }

    /// Keeps the low 44 bits of `bits`.
    pub fn new(bits: u64) -> (ppn: PhysPageNum)
        ensures
            ppn@ == bits as int % 0x1000_0000_0000,
            ppn.wf(),
            bits < PPN_LIMIT ==> ppn@ == bits,
    {
        let kept: u64 = bits & 0xfff_ffff_ffff;
        assert(kept == bits % 0x1000_0000_0000) by (bit_vector)
            requires
                kept == bits & 0xfff_ffff_ffff,
        ;
        PhysPageNum(kept)
    }

    /// The address of the first byte of this page.
    pub fn start_addr(self) -> (pa: PhysAddr)
        requires
            self.wf(),
        ensures
            pa@ == self@ * 0x1000,
            pa.wf(),
    {
        PhysAddr(self.0 * PAGE_BYTES)
    }
}

} // verus!
