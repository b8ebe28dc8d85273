//! Program images.
//!
//! A program is handed to the kernel as the bytes of an executable file in
//! the 64-bit little-endian ELF format. Of such a file the kernel reads the
//! entry address and the program headers, and of those the loadable
//! segments: where a segment lies in the file, where it goes in memory, how
//! much memory it takes, and what the program may do with it.

use vstd::prelude::*;
use crate::config::PAGE_SIZE;
use crate::mm::address::{PhysPageNum, VirtAddr, VirtPageNum, VA_LIMIT, VPN_LIMIT};
use crate::mm::frame_allocator::{FrameAllocator, MemoryError};
use crate::mm::memory_set::{
    frames_for, inserted, MapPermission, MemorySet, MemorySetView, PageSpan, BARE_FRAMES,
    PERM_R, PERM_U, PERM_W, PERM_X, TRAMPOLINE_VPN, TRAP_CONTEXT_VPN,
};
use crate::mm::page_table::{has_flags, PTE_V};

verus! {

/// The length of the file header, in bytes.
pub const HEADER_SIZE: usize = 64;

/// The length of a program header, in bytes.
pub const PROGRAM_HEADER_SIZE: usize = 56;

/// The type of a program header that describes a loadable segment.
pub const PT_LOAD: u64 = 1;

/// Flag of a segment: the program may execute it.
pub const PF_X: u64 = 1;

/// Flag of a segment: the program may write it.
pub const PF_W: u64 = 2;

/// Flag of a segment: the program may read it.
pub const PF_R: u64 = 4;

/// The number that the `width` bytes of `bytes` from position `at` on spell,
/// the lowest byte first.
pub open spec fn le_value(bytes: Seq<u8>, at: int, width: nat) -> nat
    decreases width,
{
    if width == 0 {
        0
    } else {
        bytes[at] as nat + 256 * le_value(bytes, at + 1, (width - 1) as nat)
    }
}

/// 256 to the power of `width`.
pub open spec fn pow256(width: nat) -> nat
    decreases width,
{
    if width == 0 {
        1
    } else {
        256 * pow256((width - 1) as nat)
    }
}

/// `width` bytes spell a number below 256 to the power of `width`.
pub proof fn lemma_le_value_bound(bytes: Seq<u8>, at: int, width: nat)
    ensures
        le_value(bytes, at, width) < pow256(width),
    decreases width,
{
    if width > 0 {
        lemma_le_value_bound(bytes, at + 1, (width - 1) as nat);
    }
}

/// Eight bytes spell a number of 64 bits.
pub proof fn lemma_pow256_eight()
    ensures
        pow256(8) == 0x1_0000_0000_0000_0000,
        forall|width: nat| width <= 8 ==> #[trigger] pow256(width) <= 0x1_0000_0000_0000_0000,
{
    reveal_with_fuel(pow256, 9);
    assert forall|width: nat| width <= 8 implies #[trigger] pow256(width)
        <= 0x1_0000_0000_0000_0000 by {
        reveal_with_fuel(pow256, 9);
    }
}

/// The number that the `width` bytes of `image` from position `at` on spell.
fn read_le(image: &Vec<u8>, at: usize, width: usize) -> (value: u64)
    requires
        width <= 8,
        at + width <= image@.len(),
    ensures
        value == le_value(image@, at as int, width as nat),
{
    let len: usize = image.len();
    let mut value: u64 = 0;
    let mut left: usize = width;
    while left > 0
        invariant
            left <= width <= 8,
            at + width <= len,
            len == image@.len(),
            value == le_value(image@, at + left, (width - left) as nat),
        decreases left,
    {
        left -= 1;
        proof {
            lemma_le_value_bound(image@, at + left + 1, (width - left - 1) as nat);
            lemma_pow256_eight();
            assert(pow256((width - left) as nat) == 256 * pow256((width - left - 1) as nat));
        }
        value = value * 256 + image[at + left] as u64;
    }
    value
}

/// A loadable segment of a program.
#[derive(Clone, Copy, PartialEq, Eq, Structural, Debug)]
pub struct Segment {
    /// The address at which the segment starts in memory.
    pub vaddr: u64,
    /// The number of bytes that the segment takes in memory.
    pub mem_size: u64,
    /// The position at which the segment's bytes start in the file.
    pub offset: u64,
    /// The number of bytes that the segment has in the file. The rest of its
    /// memory is zero.
    pub file_size: u64,
    /// What the program may do with the segment.
    pub flags: u64,
}

impl Segment {
    /// A segment lies within its file and within the address space, and has
    /// no more bytes in the file than in memory.
    pub open spec fn wf(self, file_len: int) -> bool {
        &&& self.offset + self.file_size <= file_len
        &&& self.file_size <= self.mem_size
        &&& self.vaddr < VA_LIMIT
        &&& self.vaddr + self.mem_size <= VA_LIMIT
    }

    /// The first page of the segment.
    pub open spec fn first_page(self) -> int {
        self.vaddr as int / 4096
    }

    /// One more than the last page of the segment.
    pub open spec fn end_page(self) -> int {
        (self.vaddr + self.mem_size + 4095) / 4096
    }

    /// The permissions with which the segment is mapped: those that its
    /// flags give, for user mode.
    pub open spec fn spec_permission(self) -> u8 {
        (((if self.flags & PF_R != 0 {
            PERM_R
        } else {
            0u8
        }) | (if self.flags & PF_W != 0 {
            PERM_W
        } else {
            0u8
        })) | (if self.flags & PF_X != 0 {
            PERM_X
        } else {
            0u8
        })) | PERM_U
    }

    /// The permissions with which the segment is mapped.
    pub fn permission(&self) -> (bits: u8)
        ensures
            bits == self.spec_permission(),
            crate::mm::memory_set::is_permission(bits),
    {
        let r: u8 = if self.flags & PF_R != 0 {
            PERM_R
        } else {
            0
        };
        let w: u8 = if self.flags & PF_W != 0 {
            PERM_W
        } else {
            0
        };
        let x: u8 = if self.flags & PF_X != 0 {
            PERM_X
        } else {
            0
        };
        assert((r == 2 || r == 0) && (w == 4 || w == 0) && (x == 8 || x == 0) ==> (((r | w) | x)
            | 0x10u8) & 0xe1u8 == 0) by (bit_vector);
        ((r | w) | x) | PERM_U
    }
}

/// What the kernel reads of a program's file.
pub struct ProgramImage {
    /// The address at which the program starts to run.
    pub entry: u64,
    /// The loadable segments in the order of their program headers.
    pub segments: Vec<Segment>,
}

/// The entry address that the file header holds.
pub open spec fn header_entry(bytes: Seq<u8>) -> nat {
    le_value(bytes, 0x18, 8)
}

/// The position of the program headers that the file header holds.
pub open spec fn header_phoff(bytes: Seq<u8>) -> nat {
    le_value(bytes, 0x20, 8)
}

/// The length of one program header that the file header holds.
pub open spec fn header_phentsize(bytes: Seq<u8>) -> nat {
    le_value(bytes, 0x36, 2)
}

/// The number of program headers that the file header holds.
pub open spec fn header_phnum(bytes: Seq<u8>) -> nat {
    le_value(bytes, 0x38, 2)
}

/// Whether `bytes` start with the header of a 64-bit little-endian ELF file
/// whose program headers have the usual length and lie within the file.
pub open spec fn header_ok(bytes: Seq<u8>) -> bool {
    &&& bytes.len() >= HEADER_SIZE
    &&& bytes[0] == 0x7f
    &&& bytes[1] == 0x45
    &&& bytes[2] == 0x4c
    &&& bytes[3] == 0x46
    &&& bytes[4] == 2
    &&& bytes[5] == 1
    &&& header_phentsize(bytes) == PROGRAM_HEADER_SIZE
    &&& header_phoff(bytes) + header_phnum(bytes) * 56 <= bytes.len()
}

/// The position of program header `i`.
pub open spec fn ph_at(bytes: Seq<u8>, i: int) -> int {
    header_phoff(bytes) + i * 56
}

/// Whether program header `i` describes a loadable segment.
pub open spec fn ph_loads(bytes: Seq<u8>, i: int) -> bool {
    le_value(bytes, ph_at(bytes, i), 4) == PT_LOAD
}

/// The segment that program header `i` describes.
pub open spec fn ph_segment(bytes: Seq<u8>, i: int) -> Segment {
    Segment {
        flags: le_value(bytes, ph_at(bytes, i) + 4, 4) as u64,
        offset: le_value(bytes, ph_at(bytes, i) + 8, 8) as u64,
        vaddr: le_value(bytes, ph_at(bytes, i) + 0x10, 8) as u64,
        file_size: le_value(bytes, ph_at(bytes, i) + 0x20, 8) as u64,
        mem_size: le_value(bytes, ph_at(bytes, i) + 0x28, 8) as u64,
    }
}

/// The loadable segments that the first `n` program headers describe, in
/// their order.
pub open spec fn load_segments(bytes: Seq<u8>, n: nat) -> Seq<Segment>
    decreases n,
{
    if n == 0 {
        Seq::empty()
    } else if ph_loads(bytes, n - 1) {
        load_segments(bytes, (n - 1) as nat).push(ph_segment(bytes, n - 1))
    } else {
        load_segments(bytes, (n - 1) as nat)
    }
}

/// Whether `bytes` are a program that the kernel can load: the header is in
/// order, and every loadable segment lies within the file and within the
/// address space.
pub open spec fn image_ok(bytes: Seq<u8>) -> bool {
    &&& header_ok(bytes)
    &&& forall|i: int|
        0 <= i < header_phnum(bytes) && #[trigger] ph_loads(bytes, i) ==> ph_segment(
            bytes,
            i,
        ).wf(bytes.len() as int)
}

/// Every segment among the loadable ones of the first `n` program headers is
/// described by one of them.
pub proof fn lemma_load_segments(bytes: Seq<u8>, n: nat)
    requires
        forall|i: int|
            0 <= i < n && #[trigger] ph_loads(bytes, i) ==> ph_segment(bytes, i).wf(
                bytes.len() as int,
            ),
    ensures
        load_segments(bytes, n).len() <= n,
        forall|k: int|
            0 <= k < load_segments(bytes, n).len() ==> (#[trigger] load_segments(bytes, n)[k]).wf(
                bytes.len() as int,
            ),
    decreases n,
{
    if n > 0 {
        lemma_load_segments(bytes, (n - 1) as nat);
        if ph_loads(bytes, n - 1) {
            assert(ph_segment(bytes, n - 1).wf(bytes.len() as int));
        }
    }
}

/// Reads a program. Returns nothing unless `image` is a program that the
/// kernel can load.
pub fn parse_image(image: &Vec<u8>) -> (parsed: Option<ProgramImage>)
    ensures
        parsed is Some <==> image_ok(image@),
        parsed matches Some(program) ==> {
            &&& program.entry == header_entry(image@)
            &&& program.segments@ == load_segments(image@, header_phnum(image@))
            &&& forall|k: int|
                0 <= k < program.segments@.len() ==> (#[trigger] program.segments@[k]).wf(
                    image@.len() as int,
                )
        },
{
    if image.len() < HEADER_SIZE {
        return None;
    }
    if image[0] != 0x7f || image[1] != 0x45 || image[2] != 0x4c || image[3] != 0x46 {
        return None;
    }
    if image[4] != 2 || image[5] != 1 {
        return None;
    }
    let entry: u64 = read_le(image, 0x18, 8);
    let phoff: u64 = read_le(image, 0x20, 8);
    let phentsize: u64 = read_le(image, 0x36, 2);
    let phnum: u64 = read_le(image, 0x38, 2);
    proof {
        lemma_le_value_bound(image@, 0x38, 2);
        reveal_with_fuel(pow256, 3);
    }
    if phentsize != PROGRAM_HEADER_SIZE as u64 {
        return None;
    }
    let len: u64 = image.len() as u64;
    if phoff > len || phnum * 56 > len - phoff {
        return None;
    }
    let mut segments: Vec<Segment> = Vec::new();
    let mut i: u64 = 0;
    while i < phnum
        invariant
            i <= phnum,
            phnum == header_phnum(image@),
            phoff == header_phoff(image@),
            len == image@.len(),
            phnum < 0x1_0000,
            phoff + phnum * 56 <= len,
            len <= usize::MAX,
            header_ok(image@),
            segments@ == load_segments(image@, i as nat),
            forall|k: int|
                0 <= k < i && #[trigger] ph_loads(image@, k) ==> ph_segment(image@, k).wf(
                    len as int,
                ),
        decreases phnum - i,
    {
        let at: usize = (phoff + i * 56) as usize;
        assert(at == ph_at(image@, i as int));
        let kind: u64 = read_le(image, at, 4);
        if kind == PT_LOAD {
            let segment = Segment {
                flags: read_le(image, at + 4, 4),
                offset: read_le(image, at + 8, 8),
                vaddr: read_le(image, at + 0x10, 8),
                file_size: read_le(image, at + 0x20, 8),
                mem_size: read_le(image, at + 0x28, 8),
            };
            assert(segment == ph_segment(image@, i as int));
            if segment.offset > len || segment.file_size > len - segment.offset
                || segment.file_size > segment.mem_size || segment.vaddr >= VA_LIMIT
                || segment.mem_size > VA_LIMIT - segment.vaddr {
                assert(!segment.wf(len as int));
                assert(ph_loads(image@, i as int));
                return None;
            }
            segments.push(segment);
        }
        i += 1;
    }
    proof {
        lemma_load_segments(image@, phnum as nat);
    }
    Some(ProgramImage { entry, segments })
}

/// The number of pages of a user stack: as many as hold `USER_STACK_SIZE`
/// bytes.
pub const USER_STACK_PAGES: u64 = 2;

/// One more than the last page of the first `n` of `segments`, or 0 where
/// there is none.
pub open spec fn top_page(segments: Seq<Segment>, n: nat) -> int
    decreases n,
{
    if n == 0 {
        0
    } else {
        let rest = top_page(segments, (n - 1) as nat);
        if segments[n - 1].end_page() > rest {
            segments[n - 1].end_page()
        } else {
            rest
        }
    }
}

/// The pages of the user stack of a program with `segments`: they start one
/// page above the program's last page, so that a page that is not mapped
/// guards the program against a stack that grows too far.
pub open spec fn stack_span(segments: Seq<Segment>) -> PageSpan {
    PageSpan {
        first: top_page(segments, segments.len()) + 1,
        end: top_page(segments, segments.len()) + 1 + USER_STACK_PAGES,
    }
}

/// The runs of pages that loading a program with `segments` maps, in the
/// order in which it maps them: one for each segment, and the stack last.
pub open spec fn image_spans(segments: Seq<Segment>) -> Seq<PageSpan> {
    Seq::new(
        segments.len() + 1,
        |k: int|
            if k < segments.len() {
                PageSpan { first: segments[k].first_page(), end: segments[k].end_page() }
            } else {
                stack_span(segments)
            },
    )
}

/// The leaves of a translation tree with the leaves `leaves` after the pages
/// `start .. end` were mapped.
pub open spec fn leaves_with(leaves: Set<int>, start: int, end: int) -> Set<int> {
    Set::new(
        |prefix: int|
            leaves.contains(prefix) || (start < end && start / 512 <= prefix <= (end - 1) / 512),
    )
}

/// The middle nodes of a translation tree with the middle nodes `mids` after
/// the pages `start .. end` were mapped.
pub open spec fn mids_with(mids: Set<int>, start: int, end: int) -> Set<int> {
    Set::new(
        |top: int|
            mids.contains(top) || (start < end && start / 512 / 512 <= top <= (end - 1) / 512
                / 512),
    )
}

/// What mapping the runs `spans[k ..]`, one after the other and each page to
/// a frame of its own, answers in an address space with the mapped pages
/// `mapped`, the leaves `leaves` and the middle nodes `mids` while `free`
/// frames are free: the refusal of the first run that is refused, if one is.
pub open spec fn load_outcome(
    mapped: Set<int>,
    leaves: Set<int>,
    mids: Set<int>,
    free: int,
    spans: Seq<PageSpan>,
    k: int,
) -> Result<(), MemoryError>
    decreases spans.len() - k,
{
    if k < 0 || k >= spans.len() {
        Ok(())
    } else {
        let first = spans[k].first;
        let end = spans[k].end;
        if !(first <= end <= VPN_LIMIT) {
            Err(MemoryError::InvalidRange)
        } else if exists|vpn: int| first <= vpn < end && mapped.contains(vpn) {
            Err(MemoryError::AlreadyMapped)
        } else if free < frames_for(leaves, mids, first, end, true) {
            Err(MemoryError::OutOfMemory)
        } else {
            load_outcome(
                mapped.union(crate::mm::memory_set::page_range(first, end)),
                leaves_with(leaves, first, end),
                mids_with(mids, first, end),
                free - frames_for(leaves, mids, first, end, true),
                spans,
                k + 1,
            )
        }
    }
}

/// The number of frames that mapping the runs `spans[k ..]` takes, one after
/// the other and each page to a frame of its own, in a translation tree with
/// the leaves `leaves` and the middle nodes `mids`.
pub open spec fn load_frames(leaves: Set<int>, mids: Set<int>, spans: Seq<PageSpan>, k: int) -> nat
    decreases spans.len() - k,
{
    if k < 0 || k >= spans.len() {
        0
    } else {
        frames_for(leaves, mids, spans[k].first, spans[k].end, true) + load_frames(
            leaves_with(leaves, spans[k].first, spans[k].end),
            mids_with(mids, spans[k].first, spans[k].end),
            spans,
            k + 1,
        )
    }
}

/// The number of frames that the address space of the program `bytes`
/// takes: those of a bare address space, and those of the program's segments
/// and of its stack.
pub open spec fn image_frames(bytes: Seq<u8>) -> nat {
    BARE_FRAMES as nat + load_frames(
        set![TRAMPOLINE_VPN as int / 512],
        set![TRAMPOLINE_VPN as int / 512 / 512],
        image_spans(load_segments(bytes, header_phnum(bytes))),
        0,
    )
}

/// What loading the program `bytes` answers while `free` frames are free:
/// `InvalidImage` where the bytes are no program; else `OutOfMemory` where a
/// bare address space cannot be made; else the refusal of the first segment,
/// or of the stack, that cannot be mapped: because it reaches beyond the
/// address space, because one of its pages is mapped already, or because too
/// few frames are free.
pub open spec fn image_outcome(bytes: Seq<u8>, free: nat) -> Result<(), MemoryError> {
    if !image_ok(bytes) {
        Err(MemoryError::InvalidImage)
    } else if free < BARE_FRAMES {
        Err(MemoryError::OutOfMemory)
    } else {
        load_outcome(
            set![TRAMPOLINE_VPN as int, TRAP_CONTEXT_VPN as int],
            set![TRAMPOLINE_VPN as int / 512],
            set![TRAMPOLINE_VPN as int / 512 / 512],
            free - BARE_FRAMES,
            image_spans(load_segments(bytes, header_phnum(bytes))),
            0,
        )
    }
}

/// Whether page `vpn` belongs to one of the first `n` of `segments`.
pub open spec fn in_segment_pages(segments: Seq<Segment>, n: int, vpn: int) -> bool {
    exists|k: int|
        0 <= k < n && (#[trigger] segments[k]).first_page() <= vpn < segments[k].end_page()
}

/// Whether the byte at address `addr` comes from the file of one of the first
/// `n` of `segments`.
pub open spec fn in_segment_file(segments: Seq<Segment>, n: int, addr: int) -> bool {
    exists|k: int|
        0 <= k < n && (#[trigger] segments[k]).vaddr <= addr < segments[k].vaddr
            + segments[k].file_size
}

/// How an address space looks in which the first `n` of the `segments` of
/// the program `bytes` are loaded: besides the trampoline and the trap
/// context exactly the pages of those segments are mapped, each with a frame
/// of its own and with its segment's permissions; the bytes that a segment
/// has in the file lie at the segment's address, and every other byte is
/// zero.
pub open spec fn segments_loaded(
    space: MemorySetView,
    bytes: Seq<u8>,
    segments: Seq<Segment>,
    n: int,
    stack: Set<int>,
) -> bool {
    &&& forall|vpn: int| #[trigger]
        space.mappings.contains_key(vpn) <==> (vpn == TRAMPOLINE_VPN || vpn == TRAP_CONTEXT_VPN
            || stack.contains(vpn) || in_segment_pages(segments, n, vpn))
    &&& forall|vpn: int| #[trigger]
        space.frames.contains_key(vpn) <==> (space.mappings.contains_key(vpn) && vpn
            != TRAMPOLINE_VPN)
    &&& forall|k: int, vpn: int|
        0 <= k < n && (#[trigger] segments[k]).first_page() <= vpn < segments[k].end_page()
            ==> (#[trigger] space.mappings[vpn]).spec_flags() == segments[k].spec_permission()
            | PTE_V && vpn != TRAMPOLINE_VPN && vpn != TRAP_CONTEXT_VPN
    &&& forall|k: int, i: int|
        0 <= k < n && 0 <= i < (#[trigger] segments[k]).file_size ==> #[trigger] space.byte(
            segments[k].vaddr + i,
        ) == bytes[segments[k].offset + i]
    &&& forall|addr: int|
        0 <= addr && space.frames.contains_key(addr / 4096) && !in_segment_file(
            segments,
            n,
            addr,
        ) ==> #[trigger] space.byte(addr) == 0
}

/// How the address space of the program `bytes` looks: the program's
/// segments are loaded, and above them the stack is mapped, readable and
/// writable in user mode.
pub open spec fn image_loaded(space: MemorySetView, bytes: Seq<u8>) -> bool {
    let segments = load_segments(bytes, header_phnum(bytes));
    let stack = stack_span(segments);
    &&& segments_loaded(
        space,
        bytes,
        segments,
        segments.len() as int,
        crate::mm::memory_set::page_range(stack.first, stack.end),
    )
    &&& forall|vpn: int|
        stack.first <= vpn < stack.end ==> (#[trigger] space.mappings[vpn]).spec_flags()
            == (PERM_R | PERM_W | PERM_U) | PTE_V
}

/// A run is refused for a mapped page exactly where one of its pages is in
/// the domain of the mappings.
proof fn lemma_span_outcome(space: MemorySetView, free: nat, first: int, end: int)
    ensures
        (exists|vpn: int| first <= vpn < end && space.mappings.contains_key(vpn)) == (exists|
            vpn: int,
        |
            first <= vpn < end && space.mappings.dom().contains(vpn)),
{
    if exists|vpn: int| first <= vpn < end && space.mappings.contains_key(vpn) {
        let w = choose|vpn: int| first <= vpn < end && space.mappings.contains_key(vpn);
        assert(first <= w < end && space.mappings.dom().contains(w));
    }
    if exists|vpn: int| first <= vpn < end && space.mappings.dom().contains(vpn) {
        let w = choose|vpn: int| first <= vpn < end && space.mappings.dom().contains(vpn);
        assert(first <= w < end && space.mappings.contains_key(w));
    }
}

/// The bytes `image[from .. from + len]`.
fn copy_range(image: &Vec<u8>, from: usize, len: usize) -> (copy: Vec<u8>)
    requires
        from + len <= image@.len(),
    ensures
        copy@ == image@.subrange(from as int, from + len),
{
    let total: usize = image.len();
    let mut copy: Vec<u8> = Vec::new();
    let mut i: usize = 0;
    while i < len
        invariant
            i <= len,
            from + len <= total,
            total == image@.len(),
            copy@ == image@.subrange(from as int, from + i),
        decreases len - i,
    {
        copy.push(image[from + i]);
        proof {
            assert(copy@ =~= image@.subrange(from as int, from + i + 1));
        }
        i += 1;
    }
    copy
}

impl MemorySet {
    /// The address space of the program whose file is `image`. It holds what
    /// every address space holds, the trampoline mapped to frame
    /// `trampoline` and the trap-context page, and besides: each loadable
    /// segment of the program, mapped for user mode with the permissions of
    /// its flags, with its bytes from the file at its address and zeros
    /// behind them; and the user stack, one page above the program's last
    /// page. Returned with it are the top of the stack and the program's
    /// entry address.
    ///
    /// Refused as `image_outcome` says. Whatever frames were taken before
    /// the refusal are given back: `pool` has the free frames that it had.
    #[verifier::rlimit(100)]
    pub fn from_image(pool: &mut FrameAllocator, trampoline: PhysPageNum, image: &Vec<u8>) -> (made:
        Result<(MemorySet, u64, u64), MemoryError>)
        requires
            old(pool).wf(),
            trampoline.wf(),
        ensures
            final(pool).wf(),
            final(pool).spec_start() == old(pool).spec_start(),
            final(pool).spec_end() == old(pool).spec_end(),
            forall|p: int| final(pool).is_free(p) ==> old(pool).is_free(p),
            made is Ok <==> image_outcome(image@, old(pool).free_count()) is Ok,
            made matches Err(e) ==> image_outcome(image@, old(pool).free_count()) == Err::<
                (),
                MemoryError,
            >(e),
            made is Err ==> final(pool).free_count() == old(pool).free_count() && forall|p: int|
                #[trigger] final(pool).is_free(p) == old(pool).is_free(p),
            made matches Ok(loaded) ==> {
                &&& loaded.0.wf()
                &&& image_loaded(loaded.0@, image@)
                &&& loaded.0@.mappings[TRAMPOLINE_VPN as int].spec_ppn() == trampoline@
                &&& loaded.1 == stack_span(load_segments(image@, header_phnum(image@))).end
                    * 4096
                &&& loaded.2 == header_entry(image@)
                &&& forall|p: int| #[trigger]
                    loaded.0@.owns(p) == (old(pool).is_free(p) && !final(pool).is_free(p))
                &&& loaded.0@.exclusive()
                &&& loaded.0@.held_in(*final(pool))
                &&& final(pool).free_count() == old(pool).free_count() - image_frames(image@)
            },
    {
        let program = match parse_image(image) {
            Some(program) => program,
            None => {
                return Err(MemoryError::InvalidImage);
            },
        };
        let ghost bytes = image@;
        let ghost segments = program.segments@;
        let ghost spans = image_spans(segments);
        let ghost goal = image_outcome(bytes, old(pool).free_count());
        let ghost total = image_frames(bytes);
        let mut space = match MemorySet::new_bare(pool, trampoline) {
            Ok(space) => space,
            Err(e) => {
                return Err(e);
            },
        };
        proof {
            space.lemma_view();
            crate::mm::page_table::PageTableEntry::lemma_new(trampoline@, 0x0b);
            assert(crate::mm::page_table::PTE_R | crate::mm::page_table::PTE_X | PTE_V == 0x0b)
                by (bit_vector);
            assert(space@.mappings.dom() =~= set![
                TRAMPOLINE_VPN as int,
                TRAP_CONTEXT_VPN as int,
            ]);
            assert(space@.frames.dom() =~= set![TRAP_CONTEXT_VPN as int]);
            assert forall|addr: int|
                0 <= addr && space@.frames.contains_key(addr / 4096) implies #[trigger] space@.byte(
                addr,
            ) == 0 by {}
        }
        let mut top: u64 = 0;
        let mut k: usize = 0;
        while k < program.segments.len()
            invariant
                k <= segments.len(),
                bytes == image@,
                segments == program.segments@,
                spans == image_spans(segments),
                forall|j: int|
                    0 <= j < segments.len() ==> (#[trigger] segments[j]).wf(bytes.len() as int),
                space.wf(),
                pool.wf(),
                pool.spec_start() == old(pool).spec_start(),
                pool.spec_end() == old(pool).spec_end(),
                forall|p: int| pool.is_free(p) ==> old(pool).is_free(p),
                top == top_page(segments, k as nat),
                top <= VPN_LIMIT,
                goal == load_outcome(
                    space@.mappings.dom(),
                    space@.leaves,
                    space@.mids,
                    pool.free_count() as int,
                    spans,
                    k as int,
                ),
                segments_loaded(space@, bytes, segments, k as int, Set::empty()),
                space@.mappings[TRAMPOLINE_VPN as int].spec_ppn() == trampoline@,
                space@.mappings.contains_key(TRAMPOLINE_VPN as int),
                space@.mappings.contains_key(TRAP_CONTEXT_VPN as int),
                image_ok(bytes),
                old(pool).free_count() >= BARE_FRAMES,
                old(pool).wf(),
                forall|p: int| #[trigger]
                    space@.owns(p) == (old(pool).is_free(p) && !pool.is_free(p)),
                space@.exclusive(),
                space@.held_in(*pool),
                total == image_frames(bytes),
                total == old(pool).free_count() - pool.free_count() + load_frames(
                    space@.leaves,
                    space@.mids,
                    spans,
                    k as int,
                ),
                goal == image_outcome(bytes, old(pool).free_count()),
            decreases segments.len() - k,
        {
            let segment = program.segments[k];
            assert(segment.wf(bytes.len() as int));
            let first = VirtPageNum(segment.vaddr / 4096);
            let end = VirtPageNum((segment.vaddr + segment.mem_size + 4095) / 4096);
            let permission = MapPermission::from_bits(segment.permission()).unwrap();
            let ghost pre = space@;
            let ghost free = pool.free_count();
            let ghost taken_before = *pool;
            proof {
                assert(spans[k as int] == PageSpan { first: first@, end: end@ });
                lemma_span_outcome(pre, free, first@, end@);
            }
            match space.insert_framed_area(pool, first, end, permission) {
                Ok(_) => {},
                Err(e) => {
                    let ghost taken = *pool;
                    space.release(pool);
                    proof {
                        old(pool).lemma_free_frames();
                        assert forall|p: int| #[trigger] pool.is_free(p) == old(pool).is_free(p) by {
                            assert(space@.owns(p) == (old(pool).is_free(p) && !taken.is_free(p)));
                        }
                        pool.lemma_same_free_frames(old(pool));
                    }
                    return Err(e);
                },
            }
            let ghost mid = space@;
            proof {
                assert(mid.leaves =~= leaves_with(pre.leaves, first@, end@));
                assert(mid.mids =~= mids_with(pre.mids, first@, end@));
                space.lemma_view();
                assert forall|a: int|
                    segment.vaddr <= a < segment.vaddr + segment.file_size implies mid.accessible(
                    #[trigger] (a / 4096),
                    0,
                ) by {
                    assert(first@ <= a / 4096 < end@);
                    assert(crate::mm::memory_set::page_range(first@, end@).contains(a / 4096));
                    assert(crate::mm::memory_set::cleared_pages(first@, end@).contains_key(
                        a / 4096,
                    ));
                    let f = mid.mappings[a / 4096].spec_flags();
                    assert(has_flags(f, 0)) by (bit_vector);
                }
            }
            let total: usize = image.len();
            assert(segment.offset + segment.file_size <= total);
            let data = copy_range(image, segment.offset as usize, segment.file_size as usize);
            let stored = space.store_bytes(VirtAddr(segment.vaddr), &data, 0);
            assert(stored);
            proof {
                let post = space@;
                let n = k as int + 1;
                assert(post.mappings == mid.mappings);
                assert(post.frames.dom() =~= mid.frames.dom());
                mid.lemma_with_bytes_owns(segment.vaddr as int, data@);
                assert(post.exclusive());
                assert forall|p: int| #[trigger] post.owns(p) implies pool.is_allocated(p) by {
                    assert(mid.owns(p));
                }
                assert forall|p: int| #[trigger]
                    post.owns(p) == (old(pool).is_free(p) && !pool.is_free(p)) by {
                    assert(mid.owns(p) == (pre.owns(p) || (taken_before.is_free(p)
                        && !pool.is_free(p))));
                    assert(pre.owns(p) == (old(pool).is_free(p) && !taken_before.is_free(p)));
                    if exists|vpn: int|
                        mid.frames.contains_key(vpn) && (#[trigger] mid.mappings[vpn]).spec_ppn()
                            == p {
                        let vpn = choose|vpn: int|
                            mid.frames.contains_key(vpn) && (
                            #[trigger] mid.mappings[vpn]).spec_ppn() == p;
                        assert(post.frames.contains_key(vpn) && post.mappings[vpn].spec_ppn() == p);
                    }
                    if exists|vpn: int|
                        post.frames.contains_key(vpn) && (#[trigger] post.mappings[vpn]).spec_ppn()
                            == p {
                        let vpn = choose|vpn: int|
                            post.frames.contains_key(vpn) && (
                            #[trigger] post.mappings[vpn]).spec_ppn() == p;
                        assert(mid.frames.contains_key(vpn) && mid.mappings[vpn].spec_ppn() == p);
                    }
                }
                assert forall|vpn: int| #[trigger]
                    post.mappings.contains_key(vpn) <==> (vpn == TRAMPOLINE_VPN || vpn
                        == TRAP_CONTEXT_VPN || Set::<int>::empty().contains(vpn)
                        || in_segment_pages(segments, n, vpn)) by {
                    if in_segment_pages(segments, n, vpn) {
                        let j = choose|j: int|
                            0 <= j < n && (#[trigger] segments[j]).first_page() <= vpn
                                < segments[j].end_page();
                        if j < k {
                            assert(in_segment_pages(segments, k as int, vpn));
                        } else {
                            assert(crate::mm::memory_set::page_range(first@, end@).contains(vpn));
                        }
                    }
                    if post.mappings.contains_key(vpn) {
                        if pre.mappings.contains_key(vpn) {
                            if in_segment_pages(segments, k as int, vpn) {
                                let j = choose|j: int|
                                    0 <= j < k && (#[trigger] segments[j]).first_page() <= vpn
                                        < segments[j].end_page();
                                assert(0 <= j < n && segments[j].first_page() <= vpn
                                    < segments[j].end_page());
                            }
                        } else {
                            assert(crate::mm::memory_set::page_range(first@, end@).contains(vpn));
                            assert(segments[k as int].first_page() <= vpn
                                < segments[k as int].end_page());
                        }
                    }
                }
                assert forall|vpn: int| #[trigger]
                    post.frames.contains_key(vpn) <==> (post.mappings.contains_key(vpn) && vpn
                        != TRAMPOLINE_VPN) by {
                    if post.mappings.contains_key(vpn) && !pre.mappings.contains_key(vpn) {
                        assert(crate::mm::memory_set::page_range(first@, end@).contains(vpn));
                        assert(crate::mm::memory_set::cleared_pages(first@, end@).contains_key(
                            vpn,
                        ));
                    }
                }
                assert forall|j: int, vpn: int|
                    0 <= j < n && (#[trigger] segments[j]).first_page() <= vpn
                        < segments[j].end_page() implies (#[trigger] post.mappings[vpn]).spec_flags()
                    == segments[j].spec_permission() | PTE_V && vpn != TRAMPOLINE_VPN && vpn
                    != TRAP_CONTEXT_VPN by {
                    if j < k {
                        assert(in_segment_pages(segments, k as int, vpn));
                        assert(pre.mappings.contains_key(vpn));
                    } else {
                        assert(pre.mappings.contains_key(TRAMPOLINE_VPN as int));
                        assert(pre.mappings.contains_key(TRAP_CONTEXT_VPN as int));
                    }
                }
                assert forall|j: int, i: int|
                    0 <= j < n && 0 <= i < (#[trigger] segments[j]).file_size implies #[trigger] post.byte(
                    segments[j].vaddr + i,
                ) == bytes[segments[j].offset + i] by {
                    let a = segments[j].vaddr + i;
                    let page = a / 4096;
                    let offset = a % 4096;
                    assert(page * 4096 + offset == a);
                    assert(segments[j].wf(bytes.len() as int));
                    assert(segments[j].first_page() <= a / 4096 < segments[j].end_page());
                    assert(data@.len() == segment.file_size);
                    assert(post.frames.contains_key(page) ==> post.frames[page][offset] == (
                    if segment.vaddr <= a < segment.vaddr + segment.file_size {
                        data@[a - segment.vaddr]
                    } else {
                        mid.frames[page][offset]
                    }));
                    if j < k {
                        assert(in_segment_pages(segments, k as int, a / 4096));
                        assert(pre.mappings.contains_key(a / 4096));
                        assert(pre.mappings[a / 4096].spec_flags() == segments[j].spec_permission()
                            | PTE_V && a / 4096 != TRAMPOLINE_VPN);
                        assert(pre.frames.contains_key(a / 4096));
                        assert(!(first@ <= a / 4096 < end@));
                        assert(!(segment.vaddr <= a < segment.vaddr + segment.file_size));
                        assert(mid.frames[a / 4096] == pre.frames[a / 4096]);
                        assert(pre.byte(a) == bytes[segments[j].offset + i]);
                    } else {
                        assert(crate::mm::memory_set::page_range(first@, end@).contains(a / 4096));
                        assert(crate::mm::memory_set::cleared_pages(first@, end@).contains_key(
                            a / 4096,
                        ));
                        assert(mid.frames.contains_key(a / 4096));
                        assert(post.frames.contains_key(page));
                        assert(data@[i] == bytes[segment.offset + i]);
                    }
                }
                assert forall|addr: int|
                    0 <= addr && post.frames.contains_key(addr / 4096) && !in_segment_file(
                        segments,
                        n,
                        addr,
                    ) implies #[trigger] post.byte(addr) == 0 by {
                    assert(!(segments[k as int].vaddr <= addr < segments[k as int].vaddr
                        + segments[k as int].file_size));
                    if first@ <= addr / 4096 < end@ {
                        assert(crate::mm::memory_set::cleared_pages(first@, end@).contains_key(
                            addr / 4096,
                        ));
                    } else {
                        assert(pre.frames.contains_key(addr / 4096));
                        assert(!in_segment_file(segments, k as int, addr)) by {
                            if in_segment_file(segments, k as int, addr) {
                                let j = choose|j: int|
                                    0 <= j < k && (#[trigger] segments[j]).vaddr <= addr
                                        < segments[j].vaddr + segments[j].file_size;
                                assert(0 <= j < n && segments[j].vaddr <= addr < segments[j].vaddr
                                    + segments[j].file_size);
                            }
                        }
                        assert(mid.frames[addr / 4096] == pre.frames[addr / 4096]);
                        assert(pre.byte(addr) == 0);
                    }
                }
                assert(post.mappings.dom() =~= pre.mappings.dom().union(
                    crate::mm::memory_set::page_range(first@, end@),
                ));
            }
            if end.0 > top {
                top = end.0;
            }
            k += 1;
        }
        let stack_pages: u64 = (crate::config::USER_STACK_SIZE / PAGE_SIZE) as u64;
        assert(stack_pages == USER_STACK_PAGES);
        let bottom = VirtPageNum(top + 1);
        let stack_top = VirtPageNum(top + 1 + stack_pages);
        assert(crate::mm::memory_set::is_permission((PERM_R | PERM_W) | PERM_U)) by (bit_vector);
        let permission = MapPermission::from_bits(PERM_R | PERM_W | PERM_U).unwrap();
        let ghost pre = space@;
        let ghost taken_before = *pool;
        proof {
            assert(spans[segments.len() as int] == PageSpan {
                first: bottom@,
                end: stack_top@,
            });
            lemma_span_outcome(pre, pool.free_count(), bottom@, stack_top@);
            assert(crate::mm::memory_set::is_permission((PERM_R | PERM_W) | PERM_U))
                by (bit_vector);
        }
        match space.insert_framed_area(pool, bottom, stack_top, permission) {
            Ok(_) => {},
            Err(e) => {
                let ghost taken = *pool;
                space.release(pool);
                proof {
                    old(pool).lemma_free_frames();
                    assert forall|p: int| #[trigger] pool.is_free(p) == old(pool).is_free(p) by {
                        assert(space@.owns(p) == (old(pool).is_free(p) && !taken.is_free(p)));
                    }
                    pool.lemma_same_free_frames(old(pool));
                }
                return Err(e);
            },
        }
        proof {
            let post = space@;
            let n = segments.len() as int;
            let stack = crate::mm::memory_set::page_range(bottom@, stack_top@);
            assert(post.leaves =~= leaves_with(pre.leaves, bottom@, stack_top@));
            assert(post.mids =~= mids_with(pre.mids, bottom@, stack_top@));
            assert(post.mappings.dom() =~= pre.mappings.dom().union(stack));
            assert forall|vpn: int| #[trigger]
                post.mappings.contains_key(vpn) <==> (vpn == TRAMPOLINE_VPN || vpn
                    == TRAP_CONTEXT_VPN || stack.contains(vpn) || in_segment_pages(
                    segments,
                    n,
                    vpn,
                )) by {
                if post.mappings.contains_key(vpn) && !pre.mappings.contains_key(vpn) {
                    assert(stack.contains(vpn));
                }
                if in_segment_pages(segments, n, vpn) {
                    assert(pre.mappings.contains_key(vpn));
                }
            }
            assert forall|vpn: int| #[trigger]
                post.frames.contains_key(vpn) <==> (post.mappings.contains_key(vpn) && vpn
                    != TRAMPOLINE_VPN) by {
                if stack.contains(vpn) {
                    assert(crate::mm::memory_set::cleared_pages(bottom@, stack_top@).contains_key(
                        vpn,
                    ));
                }
            }
            assert forall|j: int, vpn: int|
                0 <= j < n && (#[trigger] segments[j]).first_page() <= vpn
                    < segments[j].end_page() implies (#[trigger] post.mappings[vpn]).spec_flags()
                == segments[j].spec_permission() | PTE_V && vpn != TRAMPOLINE_VPN && vpn
                != TRAP_CONTEXT_VPN by {
                assert(in_segment_pages(segments, n, vpn));
                assert(pre.mappings.contains_key(vpn));
            }
            assert forall|j: int, i: int|
                0 <= j < n && 0 <= i < (#[trigger] segments[j]).file_size implies #[trigger] post.byte(
                segments[j].vaddr + i,
            ) == bytes[segments[j].offset + i] by {
                let a = segments[j].vaddr + i;
                assert(segments[j].wf(bytes.len() as int));
                assert(segments[j].first_page() <= a / 4096 < segments[j].end_page());
                assert(in_segment_pages(segments, n, a / 4096));
                assert(pre.mappings.contains_key(a / 4096));
                assert(pre.mappings[a / 4096].spec_flags() == segments[j].spec_permission() | PTE_V
                    && a / 4096 != TRAMPOLINE_VPN);
                assert(pre.frames.contains_key(a / 4096));
                assert(!stack.contains(a / 4096));
                assert(post.frames[a / 4096] == pre.frames[a / 4096]);
                assert(pre.byte(a) == bytes[segments[j].offset + i]);
            }
            assert forall|addr: int|
                0 <= addr && post.frames.contains_key(addr / 4096) && !in_segment_file(
                    segments,
                    n,
                    addr,
                ) implies #[trigger] post.byte(addr) == 0 by {
                if stack.contains(addr / 4096) {
                    assert(crate::mm::memory_set::cleared_pages(bottom@, stack_top@).contains_key(
                        addr / 4096,
                    ));
                } else {
                    assert(pre.frames.contains_key(addr / 4096));
                    assert(post.frames[addr / 4096] == pre.frames[addr / 4096]);
                    assert(pre.byte(addr) == 0);
                }
            }
            assert forall|vpn: int| bottom@ <= vpn < stack_top@ implies (
            #[trigger] post.mappings[vpn]).spec_flags() == (PERM_R | PERM_W | PERM_U) | PTE_V by {}
            assert forall|p: int| #[trigger]
                post.owns(p) == (old(pool).is_free(p) && !pool.is_free(p)) by {
                assert(post.owns(p) == (pre.owns(p) || (taken_before.is_free(p) && !pool.is_free(
                    p,
                ))));
                assert(pre.owns(p) == (old(pool).is_free(p) && !taken_before.is_free(p)));
            }
            assert(spans.len() == n + 1);
            assert(load_frames(post.leaves, post.mids, spans, n + 1) == 0);
            assert(load_outcome(
                post.mappings.dom(),
                post.leaves,
                post.mids,
                pool.free_count() as int,
                spans,
                n + 1,
            ) is Ok);
            assert(goal is Ok);
        }
        Ok((space, stack_top.0 * 4096, program.entry))
    }
}

} // verus!
