use rv_kernel::mm::address::{PhysAddr, PhysPageNum, VirtAddr, VirtPageNum};
use rv_kernel::mm::frame_allocator::{FrameAllocator, FrameTracker, MemoryError};
use rv_kernel::mm::memory_set::{
    MapPermission, MapType, MemorySet, BARE_FRAMES, PERM_R, PERM_U, PERM_W, PERM_X,
    TRAMPOLINE_VPN, TRAP_CONTEXT_VPN,
};
use rv_kernel::mm::page_table::{
    PageTable, PageTableEntry, PTE_R, PTE_U, PTE_V, PTE_W, PTE_X, SATP_MODE,
};

fn pool(frames: u64) -> FrameAllocator {
    FrameAllocator::new(PhysPageNum(0x9_0000), PhysPageNum(0x9_0000 + frames))
}

fn user_rw() -> MapPermission {
    MapPermission::from_bits(PERM_R | PERM_W | PERM_U).unwrap()
}

fn bare(pool: &mut FrameAllocator) -> MemorySet {
    MemorySet::new_bare(pool, PhysPageNum(0x8_0000)).unwrap()
}

#[test]
fn virtual_addresses_keep_39_bits() {
    assert_eq!(VirtAddr::new(0x80_0000_1000).0, 0x1000);
    assert_eq!(VirtAddr::new(0x7f_ffff_ffff).0, 0x7f_ffff_ffff);
    assert_eq!(VirtAddr::from_usize(usize::MAX - 0xfff).0, 0x7f_ffff_f000);
    assert_eq!(VirtPageNum::new(0x800_0001).0, 1);
}

#[test]
fn floor_and_ceil_round_to_pages() {
    assert_eq!(VirtAddr::new(0x1234).floor().0, 1);
    assert_eq!(VirtAddr::new(0x1234).ceil().0, 2);
    assert_eq!(VirtAddr::new(0x2000).floor().0, 2);
    assert_eq!(VirtAddr::new(0x2000).ceil().0, 2);
    assert_eq!(VirtAddr::new(0).ceil().0, 0);
    assert_eq!(VirtAddr::new(0x7f_ffff_ffff).ceil().0, 0x800_0000);
    assert_eq!(PhysAddr::new(0x8020_0fff).floor().0, 0x8_0200);
    assert_eq!(PhysAddr::new(0x8020_0001).ceil().0, 0x8_0201);
}

#[test]
fn offsets_and_alignment() {
    assert_eq!(VirtAddr::new(0x1234).page_offset(), 0x234);
    assert!(!VirtAddr::new(0x1234).aligned());
    assert!(VirtAddr::new(0x5000).aligned());
    assert_eq!(PhysAddr::new(0x8000_0fff).page_offset(), 0xfff);
    assert!(PhysAddr::new(0x8000_0000).aligned());
    assert_eq!(VirtPageNum::new(3).start_addr().0, 0x3000);
    assert_eq!(PhysPageNum::new(7).start_addr().0, 0x7000);
}

#[test]
fn page_number_splits_into_three_indexes() {
    assert_eq!(VirtPageNum::new(0).indexes(), [0, 0, 0]);
    assert_eq!(VirtPageNum::new(0x7ff_ffff).indexes(), [511, 511, 511]);
    assert_eq!(VirtPageNum::new((3 << 18) | (5 << 9) | 7).indexes(), [3, 5, 7]);
}

#[test]
fn entry_holds_frame_and_flags() {
    let pte = PageTableEntry::new(PhysPageNum(0x8_1234), PTE_V | PTE_R | PTE_U);
    assert_eq!(pte.bits, (0x8_1234 << 10) | 0x13);
    assert_eq!(pte.ppn().0, 0x8_1234);
    assert_eq!(pte.flags(), 0x13);
    assert!(pte.is_valid());
    assert!(pte.readable());
    assert!(!pte.writable());
    assert!(!pte.executable());
    assert!(pte.is_user());
    let empty = PageTableEntry::empty();
    assert_eq!(empty.bits, 0);
    assert!(!empty.is_valid());
}

#[test]
fn permissions_from_bits() {
    assert!(MapPermission::from_bits(PERM_R | PERM_X).is_some());
    assert!(MapPermission::from_bits(0).is_some());
    assert!(MapPermission::from_bits(PTE_V).is_none());
    assert!(MapPermission::from_bits(0x20).is_none());
    let rw = MapPermission::from_bits(PERM_R | PERM_W).unwrap();
    let u = MapPermission::from_bits(PERM_U).unwrap();
    assert_eq!(rw.union(u).bits(), 0x16);
    assert!(rw.union(u).contains(rw));
    assert!(!rw.contains(u));
}

#[test]
fn frame_is_cleared_and_holds_bytes() {
    let mut frame = FrameTracker::new(PhysPageNum(0x42));
    assert_eq!(frame.ppn().0, 0x42);
    assert_eq!(frame.read(0), 0);
    assert_eq!(frame.read(4095), 0);
    frame.write(17, 0xab);
    assert_eq!(frame.read(17), 0xab);
    assert_eq!(frame.read(16), 0);
}

#[test]
fn pool_hands_out_fresh_frames_in_order() {
    let mut pool = pool(3);
    assert_eq!(pool.available(), 3);
    assert_eq!(pool.allocate(), Ok(PhysPageNum(0x9_0000)));
    assert_eq!(pool.allocate(), Ok(PhysPageNum(0x9_0001)));
    assert_eq!(pool.allocate(), Ok(PhysPageNum(0x9_0002)));
    assert_eq!(pool.available(), 0);
    assert_eq!(pool.allocate(), Err(MemoryError::OutOfMemory));
}

#[test]
fn pool_reuses_the_frame_given_back_last() {
    let mut pool = pool(4);
    let a = pool.allocate().unwrap();
    let b = pool.allocate().unwrap();
    assert!(pool.deallocate(a));
    assert!(pool.deallocate(b));
    assert_eq!(pool.available(), 4);
    assert_eq!(pool.allocate(), Ok(b));
    assert_eq!(pool.allocate(), Ok(a));
    assert_eq!(pool.allocate(), Ok(PhysPageNum(0x9_0002)));
}

#[test]
fn pool_takes_back_allocated_frames_only() {
    let mut pool = pool(4);
    let a = pool.allocate().unwrap();
    assert!(!pool.deallocate(PhysPageNum(0x9_0001)));
    assert!(!pool.deallocate(PhysPageNum(0x1)));
    assert!(!pool.deallocate(PhysPageNum(0x9_0004)));
    assert!(pool.deallocate(a));
    assert!(!pool.deallocate(a));
    assert_eq!(pool.available(), 4);
}

#[test]
fn pool_of_no_range_is_empty() {
    let mut pool = FrameAllocator::new(PhysPageNum(10), PhysPageNum(5));
    assert_eq!(pool.available(), 0);
    assert_eq!(pool.allocate(), Err(MemoryError::OutOfMemory));
}

#[test]
fn tree_maps_translates_and_unmaps() {
    let mut pool = pool(16);
    let mut table = PageTable::new(&mut pool).unwrap();
    assert_eq!(table.token(), SATP_MODE | 0x9_0000);
    let vpn = VirtPageNum(0x1_2345);
    assert_eq!(table.translate(vpn), None);
    assert_eq!(table.count_missing(vpn), 2);
    assert_eq!(table.map(&mut pool, vpn, PhysPageNum(0x777), PTE_R | PTE_W), Ok(()));
    assert_eq!(pool.available(), 13);
    let pte = table.translate(vpn).unwrap();
    assert_eq!(pte.ppn().0, 0x777);
    assert_eq!(pte.flags(), PTE_V | PTE_R | PTE_W);
    // a neighbour in the same leaf has an entry, which is not valid
    let neighbour = table.translate(VirtPageNum(0x1_2346)).unwrap();
    assert!(!neighbour.is_valid());
    assert_eq!(neighbour.bits, 0);
    assert_eq!(table.count_missing(VirtPageNum(0x1_2346)), 0);
    assert_eq!(table.count_missing(VirtPageNum(0x1_2545)), 1);
    table.unmap(vpn);
    assert_eq!(table.translate(vpn), Some(PageTableEntry::empty()));
    assert_eq!(pool.available(), 13);
}

#[test]
fn tree_refuses_to_map_without_frames_for_its_nodes() {
    let mut pool = pool(2);
    let mut table = PageTable::new(&mut pool).unwrap();
    let vpn = VirtPageNum(5);
    assert_eq!(
        table.map(&mut pool, vpn, PhysPageNum(1), PTE_R),
        Err(MemoryError::OutOfMemory)
    );
    assert_eq!(pool.available(), 1);
    assert_eq!(table.translate(vpn), None);
}

#[test]
fn tree_needs_a_frame_for_its_root() {
    let mut pool = pool(0);
    assert!(PageTable::new(&mut pool).is_err());
}

#[test]
fn bare_space_maps_trampoline_and_trap_context() {
    let mut pool = pool(8);
    let space = bare(&mut pool);
    assert_eq!(pool.available(), 8 - BARE_FRAMES);
    assert_eq!(space.token(), SATP_MODE | 0x9_0000);
    let trampoline = space.translate(VirtPageNum(TRAMPOLINE_VPN)).unwrap();
    assert_eq!(trampoline.ppn().0, 0x8_0000);
    assert_eq!(trampoline.flags(), PTE_V | PTE_R | PTE_X);
    let trap_cx = space.translate(VirtPageNum(TRAP_CONTEXT_VPN)).unwrap();
    assert_eq!(trap_cx.flags(), PTE_V | PTE_R | PTE_W);
    assert!(space.is_framed(VirtPageNum(TRAP_CONTEXT_VPN)));
    assert!(!space.is_framed(VirtPageNum(TRAMPOLINE_VPN)));
    assert!(!space.is_mapped(VirtPageNum(0)));
}

#[test]
fn bare_space_needs_four_frames() {
    let mut pool = pool(3);
    assert!(matches!(
        MemorySet::new_bare(&mut pool, PhysPageNum(0x8_0000)),
        Err(MemoryError::OutOfMemory)
    ));
    assert_eq!(pool.available(), 3);
}

#[test]
fn framed_area_maps_each_page_to_its_own_cleared_frame() {
    let mut pool = pool(32);
    let mut space = bare(&mut pool);
    let before = pool.available();
    assert_eq!(
        space.count_frames_needed(VirtPageNum(0x10), VirtPageNum(0x13), true),
        5
    );
    assert_eq!(
        space.insert_framed_area(&mut pool, VirtPageNum(0x10), VirtPageNum(0x13), user_rw()),
        Ok(())
    );
    assert_eq!(pool.available(), before - 5);
    let a = space.translate(VirtPageNum(0x10)).unwrap();
    let b = space.translate(VirtPageNum(0x11)).unwrap();
    let c = space.translate(VirtPageNum(0x12)).unwrap();
    assert_eq!(a.flags(), PTE_V | PTE_R | PTE_W | PTE_U);
    assert!(a.ppn() != b.ppn() && b.ppn() != c.ppn() && a.ppn() != c.ppn());
    assert!(!space.is_mapped(VirtPageNum(0x13)));
    assert!(!space.is_mapped(VirtPageNum(0xf)));
    assert_eq!(
        space.read_bytes(VirtAddr::new(0x10000), 3 * 4096),
        Some(vec![0u8; 3 * 4096])
    );
    // the nodes are there now: a second area beside the first takes only its pages
    assert_eq!(
        space.count_frames_needed(VirtPageNum(0x13), VirtPageNum(0x15), true),
        2
    );
}

#[test]
fn area_that_crosses_leaves_takes_a_frame_for_each_new_leaf() {
    let mut pool = pool(32);
    let space = bare(&mut pool);
    // pages 510, 511 lie in the first leaf, 512 in the second
    assert_eq!(
        space.count_frames_needed(VirtPageNum(510), VirtPageNum(513), true),
        3 + 2 + 1
    );
    assert_eq!(
        space.count_frames_needed(VirtPageNum(510), VirtPageNum(513), false),
        2 + 1
    );
    // the leaf of the highest pages is there already
    assert_eq!(
        space.count_frames_needed(VirtPageNum(0x7ff_fff0), VirtPageNum(0x7ff_fff1), true),
        1
    );
}

#[test]
fn insert_refuses_what_is_no_range() {
    let mut pool = pool(32);
    let mut space = bare(&mut pool);
    let before = pool.available();
    assert_eq!(
        space.insert_framed_area(&mut pool, VirtPageNum(5), VirtPageNum(4), user_rw()),
        Err(MemoryError::InvalidRange)
    );
    assert_eq!(
        space.insert_framed_area(&mut pool, VirtPageNum(5), VirtPageNum(0x800_0001), user_rw()),
        Err(MemoryError::InvalidRange)
    );
    assert_eq!(pool.available(), before);
}

#[test]
fn insert_refuses_a_range_with_a_mapped_page() {
    let mut pool = pool(32);
    let mut space = bare(&mut pool);
    space
        .insert_framed_area(&mut pool, VirtPageNum(0x20), VirtPageNum(0x22), user_rw())
        .unwrap();
    let before = pool.available();
    assert_eq!(
        space.insert_framed_area(&mut pool, VirtPageNum(0x1e), VirtPageNum(0x21), user_rw()),
        Err(MemoryError::AlreadyMapped)
    );
    assert_eq!(pool.available(), before);
    assert!(!space.is_mapped(VirtPageNum(0x1e)));
    assert!(!space.is_mapped(VirtPageNum(0x1f)));
    // the trampoline is mapped in every address space
    assert_eq!(
        space.insert_framed_area(
            &mut pool,
            VirtPageNum(TRAMPOLINE_VPN),
            VirtPageNum(0x800_0000),
            user_rw()
        ),
        Err(MemoryError::AlreadyMapped)
    );
}

#[test]
fn insert_refuses_when_frames_run_short_and_maps_nothing() {
    let mut pool = pool(4 + 4);
    let mut space = bare(&mut pool);
    // three pages and two nodes take five frames; four are free
    assert_eq!(
        space.insert_framed_area(&mut pool, VirtPageNum(0x10), VirtPageNum(0x13), user_rw()),
        Err(MemoryError::OutOfMemory)
    );
    assert_eq!(pool.available(), 4);
    assert!(!space.is_mapped(VirtPageNum(0x10)));
    assert_eq!(
        space.insert_framed_area(&mut pool, VirtPageNum(0x10), VirtPageNum(0x12), user_rw()),
        Ok(())
    );
    assert_eq!(pool.available(), 0);
}

#[test]
fn insert_of_no_pages_changes_nothing() {
    let mut pool = pool(8);
    let mut space = bare(&mut pool);
    assert_eq!(
        space.insert_framed_area(&mut pool, VirtPageNum(7), VirtPageNum(7), user_rw()),
        Ok(())
    );
    assert_eq!(pool.available(), 4);
    assert!(!space.is_mapped(VirtPageNum(7)));
}

#[test]
fn identical_area_maps_each_page_to_the_frame_of_its_number() {
    let mut pool = pool(16);
    let mut space = bare(&mut pool);
    let rx = MapPermission::from_bits(PERM_R | PERM_X).unwrap();
    let before = pool.available();
    assert_eq!(
        space.insert_identical_area(&mut pool, VirtPageNum(0x8_0200), VirtPageNum(0x8_0203), rx),
        Ok(())
    );
    assert_eq!(pool.available(), before - 2);
    let pte = space.translate(VirtPageNum(0x8_0201)).unwrap();
    assert_eq!(pte.ppn().0, 0x8_0201);
    assert_eq!(pte.flags(), PTE_V | PTE_R | PTE_X);
    assert!(!space.is_framed(VirtPageNum(0x8_0201)));
    assert_eq!(
        space.remove_framed_area(&mut pool, VirtPageNum(0x8_0200), VirtPageNum(0x8_0203)),
        Err(MemoryError::NotMapped)
    );
}

#[test]
fn remove_gives_the_frames_back() {
    let mut pool = pool(32);
    let mut space = bare(&mut pool);
    space
        .insert_framed_area(&mut pool, VirtPageNum(0x10), VirtPageNum(0x14), user_rw())
        .unwrap();
    let frame = space.translate(VirtPageNum(0x11)).unwrap().ppn();
    let before = pool.available();
    assert_eq!(
        space.remove_framed_area(&mut pool, VirtPageNum(0x10), VirtPageNum(0x14)),
        Ok(())
    );
    assert_eq!(pool.available(), before + 4);
    assert!(!space.is_mapped(VirtPageNum(0x10)));
    assert!(!space.is_mapped(VirtPageNum(0x13)));
    assert!(!pool.deallocate(frame));
}

#[test]
fn remove_from_the_middle_leaves_both_ends() {
    let mut pool = pool(64);
    let mut space = bare(&mut pool);
    space
        .insert_framed_area(&mut pool, VirtPageNum(10), VirtPageNum(20), user_rw())
        .unwrap();
    assert!(space.write_bytes(VirtAddr::new(11 * 4096 + 5), &vec![1, 2, 3]));
    assert!(space.write_bytes(VirtAddr::new(17 * 4096), &vec![9]));
    assert_eq!(
        space.remove_framed_area(&mut pool, VirtPageNum(12), VirtPageNum(15)),
        Ok(())
    );
    for vpn in 10..20u64 {
        assert_eq!(space.is_mapped(VirtPageNum(vpn)), !(12..15).contains(&vpn));
        assert_eq!(space.is_framed(VirtPageNum(vpn)), !(12..15).contains(&vpn));
    }
    assert_eq!(
        space.read_bytes(VirtAddr::new(11 * 4096 + 5), 3),
        Some(vec![1, 2, 3])
    );
    assert_eq!(space.read_bytes(VirtAddr::new(17 * 4096), 1), Some(vec![9]));
    // the gap can be mapped again, and what is left can be removed
    assert_eq!(
        space.insert_framed_area(&mut pool, VirtPageNum(12), VirtPageNum(15), user_rw()),
        Ok(())
    );
    assert_eq!(
        space.remove_framed_area(&mut pool, VirtPageNum(10), VirtPageNum(20)),
        Ok(())
    );
    assert!(!space.is_mapped(VirtPageNum(10)));
    assert!(!space.is_mapped(VirtPageNum(19)));
}

#[test]
fn remove_refuses_a_range_with_an_unmapped_page() {
    let mut pool = pool(32);
    let mut space = bare(&mut pool);
    space
        .insert_framed_area(&mut pool, VirtPageNum(0x10), VirtPageNum(0x12), user_rw())
        .unwrap();
    let before = pool.available();
    assert_eq!(
        space.remove_framed_area(&mut pool, VirtPageNum(0x10), VirtPageNum(0x13)),
        Err(MemoryError::NotMapped)
    );
    assert_eq!(pool.available(), before);
    assert!(space.is_mapped(VirtPageNum(0x10)));
    assert!(space.is_mapped(VirtPageNum(0x11)));
    assert_eq!(
        space.remove_framed_area(&mut pool, VirtPageNum(3), VirtPageNum(2)),
        Err(MemoryError::InvalidRange)
    );
    // the trampoline has no frame of its own
    assert_eq!(
        space.remove_framed_area(
            &mut pool,
            VirtPageNum(TRAMPOLINE_VPN),
            VirtPageNum(0x800_0000)
        ),
        Err(MemoryError::NotMapped)
    );
    assert!(space.is_mapped(VirtPageNum(TRAMPOLINE_VPN)));
}

#[test]
fn insert_then_remove_restores_the_mapped_pages() {
    let mut pool = pool(64);
    let mut space = bare(&mut pool);
    space
        .insert_framed_area(&mut pool, VirtPageNum(0x10), VirtPageNum(0x12), user_rw())
        .unwrap();
    assert!(space.write_bytes(VirtAddr::new(0x10ff0), &vec![7u8; 32]));
    let mapped_before: Vec<bool> = (0..0x40u64)
        .map(|v| space.is_mapped(VirtPageNum(v)))
        .collect();
    space
        .insert_framed_area(&mut pool, VirtPageNum(0x12), VirtPageNum(0x30), user_rw())
        .unwrap();
    space
        .remove_framed_area(&mut pool, VirtPageNum(0x12), VirtPageNum(0x30))
        .unwrap();
    let mapped_after: Vec<bool> = (0..0x40u64)
        .map(|v| space.is_mapped(VirtPageNum(v)))
        .collect();
    assert_eq!(mapped_before, mapped_after);
    assert_eq!(
        space.read_bytes(VirtAddr::new(0x10ff0), 32),
        Some(vec![7u8; 32])
    );
}

#[test]
fn bytes_are_stored_across_pages() {
    let mut pool = pool(32);
    let mut space = bare(&mut pool);
    space
        .insert_framed_area(&mut pool, VirtPageNum(0x10), VirtPageNum(0x12), user_rw())
        .unwrap();
    let data: Vec<u8> = (0..100u8).collect();
    assert!(space.write_bytes(VirtAddr::new(0x10fd0), &data));
    assert_eq!(space.read_bytes(VirtAddr::new(0x10fd0), 100), Some(data));
    assert_eq!(space.read_bytes(VirtAddr::new(0x10fcf), 2), Some(vec![0, 0]));
    assert_eq!(space.read_bytes(VirtAddr::new(0x11000), 2), Some(vec![48, 49]));
    assert_eq!(space.read_bytes(VirtAddr::new(0x11033), 2), Some(vec![99, 0]));
}

#[test]
fn bytes_are_not_stored_where_a_page_is_missing() {
    let mut pool = pool(32);
    let mut space = bare(&mut pool);
    space
        .insert_framed_area(&mut pool, VirtPageNum(0x10), VirtPageNum(0x11), user_rw())
        .unwrap();
    assert!(!space.write_bytes(VirtAddr::new(0x10ffe), &vec![1, 2, 3]));
    assert_eq!(space.read_bytes(VirtAddr::new(0x10ffe), 2), Some(vec![0, 0]));
    assert_eq!(space.read_bytes(VirtAddr::new(0x10ffe), 3), None);
    assert!(!space.write_bytes(VirtAddr::new(0x7f_ffff_fff0), &vec![0u8; 17]));
    assert!(space.write_bytes(VirtAddr::new(0x30000), &vec![]));
}

#[test]
fn bytes_are_not_stored_against_the_permissions() {
    let mut pool = pool(32);
    let mut space = bare(&mut pool);
    let read_only = MapPermission::from_bits(PERM_R | PERM_U).unwrap();
    let kernel_only = MapPermission::from_bits(PERM_R | PERM_W).unwrap();
    let write_only = MapPermission::from_bits(PERM_W | PERM_U).unwrap();
    space
        .insert_framed_area(&mut pool, VirtPageNum(1), VirtPageNum(2), read_only)
        .unwrap();
    space
        .insert_framed_area(&mut pool, VirtPageNum(2), VirtPageNum(3), kernel_only)
        .unwrap();
    space
        .insert_framed_area(&mut pool, VirtPageNum(3), VirtPageNum(4), write_only)
        .unwrap();
    assert!(!space.write_bytes(VirtAddr::new(0x1000), &vec![1]));
    assert!(space.read_bytes(VirtAddr::new(0x1000), 1).is_some());
    assert!(!space.write_bytes(VirtAddr::new(0x2000), &vec![1]));
    assert!(space.read_bytes(VirtAddr::new(0x2000), 1).is_none());
    assert!(space.write_bytes(VirtAddr::new(0x3000), &vec![1]));
    assert!(space.read_bytes(VirtAddr::new(0x3000), 1).is_none());
    // the trap context belongs to the kernel
    assert!(!space.write_bytes(VirtAddr::new(TRAP_CONTEXT_VPN * 4096), &vec![1]));
    assert!(space.page_accessible(VirtPageNum(TRAP_CONTEXT_VPN), PTE_R | PTE_W));
    assert!(!space.page_accessible(VirtPageNum(TRAP_CONTEXT_VPN), PTE_U));
    assert!(space.span_accessible(VirtAddr::new(0x1000), 4096, PTE_U | PTE_R));
    assert!(!space.span_accessible(VirtAddr::new(0x1000), 4097, PTE_U | PTE_R));
}

#[test]
fn areas_are_kept_in_order_and_split_where_pages_leave() {
    let mut pool = pool(64);
    let mut space = bare(&mut pool);
    assert_eq!(space.area_count(), 1);
    assert_eq!(space.area(0).start().0, TRAP_CONTEXT_VPN);
    assert_eq!(space.area(0).end().0, TRAMPOLINE_VPN);
    assert_eq!(space.area(0).map_type(), MapType::Framed);
    assert_eq!(space.area(0).permission().bits(), PERM_R | PERM_W);
    space
        .insert_framed_area(&mut pool, VirtPageNum(10), VirtPageNum(20), user_rw())
        .unwrap();
    let rx = MapPermission::from_bits(PERM_R | PERM_X).unwrap();
    space
        .insert_identical_area(&mut pool, VirtPageNum(30), VirtPageNum(32), rx)
        .unwrap();
    assert_eq!(space.area_count(), 3);
    assert_eq!(space.area(2).map_type(), MapType::Identical);
    space
        .remove_framed_area(&mut pool, VirtPageNum(12), VirtPageNum(15))
        .unwrap();
    let mut runs: Vec<(u64, u64)> = (0..space.area_count())
        .map(|i| (space.area(i).start().0, space.area(i).end().0))
        .collect();
    runs.sort();
    assert_eq!(
        runs,
        vec![(10, 12), (15, 20), (30, 32), (TRAP_CONTEXT_VPN, TRAMPOLINE_VPN)]
    );
}

#[test]
fn tree_gives_the_frames_of_its_nodes_back() {
    let mut pool = pool(16);
    let mut table = PageTable::new(&mut pool).unwrap();
    table
        .map(&mut pool, VirtPageNum(1), PhysPageNum(1), PTE_R)
        .unwrap();
    table
        .map(&mut pool, VirtPageNum(0x4_0000), PhysPageNum(2), PTE_R)
        .unwrap();
    table
        .map(&mut pool, VirtPageNum(0x4_0200), PhysPageNum(3), PTE_R)
        .unwrap();
    assert_eq!(pool.available(), 16 - 6);
    table.release(&mut pool);
    assert_eq!(pool.available(), 16);
}
