use rv_kernel::mm::address::{PhysPageNum, VirtAddr, VirtPageNum};
use rv_kernel::mm::frame_allocator::{FrameAllocator, MemoryError};
use rv_kernel::mm::image::{parse_image, Segment, PF_R, PF_W, PF_X, PT_LOAD};
use rv_kernel::mm::memory_set::{MemorySet, PERM_R, PERM_U, PERM_W, PERM_X, TRAMPOLINE_VPN};
use rv_kernel::mm::page_table::{PTE_R, PTE_U, PTE_V, PTE_W, PTE_X};
use rv_kernel::config::kernel_stack_position;
use rv_kernel::task::tcb::{KernelLinks, TaskControlBlock, TaskStatus};
use rv_kernel::task::{LoadError, TaskManager};

struct Header {
    kind: u32,
    flags: u32,
    offset: u64,
    vaddr: u64,
    file_size: u64,
    mem_size: u64,
}

fn load(flags: u64, offset: u64, vaddr: u64, file_size: u64, mem_size: u64) -> Header {
    Header { kind: PT_LOAD as u32, flags: flags as u32, offset, vaddr, file_size, mem_size }
}

/// An executable file with the program headers `headers`, followed by
/// `payload` at position 64 + 56 * headers.len().
fn elf(entry: u64, headers: &[Header], payload: &[u8]) -> Vec<u8> {
    let mut file = vec![0x7f, 0x45, 0x4c, 0x46, 2, 1, 1, 0, 0, 0, 0, 0, 0, 0, 0, 0];
    file.extend_from_slice(&2u16.to_le_bytes());
    file.extend_from_slice(&0xf3u16.to_le_bytes());
    file.extend_from_slice(&1u32.to_le_bytes());
    file.extend_from_slice(&entry.to_le_bytes());
    file.extend_from_slice(&64u64.to_le_bytes());
    file.extend_from_slice(&0u64.to_le_bytes());
    file.extend_from_slice(&0u32.to_le_bytes());
    file.extend_from_slice(&64u16.to_le_bytes());
    file.extend_from_slice(&56u16.to_le_bytes());
    file.extend_from_slice(&(headers.len() as u16).to_le_bytes());
    file.extend_from_slice(&[0u8; 6]);
    assert_eq!(file.len(), 64);
    for header in headers {
        file.extend_from_slice(&header.kind.to_le_bytes());
        file.extend_from_slice(&header.flags.to_le_bytes());
        file.extend_from_slice(&header.offset.to_le_bytes());
        file.extend_from_slice(&header.vaddr.to_le_bytes());
        file.extend_from_slice(&header.vaddr.to_le_bytes());
        file.extend_from_slice(&header.file_size.to_le_bytes());
        file.extend_from_slice(&header.mem_size.to_le_bytes());
        file.extend_from_slice(&0x1000u64.to_le_bytes());
    }
    file.extend_from_slice(payload);
    file
}

fn program() -> Vec<u8> {
    // the payload starts at 64 + 3 * 56 = 232
    elf(
        0x1_0004,
        &[
            load(PF_R | PF_X, 232, 0x1_0000, 5, 0x1800),
            Header { kind: 6, flags: 4, offset: 64, vaddr: 0x40, file_size: 168, mem_size: 168 },
            load(PF_R | PF_W, 237, 0x1_2ffe, 3, 0x10),
        ],
        &[0x13, 0x05, 0xa0, 0x02, 0x73, 0xaa, 0xbb, 0xcc],
    )
}

fn pool(frames: u64) -> FrameAllocator {
    FrameAllocator::new(PhysPageNum(0x9_0000), PhysPageNum(0x9_0000 + frames))
}

#[test]
fn image_is_read_from_its_headers() {
    let parsed = parse_image(&program()).unwrap();
    assert_eq!(parsed.entry, 0x1_0004);
    assert_eq!(
        parsed.segments,
        vec![
            Segment { vaddr: 0x1_0000, mem_size: 0x1800, offset: 232, file_size: 5, flags: 5 },
            Segment { vaddr: 0x1_2ffe, mem_size: 0x10, offset: 237, file_size: 3, flags: 6 },
        ]
    );
    assert_eq!(parsed.segments[0].permission(), PERM_R | PERM_X | PERM_U);
    assert_eq!(parsed.segments[1].permission(), PERM_R | PERM_W | PERM_U);
}

#[test]
fn image_without_segments_is_a_program() {
    let parsed = parse_image(&elf(0x42, &[], &[])).unwrap();
    assert_eq!(parsed.entry, 0x42);
    assert!(parsed.segments.is_empty());
}

#[test]
fn bytes_that_are_no_program_are_refused() {
    assert!(parse_image(&Vec::new()).is_none());
    assert!(parse_image(&vec![0u8; 64]).is_none());
    let good = program();
    assert!(parse_image(&good[..63].to_vec()).is_none());
    for (at, value) in [(0usize, 0x7eu8), (3, 0x47), (4, 1), (5, 2), (0x36, 57), (0x38, 4)] {
        let mut bad = good.clone();
        bad[at] = value;
        assert!(parse_image(&bad).is_none());
    }
    // program headers that start beyond the end of the file
    let mut bad = good.clone();
    bad[0x20] = 0xff;
    bad[0x21] = 0xff;
    assert!(parse_image(&bad).is_none());
}

#[test]
fn segments_that_leave_the_file_or_the_address_space_are_refused() {
    assert!(parse_image(&elf(0, &[load(PF_R, 120, 0x1000, 1, 1)], &[])).is_none());
    assert!(parse_image(&elf(0, &[load(PF_R, 120, 0x1000, 0, 1)], &[])).is_some());
    assert!(parse_image(&elf(0, &[load(PF_R, 121, 0x1000, 0, 1)], &[])).is_none());
    assert!(parse_image(&elf(0, &[load(PF_R, 120, 0x1000, 2, 1)], &[1, 2])).is_none());
    assert!(parse_image(&elf(0, &[load(PF_R, 0, 0x7f_ffff_f000, 0, 0x1001)], &[])).is_none());
    assert!(parse_image(&elf(0, &[load(PF_R, 0, 0x80_0000_0000, 0, 0)], &[])).is_none());
    assert!(parse_image(&elf(0, &[load(PF_R, u64::MAX, 0x1000, 2, 2)], &[])).is_none());
    assert!(parse_image(&elf(0, &[load(PF_R, 0, u64::MAX, 0, 2)], &[])).is_none());
}

#[test]
fn program_is_laid_out_with_its_stack() {
    let mut pool = pool(64);
    let (space, user_sp, entry) =
        MemorySet::from_image(&mut pool, PhysPageNum(0x8_0000), &program()).unwrap();
    assert_eq!(entry, 0x1_0004);
    // the last page of the program is 0x13; 0x14 guards; the stack is 0x15, 0x16
    assert_eq!(user_sp, 0x1_7000);
    let mapped: Vec<u64> = (0..0x100u64)
        .filter(|vpn| space.is_mapped(VirtPageNum(*vpn)))
        .collect();
    assert_eq!(mapped, vec![0x10, 0x11, 0x12, 0x13, 0x15, 0x16]);
    let flags = |vpn: u64| space.translate(VirtPageNum(vpn)).unwrap().flags();
    assert_eq!(flags(0x10), PTE_V | PTE_R | PTE_X | PTE_U);
    assert_eq!(flags(0x11), PTE_V | PTE_R | PTE_X | PTE_U);
    assert_eq!(flags(0x12), PTE_V | PTE_R | PTE_W | PTE_U);
    assert_eq!(flags(0x13), PTE_V | PTE_R | PTE_W | PTE_U);
    assert_eq!(flags(0x15), PTE_V | PTE_R | PTE_W | PTE_U);
    assert_eq!(flags(0x16), PTE_V | PTE_R | PTE_W | PTE_U);
    assert_eq!(flags(TRAMPOLINE_VPN), PTE_V | PTE_R | PTE_X);
    // 4 for the bare space, 2 nodes, 6 pages
    assert_eq!(pool.available(), 64 - 12);
    assert_eq!(
        space.read_bytes(VirtAddr::new(0x1_0000), 8),
        Some(vec![0x13, 0x05, 0xa0, 0x02, 0x73, 0, 0, 0])
    );
    assert_eq!(
        space.read_bytes(VirtAddr::new(0x1_2ffc), 8),
        Some(vec![0, 0, 0xaa, 0xbb, 0xcc, 0, 0, 0])
    );
    assert_eq!(
        space.read_bytes(VirtAddr::new(0x1_5000), 0x2000),
        Some(vec![0; 0x2000])
    );
    let mut text = space.read_bytes(VirtAddr::new(0x1_0000), 0x2000).unwrap();
    text.drain(0..5);
    assert!(text.iter().all(|byte| *byte == 0));
}

#[test]
fn program_without_segments_has_its_stack_above_the_first_page() {
    let mut pool = pool(16);
    let (space, user_sp, entry) =
        MemorySet::from_image(&mut pool, PhysPageNum(0x8_0000), &elf(7, &[], &[])).unwrap();
    assert_eq!((user_sp, entry), (0x3000, 7));
    assert!(!space.is_mapped(VirtPageNum(0)));
    assert!(space.is_mapped(VirtPageNum(1)));
    assert!(space.is_mapped(VirtPageNum(2)));
    assert!(!space.is_mapped(VirtPageNum(3)));
}

#[test]
fn loading_what_is_no_program_takes_no_frame() {
    let mut pool = pool(64);
    let mut bad = program();
    bad[1] = 0;
    assert!(matches!(
        MemorySet::from_image(&mut pool, PhysPageNum(0x8_0000), &bad),
        Err(MemoryError::InvalidImage)
    ));
    assert_eq!(pool.available(), 64);
}

#[test]
fn loading_without_frames_for_a_bare_space_takes_no_frame() {
    let mut pool = pool(3);
    assert!(matches!(
        MemorySet::from_image(&mut pool, PhysPageNum(0x8_0000), &program()),
        Err(MemoryError::OutOfMemory)
    ));
    assert_eq!(pool.available(), 3);
}

#[test]
fn loading_fails_when_frames_run_short() {
    // twelve frames are needed
    let mut short = pool(11);
    assert!(matches!(
        MemorySet::from_image(&mut short, PhysPageNum(0x8_0000), &program()),
        Err(MemoryError::OutOfMemory)
    ));
    // what was taken before the refusal is given back
    assert_eq!(short.available(), 11);
    for frame in 0..11 {
        assert!(!short.deallocate(PhysPageNum(0x9_0000 + frame)));
    }
    let mut enough = pool(12);
    assert!(MemorySet::from_image(&mut enough, PhysPageNum(0x8_0000), &program()).is_ok());
    assert_eq!(enough.available(), 0);
}

#[test]
fn segments_that_share_a_page_are_refused() {
    let mut pool = pool(64);
    let image = elf(
        0,
        &[load(PF_R, 0, 0x1_0000, 0, 0x1001), load(PF_W, 0, 0x1_1800, 0, 8)],
        &[],
    );
    assert!(matches!(
        MemorySet::from_image(&mut pool, PhysPageNum(0x8_0000), &image),
        Err(MemoryError::AlreadyMapped)
    ));
    assert_eq!(pool.available(), 64);
}

#[test]
fn segment_over_the_trampoline_is_refused() {
    let mut pool = pool(64);
    let image = elf(0, &[load(PF_R, 0, 0x7f_ffff_f000, 0, 0x1000)], &[]);
    assert!(matches!(
        MemorySet::from_image(&mut pool, PhysPageNum(0x8_0000), &image),
        Err(MemoryError::AlreadyMapped)
    ));
}

#[test]
fn stack_beyond_the_address_space_is_refused() {
    let mut pool = pool(64);
    let image = elf(0, &[load(PF_R, 0, 0x7f_ffff_c000, 0, 0x1000)], &[]);
    // the stack would take the pages of the trap context and the trampoline
    assert!(matches!(
        MemorySet::from_image(&mut pool, PhysPageNum(0x8_0000), &image),
        Err(MemoryError::AlreadyMapped)
    ));
    let image = elf(0, &[load(PF_R, 0, 0x7f_ffff_d000, 0, 0x1000)], &[]);
    assert!(matches!(
        MemorySet::from_image(&mut pool, PhysPageNum(0x8_0000), &image),
        Err(MemoryError::InvalidRange)
    ));
}

#[test]
fn released_address_space_gives_all_its_frames_back() {
    let mut pool = pool(64);
    let (mut space, _, _) =
        MemorySet::from_image(&mut pool, PhysPageNum(0x8_0000), &program()).unwrap();
    let perm = rv_kernel::mm::memory_set::MapPermission::from_bits(PERM_R | PERM_W | PERM_U)
        .unwrap();
    space
        .insert_framed_area(&mut pool, VirtPageNum(0x4_0000), VirtPageNum(0x4_0003), perm)
        .unwrap();
    space
        .insert_identical_area(&mut pool, VirtPageNum(0x8_0000), VirtPageNum(0x8_0002), perm)
        .unwrap();
    space
        .remove_framed_area(&mut pool, VirtPageNum(0x4_0001), VirtPageNum(0x4_0002))
        .unwrap();
    assert!(pool.available() < 64 - 12);
    space.release(&mut pool);
    assert_eq!(pool.available(), 64);
}

fn links() -> KernelLinks {
    KernelLinks {
        kernel_satp: 0x8000_0000_0008_0000,
        trap_handler: 0x8020_1000,
        trap_return: 0x8020_2000,
        sstatus: 0x122,
    }
}

#[test]
fn kernel_stacks_lie_below_the_trampoline() {
    let trampoline = usize::MAX - 0xfff;
    assert_eq!(
        kernel_stack_position(0),
        Some((trampoline - 0x2000, trampoline))
    );
    assert_eq!(
        kernel_stack_position(3),
        Some((trampoline - 0xb000, trampoline - 0x9000))
    );
    let last = (trampoline - 0x2000) / 0x3000;
    assert!(kernel_stack_position(last).is_some());
    assert_eq!(kernel_stack_position(last + 1), None);
    assert_eq!(kernel_stack_position(usize::MAX), None);
}

#[test]
fn task_is_made_from_its_program() {
    let mut pool = pool(64);
    let task =
        TaskControlBlock::from_image(&mut pool, PhysPageNum(0x8_0000), &program(), 0xf000, links())
            .unwrap();
    assert_eq!(pool.available(), 64 - 12);
    assert_eq!(task.status(), TaskStatus::Ready);
    assert_eq!(task.start_time(), None);
    assert_eq!(task.heap_bottom(), 0x1_7000);
    assert_eq!(task.program_brk(), 0x1_7000);
    assert_eq!(task.task_cx().ra, 0x8020_2000);
    assert_eq!(task.task_cx().sp, 0xf000);
    assert!(task.memory_set().is_mapped(VirtPageNum(0x16)));
    task.release(&mut pool);
    assert_eq!(pool.available(), 64);
}

#[test]
fn task_is_not_made_from_what_is_no_program() {
    let mut pool = pool(64);
    assert!(matches!(
        TaskControlBlock::from_image(&mut pool, PhysPageNum(0x8_0000), &vec![1, 2, 3], 0, links()),
        Err(MemoryError::InvalidImage)
    ));
    // an entry address is whatever the file says; the top of the stack has to be an address
    let high = elf(u64::MAX, &[load(PF_R, 0, 0x7f_ffff_0000, 0, 0x1000)], &[]);
    assert!(TaskControlBlock::from_image(&mut pool, PhysPageNum(0x8_0000), &high, 0, links())
        .is_ok());
}

#[test]
fn tasks_of_the_kernel_are_made_from_the_programs() {
    let mut pool = pool(64);
    let images = vec![program(), elf(0x2_0000, &[], &[]), program()];
    let mut manager =
        TaskManager::load(&mut pool, PhysPageNum(0x8_0000), &images, links()).unwrap();
    assert_eq!(manager.num_app(), 3);
    assert_eq!(manager.current_task(), 0);
    // 12 frames for each full program, 8 for the one without segments
    assert_eq!(pool.available(), 64 - 12 - 8 - 12);
    let trampoline = usize::MAX - 0xfff;
    for id in 0..3 {
        assert_eq!(manager.task(id).status(), TaskStatus::Ready);
        assert_eq!(manager.task(id).start_time(), None);
        assert_eq!(manager.task_context(id).sp, trampoline - id * 0x3000);
        assert_eq!(manager.task_context(id).ra, 0x8020_2000);
        assert_eq!(manager.task_trap_cx(id).kernel_sp, trampoline - id * 0x3000);
        assert_eq!(manager.task_trap_cx(id).sstatus, 0x22);
    }
    assert_eq!(manager.task_trap_cx(0).sepc, 0x1_0004);
    assert_eq!(manager.task_trap_cx(0).x[2], 0x1_7000);
    assert_eq!(manager.task_trap_cx(1).sepc, 0x2_0000);
    assert_eq!(manager.task_trap_cx(1).x[2], 0x3000);
    // no two tasks have a frame in common
    let mut frames = Vec::new();
    for id in 0..3 {
        let space = manager.task(id).memory_set();
        frames.push(space.token());
        for vpn in 0..0x40u64 {
            if space.is_framed(VirtPageNum(vpn)) {
                frames.push(space.translate(VirtPageNum(vpn)).unwrap().ppn().0);
            }
        }
    }
    let mut distinct = frames.clone();
    distinct.sort();
    distinct.dedup();
    assert_eq!(distinct.len(), frames.len());
}

#[test]
fn tasks_are_not_made_where_one_cannot_be() {
    let mut pool = pool(64);
    assert_eq!(
        TaskManager::load(&mut pool, PhysPageNum(0x8_0000), &Vec::new(), links()).err(),
        Some(LoadError::NoTask)
    );
    let images = vec![program(), vec![0u8; 64], program()];
    assert_eq!(
        TaskManager::load(&mut pool, PhysPageNum(0x8_0000), &images, links()).err(),
        Some(LoadError::Task { app_id: 1, error: MemoryError::InvalidImage })
    );
    assert_eq!(pool.available(), 64);
    // the third program finds eleven frames where it takes twelve
    let mut short = FrameAllocator::new(PhysPageNum(0x9_0000), PhysPageNum(0x9_0000 + 35));
    let images = vec![program(), program(), program()];
    assert_eq!(
        TaskManager::load(&mut short, PhysPageNum(0x8_0000), &images, links()).err(),
        Some(LoadError::Task { app_id: 2, error: MemoryError::OutOfMemory })
    );
    assert_eq!(short.available(), 35);
    for frame in 0..35 {
        assert!(!short.deallocate(PhysPageNum(0x9_0000 + frame)));
    }
    let mut enough = FrameAllocator::new(PhysPageNum(0x9_0000), PhysPageNum(0x9_0000 + 36));
    assert!(TaskManager::load(&mut enough, PhysPageNum(0x8_0000), &images, links()).is_ok());
    assert_eq!(enough.available(), 0);
}
