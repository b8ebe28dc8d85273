use rv_kernel::mm::address::{PhysPageNum, VirtAddr, VirtPageNum};
use rv_kernel::mm::frame_allocator::FrameAllocator;
use rv_kernel::mm::memory_set::{
    MapPermission, MemorySet, PERM_R, PERM_U, PERM_W, TRAMPOLINE_VPN,
};
use rv_kernel::mm::page_table::{PTE_R, PTE_U, PTE_V, PTE_W, PTE_X};
use rv_kernel::syscall::process::{
    sys_exit, sys_get_time, sys_mmap, sys_munmap, sys_sbrk, sys_task_info, sys_yield,
    write_translated_byte_buffer, TaskInfo, TimeVal, TASK_INFO_SIZE, TIME_VAL_SIZE,
};
use rv_kernel::syscall::{
    syscall, Handled, SYSCALL_EXIT, SYSCALL_GET_TIME, SYSCALL_MMAP, SYSCALL_MUNMAP, SYSCALL_SBRK,
    SYSCALL_TASK_INFO, SYSCALL_YIELD,
};
use rv_kernel::task::tcb::{KernelLinks, TaskControlBlock, TaskStatus};
use rv_kernel::task::{run_first_task, Dispatch, TaskManager};
use rv_kernel::trap::{trap_handler, TrapCause, TrapOutcome};

fn task(pool: &mut FrameAllocator) -> TaskControlBlock {
    let links = KernelLinks {
        kernel_satp: 0x8000_0000_0008_0000,
        trap_handler: 0x8020_1000,
        trap_return: 0x8020_2000,
        sstatus: 0,
    };
    let mut space = MemorySet::new_bare(pool, PhysPageNum(0x8_0000)).unwrap();
    let perm = MapPermission::from_bits(PERM_R | PERM_W | PERM_U).unwrap();
    space
        .insert_framed_area(pool, VirtPageNum(0x10), VirtPageNum(0x12), perm)
        .unwrap();
    TaskControlBlock::new(space, 0x10000, 0x12000, 0xffff_0000, links)
}

fn fresh(tasks: usize) -> (TaskManager, FrameAllocator) {
    let mut pool = FrameAllocator::new(PhysPageNum(0x9_0000), PhysPageNum(0x9_0100));
    let mut records = Vec::new();
    for _ in 0..tasks {
        records.push(task(&mut pool));
    }
    (TaskManager::new(records).unwrap(), pool)
}

fn started(tasks: usize) -> (TaskManager, FrameAllocator) {
    let (mut manager, pool) = fresh(tasks);
    run_first_task(&mut manager, 100);
    (manager, pool)
}

fn user_bytes(manager: &TaskManager, addr: u64, len: usize) -> Vec<u8> {
    manager
        .current_memory()
        .read_bytes(VirtAddr::new(addr), len)
        .unwrap()
}

fn mapped(manager: &TaskManager) -> Vec<u64> {
    (0..0x200u64)
        .filter(|vpn| manager.current_memory().is_mapped(VirtPageNum(*vpn)))
        .collect()
}

#[test]
fn time_val_is_two_words_low_byte_first() {
    let tv = TimeVal { sec: 0x0102_0304, usec: 999_999 };
    let bytes = tv.into_bytes();
    assert_eq!(bytes.len(), TIME_VAL_SIZE);
    assert_eq!(
        bytes,
        vec![4, 3, 2, 1, 0, 0, 0, 0, 0x3f, 0x42, 0x0f, 0, 0, 0, 0, 0]
    );
    assert_eq!(TimeVal::from_us(3_000_007), TimeVal { sec: 3, usec: 7 });
    assert_eq!(TimeVal::from_us(999_999), TimeVal { sec: 0, usec: 999_999 });
}

#[test]
fn task_info_layout() {
    let mut times = [0u32; 500];
    times[0] = 1;
    times[169] = 0x0a0b_0c0d;
    times[499] = u32::MAX;
    let bytes = TaskInfo::new(TaskStatus::Running, times, 0x1122_3344_5566).into_bytes();
    assert_eq!(bytes.len(), TASK_INFO_SIZE);
    assert_eq!(&bytes[0..4], &[2, 0, 0, 0]);
    assert_eq!(&bytes[4..8], &[1, 0, 0, 0]);
    assert_eq!(&bytes[8..12], &[0, 0, 0, 0]);
    assert_eq!(&bytes[4 + 4 * 169..8 + 4 * 169], &[0x0d, 0x0c, 0x0b, 0x0a]);
    assert_eq!(&bytes[2000..2004], &[0xff, 0xff, 0xff, 0xff]);
    assert_eq!(&bytes[2004..2008], &[0, 0, 0, 0]);
    assert_eq!(
        &bytes[2008..2016],
        &[0x66, 0x55, 0x44, 0x33, 0x22, 0x11, 0, 0]
    );
    assert_eq!(TaskInfo::new(TaskStatus::UnInit, times, 0).into_bytes()[0], 0);
    assert_eq!(TaskInfo::new(TaskStatus::Ready, times, 0).into_bytes()[0], 1);
    assert_eq!(TaskInfo::new(TaskStatus::Exited, times, 0).into_bytes()[0], 3);
}

#[test]
fn buffer_is_written_through_the_translation() {
    let (mut manager, _pool) = started(1);
    let space = manager.get_current_memory_set();
    assert!(write_translated_byte_buffer(space, 0x10ffe, &vec![1, 2, 3, 4]));
    assert!(!write_translated_byte_buffer(space, 0x11ffe, &vec![5, 6, 7, 8]));
    // an address is read as one of 39 bits
    assert!(write_translated_byte_buffer(space, 0x80_0001_0000, &vec![9]));
    assert_eq!(user_bytes(&manager, 0x10ffe, 4), vec![1, 2, 3, 4]);
    assert_eq!(user_bytes(&manager, 0x11ffe, 2), vec![0, 0]);
    assert_eq!(user_bytes(&manager, 0x10000, 1), vec![9]);
}

#[test]
fn get_time_stores_seconds_and_microseconds() {
    let (mut manager, _pool) = started(1);
    assert_eq!(sys_get_time(&mut manager, 0x10ff8, 0, 5_000_123), 0);
    assert_eq!(
        user_bytes(&manager, 0x10ff8, 16),
        vec![5, 0, 0, 0, 0, 0, 0, 0, 123, 0, 0, 0, 0, 0, 0, 0]
    );
}

#[test]
fn get_time_fails_where_the_task_may_not_write() {
    let (mut manager, _pool) = started(1);
    assert_eq!(sys_get_time(&mut manager, 0x11ff8, 0, 5_000_123), -1);
    assert_eq!(user_bytes(&manager, 0x11ff8, 8), vec![0; 8]);
    assert_eq!(sys_get_time(&mut manager, 0x40000, 0, 5_000_123), -1);
    assert_eq!(sys_get_time(&mut manager, 0, 0, 1), -1);
}

#[test]
fn task_info_before_the_first_run_fails_and_stores_nothing() {
    let (mut manager, _pool) = fresh(2);
    assert_eq!(sys_task_info(&mut manager, 0x10000, 7), -1);
    assert_eq!(user_bytes(&manager, 0x10000, TASK_INFO_SIZE), vec![0; TASK_INFO_SIZE]);
    assert_eq!(manager.task(0).status(), TaskStatus::Ready);
    assert_eq!(manager.task(0).start_time(), None);
}

#[test]
fn task_info_stores_status_counters_and_time() {
    let (mut manager, _pool) = started(2);
    manager.current_task_syscall_add_count(SYSCALL_GET_TIME);
    manager.current_task_syscall_add_count(SYSCALL_GET_TIME);
    manager.current_task_syscall_add_count(SYSCALL_TASK_INFO);
    assert_eq!(sys_task_info(&mut manager, 0x10010, 350), 0);
    let bytes = user_bytes(&manager, 0x10010, TASK_INFO_SIZE);
    assert_eq!(bytes[0], 2);
    assert_eq!(&bytes[4 + 4 * 169..8 + 4 * 169], &[2, 0, 0, 0]);
    assert_eq!(&bytes[4 + 4 * 410..8 + 4 * 410], &[1, 0, 0, 0]);
    assert_eq!(&bytes[2008..2016], &[250, 0, 0, 0, 0, 0, 0, 0]);
    assert_eq!(bytes.iter().filter(|b| **b != 0).count(), 4);
}

#[test]
fn task_info_fails_where_the_task_may_not_write() {
    let (mut manager, _pool) = started(1);
    // the value ends beyond the second mapped page
    assert_eq!(sys_task_info(&mut manager, 0x11900, 350), -1);
    assert_eq!(user_bytes(&manager, 0x11900, 0x700), vec![0; 0x700]);
}

#[test]
fn mmap_maps_pages_with_the_permissions_asked_for() {
    let (mut manager, mut pool) = started(1);
    let before = pool.available();
    assert_eq!(sys_mmap(&mut manager, &mut pool, 0x20000, 0x2001, 0b011), 0);
    assert_eq!(pool.available(), before - 3);
    assert_eq!(mapped(&manager), vec![0x10, 0x11, 0x20, 0x21, 0x22]);
    let pte = manager
        .current_memory()
        .translate(VirtPageNum(0x21))
        .unwrap();
    assert_eq!(pte.flags(), PTE_V | PTE_R | PTE_W | PTE_U);
    assert_eq!(sys_mmap(&mut manager, &mut pool, 0x30000, 1, 0b100), 0);
    let pte = manager
        .current_memory()
        .translate(VirtPageNum(0x30))
        .unwrap();
    assert_eq!(pte.flags(), PTE_V | PTE_X | PTE_U);
    assert_eq!(user_bytes(&manager, 0x20000, 0x3000), vec![0; 0x3000]);
}

#[test]
fn mmap_with_a_start_that_is_not_aligned_fails() {
    let (mut manager, mut pool) = started(1);
    let before = pool.available();
    assert_eq!(sys_mmap(&mut manager, &mut pool, 0x20001, 0x1000, 0b011), -1);
    assert_eq!(sys_mmap(&mut manager, &mut pool, 0x20fff, 1, 0b001), -1);
    assert_eq!(mapped(&manager), vec![0x10, 0x11]);
    assert_eq!(pool.available(), before);
}

#[test]
fn mmap_with_wrong_permission_bits_fails() {
    let (mut manager, mut pool) = started(1);
    let before = pool.available();
    assert_eq!(sys_mmap(&mut manager, &mut pool, 0x20000, 0x1000, 0), -1);
    assert_eq!(sys_mmap(&mut manager, &mut pool, 0x20000, 0x1000, 0b1000), -1);
    assert_eq!(sys_mmap(&mut manager, &mut pool, 0x20000, 0x1000, 0b1011), -1);
    assert_eq!(sys_mmap(&mut manager, &mut pool, 0x20000, 0x1000, 0x100 | 0b001), -1);
    assert_eq!(mapped(&manager), vec![0x10, 0x11]);
    assert_eq!(pool.available(), before);
}

#[test]
fn mmap_over_a_mapped_page_fails_and_changes_nothing() {
    let (mut manager, mut pool) = started(1);
    assert!(manager
        .get_current_memory_set()
        .write_bytes(VirtAddr::new(0x11000), &vec![0xaa; 16]));
    let before = pool.available();
    let entry = manager.current_memory().translate(VirtPageNum(0x11));
    assert_eq!(sys_mmap(&mut manager, &mut pool, 0xf000, 0x3000, 0b011), -1);
    assert_eq!(sys_mmap(&mut manager, &mut pool, 0x11000, 0x4000, 0b011), -1);
    assert_eq!(mapped(&manager), vec![0x10, 0x11]);
    assert_eq!(manager.current_memory().translate(VirtPageNum(0x11)), entry);
    assert_eq!(user_bytes(&manager, 0x11000, 16), vec![0xaa; 16]);
    assert_eq!(pool.available(), before);
}

#[test]
fn mmap_beyond_the_address_space_fails() {
    let (mut manager, mut pool) = started(1);
    assert_eq!(
        sys_mmap(&mut manager, &mut pool, 0x7f_ffff_0000, 0x11000, 0b011),
        -1
    );
    assert_eq!(sys_mmap(&mut manager, &mut pool, 0x20000, usize::MAX, 0b011), -1);
    // the trampoline is mapped already
    assert_eq!(
        sys_mmap(&mut manager, &mut pool, (TRAMPOLINE_VPN * 4096) as usize, 1, 0b001),
        -1
    );
}

#[test]
fn mmap_without_free_frames_fails_and_changes_nothing() {
    let (mut manager, mut pool) = started(1);
    while pool.available() > 2 {
        pool.allocate().unwrap();
    }
    assert_eq!(sys_mmap(&mut manager, &mut pool, 0x20000, 0x3000, 0b011), -1);
    assert_eq!(mapped(&manager), vec![0x10, 0x11]);
    assert_eq!(pool.available(), 2);
    assert_eq!(sys_mmap(&mut manager, &mut pool, 0x20000, 0x2000, 0b011), 0);
    assert_eq!(pool.available(), 0);
}

#[test]
fn mmap_then_munmap_restores_the_mapped_pages() {
    let (mut manager, mut pool) = started(1);
    let before = mapped(&manager);
    let free = pool.available();
    assert_eq!(sys_mmap(&mut manager, &mut pool, 0x40000, 0x5000, 0b111), 0);
    assert_eq!(mapped(&manager).len(), before.len() + 5);
    assert_eq!(sys_munmap(&mut manager, &mut pool, 0x40000, 0x5000), 0);
    assert_eq!(mapped(&manager), before);
    assert_eq!(pool.available(), free);
    // a range of no bytes
    assert_eq!(sys_mmap(&mut manager, &mut pool, 0x50000, 0, 0b001), 0);
    assert_eq!(sys_munmap(&mut manager, &mut pool, 0x50000, 0), 0);
    assert_eq!(mapped(&manager), before);
}

#[test]
fn munmap_with_a_start_that_is_not_aligned_fails() {
    let (mut manager, mut pool) = started(1);
    assert_eq!(sys_munmap(&mut manager, &mut pool, 0x10800, 0x800), -1);
    assert_eq!(mapped(&manager), vec![0x10, 0x11]);
}

#[test]
fn munmap_over_an_unmapped_page_fails_and_changes_nothing() {
    let (mut manager, mut pool) = started(1);
    let before = pool.available();
    assert_eq!(sys_munmap(&mut manager, &mut pool, 0x11000, 0x2000), -1);
    assert_eq!(sys_munmap(&mut manager, &mut pool, 0xf000, 0x2000), -1);
    assert_eq!(sys_munmap(&mut manager, &mut pool, 0x60000, 1), -1);
    assert_eq!(mapped(&manager), vec![0x10, 0x11]);
    assert_eq!(pool.available(), before);
}

#[test]
fn munmap_of_a_part_leaves_the_rest() {
    let (mut manager, mut pool) = started(1);
    assert_eq!(sys_mmap(&mut manager, &mut pool, 0x20000, 0x4000, 0b011), 0);
    assert_eq!(sys_munmap(&mut manager, &mut pool, 0x21000, 0x1001), 0);
    assert_eq!(mapped(&manager), vec![0x10, 0x11, 0x20, 0x23]);
    assert_eq!(sys_munmap(&mut manager, &mut pool, 0x10000, 0x1000), 0);
    assert_eq!(mapped(&manager), vec![0x11, 0x20, 0x23]);
}

#[test]
fn mapping_is_the_current_tasks_alone() {
    let (mut manager, mut pool) = started(2);
    assert_eq!(sys_mmap(&mut manager, &mut pool, 0x20000, 0x1000, 0b001), 0);
    assert!(manager.task(0).memory_set().is_mapped(VirtPageNum(0x20)));
    assert!(!manager.task(1).memory_set().is_mapped(VirtPageNum(0x20)));
}

#[test]
fn sbrk_of_nothing_answers_the_break() {
    let (mut manager, _pool) = started(1);
    assert_eq!(sys_sbrk(&mut manager, 0), 0x12000);
    assert_eq!(sys_sbrk(&mut manager, 0), 0x12000);
    assert_eq!(manager.task(0).program_brk(), 0x12000);
}

#[test]
fn sbrk_below_the_start_of_the_heap_fails() {
    let (mut manager, _pool) = started(1);
    assert_eq!(sys_sbrk(&mut manager, -1), -1);
    assert_eq!(manager.task(0).program_brk(), 0x12000);
    assert_eq!(sys_sbrk(&mut manager, 0x100), 0x12000);
    assert_eq!(sys_sbrk(&mut manager, -0x101), -1);
    assert_eq!(sys_sbrk(&mut manager, i32::MIN), -1);
    assert_eq!(manager.task(0).program_brk(), 0x12100);
    assert_eq!(sys_sbrk(&mut manager, -0x100), 0x12100);
    assert_eq!(manager.task(0).program_brk(), 0x12000);
}

#[test]
fn yield_answers_zero_and_switches() {
    let (mut manager, _pool) = started(2);
    assert_eq!(
        sys_yield(&mut manager, 5),
        (0, Dispatch::Switch { from: 0, to: 1 })
    );
    assert_eq!(manager.task(0).status(), TaskStatus::Ready);
    assert_eq!(manager.task(1).status(), TaskStatus::Running);
    assert_eq!(manager.task(1).start_time(), Some(5));
}

#[test]
fn exit_ends_the_task() {
    let (mut manager, _pool) = started(2);
    assert_eq!(
        sys_exit(&mut manager, 3, 5),
        Dispatch::Switch { from: 0, to: 1 }
    );
    assert_eq!(manager.task(0).status(), TaskStatus::Exited);
    assert_eq!(sys_exit(&mut manager, 0, 6), Dispatch::Halt);
    assert_eq!(manager.task(1).status(), TaskStatus::Exited);
}

#[test]
fn calls_are_counted_before_they_are_handled() {
    let (mut manager, mut pool) = started(1);
    let ticks = 12_500 * 200;
    let handled = syscall(&mut manager, &mut pool, SYSCALL_TASK_INFO, [0x10000, 0, 0], ticks);
    assert_eq!(handled, Handled { result: Some(0), action: None });
    let bytes = user_bytes(&manager, 0x10000, TASK_INFO_SIZE);
    // the call that asked is counted in what it learned
    assert_eq!(&bytes[4 + 4 * 410..8 + 4 * 410], &[1, 0, 0, 0]);
    assert_eq!(&bytes[2008..2016], &[100, 0, 0, 0, 0, 0, 0, 0]);
    for _ in 0..3 {
        syscall(&mut manager, &mut pool, SYSCALL_GET_TIME, [0x10000, 0, 0], ticks);
    }
    let times = manager.current_task_syscall_count();
    assert_eq!(times[SYSCALL_GET_TIME], 3);
    assert_eq!(times[SYSCALL_TASK_INFO], 1);
    assert_eq!(times.iter().map(|n| *n as usize).sum::<usize>(), 4);
}

#[test]
fn calls_are_told_apart_by_their_numbers() {
    let (mut manager, mut pool) = started(2);
    let ticks = 12_500_000 * 3 + 25;
    assert_eq!(
        syscall(&mut manager, &mut pool, SYSCALL_GET_TIME, [0x10000, 0, 0], ticks),
        Handled { result: Some(0), action: None }
    );
    assert_eq!(
        user_bytes(&manager, 0x10000, 16),
        vec![3, 0, 0, 0, 0, 0, 0, 0, 2, 0, 0, 0, 0, 0, 0, 0]
    );
    assert_eq!(
        syscall(&mut manager, &mut pool, SYSCALL_MMAP, [0x20000, 0x1000, 3], ticks),
        Handled { result: Some(0), action: None }
    );
    assert_eq!(
        syscall(&mut manager, &mut pool, SYSCALL_MMAP, [0x20000, 0x1000, 3], ticks),
        Handled { result: Some(-1), action: None }
    );
    assert_eq!(
        syscall(&mut manager, &mut pool, SYSCALL_MUNMAP, [0x20000, 0x1000, 0], ticks),
        Handled { result: Some(0), action: None }
    );
    assert_eq!(
        syscall(&mut manager, &mut pool, SYSCALL_SBRK, [0x10, 0, 0], ticks),
        Handled { result: Some(0x12000), action: None }
    );
    assert_eq!(
        syscall(&mut manager, &mut pool, SYSCALL_SBRK, [(-0x11isize) as usize, 0, 0], ticks),
        Handled { result: Some(-1), action: None }
    );
    assert_eq!(
        syscall(&mut manager, &mut pool, 1, [0, 0, 0], ticks),
        Handled { result: Some(-1), action: None }
    );
    assert_eq!(
        syscall(&mut manager, &mut pool, 5000, [0, 0, 0], ticks),
        Handled { result: Some(-1), action: None }
    );
    assert_eq!(
        syscall(&mut manager, &mut pool, SYSCALL_YIELD, [0, 0, 0], ticks),
        Handled { result: Some(0), action: Some(Dispatch::Switch { from: 0, to: 1 }) }
    );
    assert_eq!(manager.task(1).start_time(), Some(3000));
    assert_eq!(
        syscall(&mut manager, &mut pool, SYSCALL_EXIT, [0, 0, 0], ticks),
        Handled { result: None, action: Some(Dispatch::Switch { from: 1, to: 0 }) }
    );
    assert_eq!(
        syscall(&mut manager, &mut pool, SYSCALL_EXIT, [1, 0, 0], ticks),
        Handled { result: None, action: Some(Dispatch::Halt) }
    );
}

#[test]
fn system_call_trap_reads_and_writes_the_callers_registers() {
    let (mut manager, mut pool) = started(2);
    {
        let cx = manager.get_current_trap_cx();
        cx.x[17] = SYSCALL_SBRK;
        cx.x[10] = 0x20;
        cx.sepc = 0x10040;
    }
    let outcome = trap_handler(&mut manager, &mut pool, TrapCause::Syscall, 12_500_000);
    assert_eq!(outcome, TrapOutcome { timer: None, action: None });
    let cx = manager.get_current_trap_cx();
    assert_eq!(cx.sepc, 0x10044);
    assert_eq!(cx.x[10], 0x12000);
    assert_eq!(cx.x[17], SYSCALL_SBRK);
    assert_eq!(manager.current_task_syscall_count()[SYSCALL_SBRK], 1);
}

#[test]
fn failed_call_puts_minus_one_in_the_result_register() {
    let (mut manager, mut pool) = started(1);
    {
        let cx = manager.get_current_trap_cx();
        cx.x[17] = SYSCALL_MMAP;
        cx.x[10] = 0x20001;
        cx.x[11] = 0x1000;
        cx.x[12] = 3;
    }
    trap_handler(&mut manager, &mut pool, TrapCause::Syscall, 12_500_000);
    assert_eq!(manager.get_current_trap_cx().x[10], usize::MAX);
}

#[test]
fn yield_trap_answers_the_task_that_called() {
    let (mut manager, mut pool) = started(2);
    {
        let cx = manager.get_current_trap_cx();
        cx.x[17] = SYSCALL_YIELD;
        cx.x[10] = 0x99;
        cx.sepc = 0x10000;
    }
    let outcome = trap_handler(&mut manager, &mut pool, TrapCause::Syscall, 12_500_000 * 2);
    assert_eq!(
        outcome,
        TrapOutcome { timer: None, action: Some(Dispatch::Switch { from: 0, to: 1 }) }
    );
    assert_eq!(manager.current_task(), 1);
    assert_eq!(manager.task_trap_cx(0).x[10], 0);
    assert_eq!(manager.task_trap_cx(0).sepc, 0x10004);
    // the task that runs now is as it was made
    assert_eq!(manager.task_trap_cx(1).x[10], 0);
    assert_eq!(manager.task_trap_cx(1).sepc, 0x10000);
    assert_eq!(manager.task(1).start_time(), Some(2000));
}

#[test]
fn exit_trap_leaves_the_registers_of_the_task_that_ended() {
    let (mut manager, mut pool) = started(2);
    {
        let cx = manager.get_current_trap_cx();
        cx.x[17] = SYSCALL_EXIT;
        cx.x[10] = 7;
    }
    let outcome = trap_handler(&mut manager, &mut pool, TrapCause::Syscall, 12_500_000);
    assert_eq!(
        outcome,
        TrapOutcome { timer: None, action: Some(Dispatch::Switch { from: 0, to: 1 }) }
    );
    assert_eq!(manager.task_trap_cx(0).x[10], 7);
    assert_eq!(manager.task(0).status(), TaskStatus::Exited);
}

#[test]
fn timer_interrupt_arms_the_timer_and_preempts() {
    let (mut manager, mut pool) = started(3);
    let outcome = trap_handler(&mut manager, &mut pool, TrapCause::TimerInterrupt, 12_500_000);
    assert_eq!(
        outcome,
        TrapOutcome {
            timer: Some(12_500_000 + 125_000),
            action: Some(Dispatch::Switch { from: 0, to: 1 }),
        }
    );
    assert_eq!(manager.task(0).status(), TaskStatus::Ready);
    assert_eq!(manager.task(1).status(), TaskStatus::Running);
    // the task's registers are as they were when it trapped
    assert_eq!(manager.task_trap_cx(0).sepc, 0x10000);
}

#[test]
fn fault_ends_the_task_that_trapped_and_no_other() {
    let (mut manager, mut pool) = started(3);
    let outcome = trap_handler(&mut manager, &mut pool, TrapCause::MemoryFault, 12_500_000);
    assert_eq!(
        outcome,
        TrapOutcome { timer: None, action: Some(Dispatch::Switch { from: 0, to: 1 }) }
    );
    let outcome = trap_handler(
        &mut manager,
        &mut pool,
        TrapCause::IllegalInstruction,
        12_500_000,
    );
    assert_eq!(
        outcome,
        TrapOutcome { timer: None, action: Some(Dispatch::Switch { from: 1, to: 2 }) }
    );
    assert_eq!(manager.task(0).status(), TaskStatus::Exited);
    assert_eq!(manager.task(1).status(), TaskStatus::Exited);
    assert_eq!(manager.task(2).status(), TaskStatus::Running);
    let outcome = trap_handler(&mut manager, &mut pool, TrapCause::MemoryFault, 12_500_000);
    assert_eq!(outcome, TrapOutcome { timer: None, action: Some(Dispatch::Halt) });
}

#[test]
fn cause_register_is_read_as_the_cause_of_a_trap() {
    let interrupt = 1usize << (usize::BITS - 1);
    assert_eq!(TrapCause::from_scause(8), Some(TrapCause::Syscall));
    assert_eq!(TrapCause::from_scause(2), Some(TrapCause::IllegalInstruction));
    for code in [1, 5, 7, 12, 13, 15] {
        assert_eq!(TrapCause::from_scause(code), Some(TrapCause::MemoryFault));
    }
    assert_eq!(
        TrapCause::from_scause(interrupt | 5),
        Some(TrapCause::TimerInterrupt)
    );
    // misaligned accesses, breakpoints and codes without a name
    for code in [0, 3, 4, 6, 9, 10, 11, 14, 16, 1000, interrupt - 1] {
        assert_eq!(TrapCause::from_scause(code), None);
    }
    // the other interrupts, and an interrupt with the code of a system call
    for code in [0, 1, 4, 8, 9, 2, 6, 7, 12, 100] {
        assert_eq!(TrapCause::from_scause(interrupt | code), None);
    }
    assert_eq!(TrapCause::from_scause(usize::MAX), None);
}
