use rv_kernel::mm::address::{PhysPageNum, VirtPageNum};
use rv_kernel::mm::frame_allocator::FrameAllocator;
use rv_kernel::mm::memory_set::{MapPermission, MemorySet, PERM_R, PERM_U, PERM_W};
use rv_kernel::mm::page_table::SATP_MODE;
use rv_kernel::sync::UPSafeCell;
use rv_kernel::task::context::TaskContext;
use rv_kernel::task::tcb::{KernelLinks, TaskControlBlock, TaskStatus};
use rv_kernel::task::{
    change_program_brk, current_memory_set, current_task_start_time, current_task_status,
    current_task_syscall_add_count, current_task_syscall_count, current_trap_cx,
    current_user_token, exit_current_and_run_next, run_first_task, run_next_task,
    suspend_current_and_run_next, Dispatch, TaskManager,
};
use rv_kernel::timer::{get_time_ms, get_time_us, set_next_trigger};
use rv_kernel::trap::context::TrapContext;

fn links() -> KernelLinks {
    KernelLinks {
        kernel_satp: 0x8000_0000_0008_0000,
        trap_handler: 0x8020_1000,
        trap_return: 0x8020_2000,
        sstatus: 0x8000_0002_0000_6100,
    }
}

fn task(pool: &mut FrameAllocator, id: usize) -> TaskControlBlock {
    let mut space = MemorySet::new_bare(pool, PhysPageNum(0x8_0000)).unwrap();
    let perm = MapPermission::from_bits(PERM_R | PERM_W | PERM_U).unwrap();
    space
        .insert_framed_area(pool, VirtPageNum(0x10), VirtPageNum(0x12), perm)
        .unwrap();
    TaskControlBlock::new(space, 0x10000, 0x12000, 0xffff_0000 - id * 0x3000, links())
}

fn manager(tasks: usize) -> (TaskManager, FrameAllocator) {
    let mut pool = FrameAllocator::new(PhysPageNum(0x9_0000), PhysPageNum(0x9_1000));
    let mut records = Vec::new();
    for id in 0..tasks {
        records.push(task(&mut pool, id));
    }
    (TaskManager::new(records).unwrap(), pool)
}

fn statuses(manager: &TaskManager) -> Vec<TaskStatus> {
    (0..manager.num_app())
        .map(|id| manager.task(id).status())
        .collect()
}

fn running(manager: &TaskManager) -> usize {
    statuses(manager)
        .iter()
        .filter(|status| **status == TaskStatus::Running)
        .count()
}

#[test]
fn cell_holds_and_yields_its_value() {
    let mut cell = UPSafeCell::new(5u32);
    assert_eq!(*cell.borrow(), 5);
    *cell.exclusive_access() += 2;
    assert_eq!(*cell.borrow(), 7);
    assert_eq!(cell.into_inner(), 7);
}

#[test]
fn time_is_derived_from_the_counter() {
    assert_eq!(get_time_ms(0), 0);
    assert_eq!(get_time_ms(12_500_000), 1000);
    assert_eq!(get_time_ms(12_499), 0);
    assert_eq!(get_time_ms(12_500), 1);
    assert_eq!(get_time_us(25), 2);
    assert_eq!(get_time_us(12_500_000), 1_000_000);
    assert_eq!(get_time_us(12), 0);
    assert_eq!(get_time_us(13), 1);
    // no overflow where the product exceeds the width of the counter
    assert_eq!(get_time_us(usize::MAX), usize::MAX / 25 * 2 + (usize::MAX % 25) * 2 / 25);
    assert_eq!(get_time_ms(usize::MAX), usize::MAX / 12_500);
}

#[test]
fn next_trigger_is_a_hundredth_of_a_second_away() {
    assert_eq!(set_next_trigger(0), 125_000);
    assert_eq!(set_next_trigger(1_000_000), 1_125_000);
}

#[test]
fn trap_context_of_a_new_task() {
    let cx = TrapContext::app_init_context(0x10000, 0x12000, 7, 8, 9, 0x8000_0000_0000_0122);
    assert_eq!(cx.sepc, 0x10000);
    assert_eq!(cx.x[2], 0x12000);
    for i in 0..32 {
        if i != 2 {
            assert_eq!(cx.x[i], 0);
        }
    }
    assert_eq!(cx.sstatus, 0x8000_0000_0000_0022);
    assert_eq!(cx.kernel_satp, 7);
    assert_eq!(cx.kernel_sp, 8);
    assert_eq!(cx.trap_handler, 9);
}

#[test]
fn set_sp_changes_register_two_only() {
    let mut cx = TrapContext::app_init_context(1, 2, 3, 4, 5, 6);
    cx.x[10] = 77;
    cx.set_sp(0xdead_0000);
    assert_eq!(cx.x[2], 0xdead_0000);
    assert_eq!(cx.x[10], 77);
    assert_eq!(cx.sepc, 1);
    assert_eq!(cx.sstatus, 6);
}

#[test]
fn task_contexts() {
    let zero = TaskContext::zero_init();
    assert_eq!((zero.ra, zero.sp, zero.s), (0, 0, [0; 12]));
    let first = TaskContext::goto_trap_return(0x8020_2000, 0xffff_0000);
    assert_eq!((first.ra, first.sp, first.s), (0x8020_2000, 0xffff_0000, [0; 12]));
}

#[test]
fn new_task_is_ready_and_has_not_run() {
    let mut pool = FrameAllocator::new(PhysPageNum(0x9_0000), PhysPageNum(0x9_1000));
    let task = task(&mut pool, 1);
    assert_eq!(task.status(), TaskStatus::Ready);
    assert_eq!(task.start_time(), None);
    assert_eq!(task.syscall_times(), [0u32; 500]);
    assert_eq!(task.heap_bottom(), 0x12000);
    assert_eq!(task.program_brk(), 0x12000);
    assert_eq!(task.task_cx().ra, 0x8020_2000);
    assert_eq!(task.task_cx().sp, 0xffff_0000 - 0x3000);
    assert_eq!(task.get_user_token(), SATP_MODE | 0x9_0000);
    assert!(task.memory_set().is_mapped(VirtPageNum(0x10)));
}

#[test]
fn manager_needs_tasks_that_have_not_run() {
    assert!(TaskManager::new(Vec::new()).is_none());
    let (mut first, mut pool) = manager(2);
    run_first_task(&mut first, 3);
    let (fresh, _) = manager(1);
    assert_eq!(fresh.num_app(), 1);
    assert_eq!(fresh.current_task(), 0);
    let _ = task(&mut pool, 9);
}

#[test]
fn first_task_runs_first() {
    let (mut manager, _pool) = manager(3);
    assert_eq!(current_task_status(&manager), TaskStatus::Ready);
    assert_eq!(current_task_start_time(&manager), None);
    assert_eq!(run_first_task(&mut manager, 42), Dispatch::First { to: 0 });
    assert_eq!(
        statuses(&manager),
        vec![TaskStatus::Running, TaskStatus::Ready, TaskStatus::Ready]
    );
    assert_eq!(current_task_start_time(&manager), Some(42));
    assert_eq!(manager.current_task(), 0);
}

#[test]
fn next_ready_task_after_the_current_one_is_scheduled() {
    // tasks 0, 1, 2 with task 1 running: the next is 2, then 0, and so round
    let (mut manager, _pool) = manager(3);
    run_first_task(&mut manager, 0);
    assert_eq!(
        suspend_current_and_run_next(&mut manager, 1),
        Dispatch::Switch { from: 0, to: 1 }
    );
    assert_eq!(
        statuses(&manager),
        vec![TaskStatus::Ready, TaskStatus::Running, TaskStatus::Ready]
    );
    assert_eq!(manager.find_next_task(), Some(2));
    assert_eq!(
        suspend_current_and_run_next(&mut manager, 2),
        Dispatch::Switch { from: 1, to: 2 }
    );
    assert_eq!(
        suspend_current_and_run_next(&mut manager, 3),
        Dispatch::Switch { from: 2, to: 0 }
    );
    assert_eq!(
        suspend_current_and_run_next(&mut manager, 4),
        Dispatch::Switch { from: 0, to: 1 }
    );
    assert_eq!(manager.current_task(), 1);
}

#[test]
fn exited_tasks_are_skipped() {
    let (mut manager, _pool) = manager(3);
    run_first_task(&mut manager, 0);
    suspend_current_and_run_next(&mut manager, 1);
    // task 1 ends; 2 runs
    assert_eq!(
        exit_current_and_run_next(&mut manager, 2),
        Dispatch::Switch { from: 1, to: 2 }
    );
    assert_eq!(
        statuses(&manager),
        vec![TaskStatus::Ready, TaskStatus::Exited, TaskStatus::Running]
    );
    // from 2 the turn goes to 0, and from 0 past the ended task 1 to 2
    assert_eq!(
        suspend_current_and_run_next(&mut manager, 3),
        Dispatch::Switch { from: 2, to: 0 }
    );
    assert_eq!(
        suspend_current_and_run_next(&mut manager, 4),
        Dispatch::Switch { from: 0, to: 2 }
    );
    assert_eq!(manager.task(1).status(), TaskStatus::Exited);
}

#[test]
fn sole_ready_task_is_scheduled_again() {
    let (mut manager, _pool) = manager(2);
    run_first_task(&mut manager, 0);
    assert_eq!(
        exit_current_and_run_next(&mut manager, 1),
        Dispatch::Switch { from: 0, to: 1 }
    );
    assert_eq!(
        suspend_current_and_run_next(&mut manager, 2),
        Dispatch::Switch { from: 1, to: 1 }
    );
    assert_eq!(
        statuses(&manager),
        vec![TaskStatus::Exited, TaskStatus::Running]
    );
}

#[test]
fn processor_halts_when_no_task_is_ready() {
    let (mut manager, _pool) = manager(2);
    run_first_task(&mut manager, 0);
    exit_current_and_run_next(&mut manager, 1);
    assert_eq!(exit_current_and_run_next(&mut manager, 2), Dispatch::Halt);
    assert_eq!(
        statuses(&manager),
        vec![TaskStatus::Exited, TaskStatus::Exited]
    );
    assert_eq!(manager.find_next_task(), None);
    assert_eq!(run_next_task(&mut manager, 3), Dispatch::Halt);
}

#[test]
fn at_most_one_task_runs() {
    let (mut manager, _pool) = manager(4);
    assert_eq!(running(&manager), 0);
    run_first_task(&mut manager, 0);
    assert_eq!(running(&manager), 1);
    for step in 0..20 {
        if step % 7 == 6 {
            exit_current_and_run_next(&mut manager, step);
        } else {
            suspend_current_and_run_next(&mut manager, step);
        }
        assert_eq!(running(&manager), 1);
        assert_eq!(current_task_status(&manager), TaskStatus::Running);
    }
    // in between the two steps of a switch no task runs
    manager.mark_current_suspended();
    assert_eq!(running(&manager), 0);
    manager.run_next_task(21);
    assert_eq!(running(&manager), 1);
}

#[test]
fn start_time_is_set_once() {
    let (mut manager, _pool) = manager(3);
    run_first_task(&mut manager, 10);
    suspend_current_and_run_next(&mut manager, 20);
    assert_eq!(manager.task(0).start_time(), Some(10));
    assert_eq!(manager.task(1).start_time(), Some(20));
    assert_eq!(manager.task(2).start_time(), None);
    suspend_current_and_run_next(&mut manager, 30);
    suspend_current_and_run_next(&mut manager, 40);
    suspend_current_and_run_next(&mut manager, 50);
    exit_current_and_run_next(&mut manager, 60);
    suspend_current_and_run_next(&mut manager, 70);
    assert_eq!(manager.task(0).start_time(), Some(10));
    assert_eq!(manager.task(1).start_time(), Some(20));
    assert_eq!(manager.task(2).start_time(), Some(30));
}

#[test]
fn counter_equals_the_number_of_calls() {
    let (mut manager, _pool) = manager(2);
    run_first_task(&mut manager, 0);
    for _ in 0..5 {
        current_task_syscall_add_count(&mut manager, 169);
    }
    current_task_syscall_add_count(&mut manager, 0);
    current_task_syscall_add_count(&mut manager, 499);
    let times = current_task_syscall_count(&manager);
    for id in 0..500 {
        let expected = match id {
            169 => 5,
            0 | 499 => 1,
            _ => 0,
        };
        assert_eq!(times[id], expected);
    }
    assert_eq!(manager.task(1).syscall_times(), [0u32; 500]);
}

#[test]
fn calls_outside_the_id_space_are_not_counted() {
    let (mut manager, _pool) = manager(1);
    run_first_task(&mut manager, 0);
    current_task_syscall_add_count(&mut manager, 500);
    current_task_syscall_add_count(&mut manager, usize::MAX);
    assert_eq!(current_task_syscall_count(&manager), [0u32; 500]);
}

#[test]
fn program_break_moves_within_its_bounds() {
    let (mut manager, _pool) = manager(1);
    run_first_task(&mut manager, 0);
    assert_eq!(change_program_brk(&mut manager, 0), Some(0x12000));
    assert_eq!(change_program_brk(&mut manager, 0x1800), Some(0x12000));
    assert_eq!(change_program_brk(&mut manager, -0x800), Some(0x13800));
    assert_eq!(manager.task(0).program_brk(), 0x13000);
    assert_eq!(change_program_brk(&mut manager, -0x1001), None);
    assert_eq!(manager.task(0).program_brk(), 0x13000);
    assert_eq!(change_program_brk(&mut manager, -0x1000), Some(0x13000));
    assert_eq!(manager.task(0).program_brk(), 0x12000);
    assert_eq!(manager.change_current_program_brk(-1), None);
}

#[test]
fn current_task_is_reached_through_the_manager() {
    let (mut manager, mut pool) = manager(2);
    run_first_task(&mut manager, 0);
    suspend_current_and_run_next(&mut manager, 1);
    assert_eq!(current_user_token(&manager), SATP_MODE | (0x9_0000 + 8));
    current_trap_cx(&mut manager).x[10] = 0x55;
    assert_eq!(manager.task(1).get_user_token(), SATP_MODE | (0x9_0000 + 8));
    assert_eq!(manager.get_current_trap_cx().x[10], 0x55);
    assert_eq!(manager.task_trap_cx(0).x[10], 0);
    let perm = MapPermission::from_bits(PERM_R | PERM_U).unwrap();
    current_memory_set(&mut manager)
        .insert_framed_area(&mut pool, VirtPageNum(0x40), VirtPageNum(0x41), perm)
        .unwrap();
    assert!(manager.current_memory().is_mapped(VirtPageNum(0x40)));
    assert!(!manager.task(0).memory_set().is_mapped(VirtPageNum(0x40)));
    manager.task_context_mut(0).ra = 0x1234;
    assert_eq!(manager.task_context(0).ra, 0x1234);
    assert_eq!(manager.task_context(1).ra, 0x8020_2000);
}

#[test]
fn three_tasks_run_to_completion_in_round_robin_order() {
    let (mut manager, _pool) = manager(3);
    let mut order = vec![0usize];
    assert_eq!(run_first_task(&mut manager, 0), Dispatch::First { to: 0 });
    // each task gives up the processor twice and ends at its third turn
    let mut turns = [0usize; 3];
    let mut now = 0;
    loop {
        now += 1;
        let current = manager.current_task();
        turns[current] += 1;
        let action = if turns[current] == 3 {
            exit_current_and_run_next(&mut manager, now)
        } else {
            suspend_current_and_run_next(&mut manager, now)
        };
        match action {
            Dispatch::Switch { from, to } => {
                assert_eq!(from, current);
                order.push(to);
            }
            Dispatch::Halt => break,
            Dispatch::First { .. } => unreachable!(),
        }
    }
    assert_eq!(order, vec![0, 1, 2, 0, 1, 2, 0, 1, 2]);
    assert_eq!(
        statuses(&manager),
        vec![TaskStatus::Exited, TaskStatus::Exited, TaskStatus::Exited]
    );
}

#[test]
fn no_task_runs_twice_in_a_row_while_another_is_ready() {
    let (mut manager, _pool) = manager(3);
    run_first_task(&mut manager, 0);
    let mut previous = 0;
    for step in 1..30usize {
        let ends = step == 5 || step == 12;
        let action = if ends {
            exit_current_and_run_next(&mut manager, step)
        } else {
            suspend_current_and_run_next(&mut manager, step)
        };
        if let Dispatch::Switch { to, .. } = action {
            let others_ready = (0..3).any(|id| {
                id != previous && manager.task(id).status() != TaskStatus::Exited && id != to
            });
            if to == previous {
                assert!(!others_ready);
            }
            previous = to;
        }
    }
    // two tasks have ended: the third has the processor to itself
    assert_eq!(
        suspend_current_and_run_next(&mut manager, 99),
        Dispatch::Switch { from: previous, to: previous }
    );
}
