//! System calls: their numbers and the way from a number to its handler.

pub mod process;

use vstd::prelude::*;
use crate::config::MAX_SYSCALL_NUM;
use crate::mm::frame_allocator::FrameAllocator;
use crate::syscall::process::{
    exit_effect, get_time_effect, mmap_effect, munmap_effect, sbrk_effect, sys_exit,
    sys_get_time, sys_mmap, sys_munmap, sys_sbrk, sys_task_info, sys_yield, task_info_effect,
    yield_effect,
};
use crate::task::{current_task_syscall_add_count, Dispatch, TaskManager, TaskManagerView};
use crate::timer::{get_time_ms, get_time_us, ticks_to_ms, ticks_to_us};

verus! {

/// The number of the call that ends the calling task.
pub const SYSCALL_EXIT: usize = 93;

/// The number of the call that gives up the processor.
pub const SYSCALL_YIELD: usize = 124;

/// The number of the call that asks for the time of day.
pub const SYSCALL_GET_TIME: usize = 169;

/// The number of the call that moves the program break.
pub const SYSCALL_SBRK: usize = 214;

/// The number of the call that unmaps memory.
pub const SYSCALL_MUNMAP: usize = 215;

/// The number of the call that maps memory.
pub const SYSCALL_MMAP: usize = 222;

/// The number of the call that asks what the calling task may learn about
/// itself.
pub const SYSCALL_TASK_INFO: usize = 410;

/// How a system call ended.
#[derive(Clone, Copy, PartialEq, Eq, Structural, Debug)]
pub struct Handled {
    /// The call's answer, for the caller's result register. A call that ends
    /// its caller has none.
    pub result: Option<isize>,
    /// What the processor is to do where the call gave the processor away.
    /// Otherwise the caller goes on.
    pub action: Option<Dispatch>,
}

/// What system call `id` with the arguments `args` does when the counter
/// reads `ticks`, from the state `pre` in which the call is counted already.
/// A number that names no call is answered with -1.
pub open spec fn syscall_effect(
    pre: TaskManagerView,
    post: TaskManagerView,
    pool_pre: FrameAllocator,
    pool_post: FrameAllocator,
    id: usize,
    args: Seq<usize>,
    ticks: usize,
    handled: Handled,
) -> bool {
    let ms = ticks_to_ms(ticks as int) as usize;
    let us = ticks_to_us(ticks as int) as usize;
    if id == SYSCALL_EXIT {
        &&& handled.result is None
        &&& handled.action matches Some(action)
        &&& exit_effect(pre, post, action, ms)
        &&& pool_post == pool_pre
    } else if id == SYSCALL_YIELD {
        &&& handled.result == Some(0isize)
        &&& handled.action matches Some(action)
        &&& yield_effect(pre, post, action, ms)
        &&& pool_post == pool_pre
    } else if id == SYSCALL_GET_TIME {
        &&& handled.action is None
        &&& handled.result matches Some(answer)
        &&& get_time_effect(pre, post, args[0], us, answer)
        &&& pool_post == pool_pre
    } else if id == SYSCALL_TASK_INFO {
        &&& handled.action is None
        &&& handled.result matches Some(answer)
        &&& task_info_effect(pre, post, args[0], ms, answer)
        &&& pool_post == pool_pre
    } else if id == SYSCALL_MMAP {
        &&& handled.action is None
        &&& handled.result matches Some(answer)
        &&& mmap_effect(pre, post, pool_pre, pool_post, args[0], args[1], args[2], answer)
    } else if id == SYSCALL_MUNMAP {
        &&& handled.action is None
        &&& handled.result matches Some(answer)
        &&& munmap_effect(pre, post, pool_pre, pool_post, args[0], args[1], answer)
    } else if id == SYSCALL_SBRK {
        &&& handled.action is None
        &&& handled.result matches Some(answer)
        &&& sbrk_effect(pre, post, args[0] as i32, answer)
        &&& pool_post == pool_pre
    } else {
        &&& handled.action is None
        &&& handled.result == Some(-1isize)
        &&& post == pre
        &&& pool_post == pool_pre
    }
}

/// Handles system call `syscall_id` of the current task, which runs, with the
/// arguments `args`, when the counter reads `ticks`. The call is counted
/// first, if its number lies in the id space, and then handled.
pub fn syscall(
    manager: &mut TaskManager,
    pool: &mut FrameAllocator,
    syscall_id: usize,
    args: [usize; 3],
    ticks: usize,
) -> (handled: Handled)
    requires
        old(manager).wf(),
        old(manager)@.running(),
        old(pool).wf(),
        syscall_id < MAX_SYSCALL_NUM ==> old(
            manager,
        )@.current_task().syscall_times[syscall_id as int] < u32::MAX,
        old(manager)@.current_task().start_time matches Some(start) ==> start <= ticks_to_ms(
            ticks as int,
        ),
    ensures
        final(manager).wf(),
        final(pool).wf(),
        final(pool).spec_start() == old(pool).spec_start(),
        final(pool).spec_end() == old(pool).spec_end(),
        syscall_effect(
            old(manager)@.counted(syscall_id as int),
            final(manager)@,
            *old(pool),
            *final(pool),
            syscall_id,
            args@,
            ticks,
            handled,
        ),
{
    proof {
        manager.lemma_wf();
    }
    current_task_syscall_add_count(manager, syscall_id);
    proof {
        manager.lemma_wf();
    }
    let ms: usize = get_time_ms(ticks);
    let us: usize = get_time_us(ticks);
    if syscall_id == SYSCALL_EXIT {
        let action = sys_exit(manager, args[0] as i32, ms);
        Handled { result: None, action: Some(action) }
    } else if syscall_id == SYSCALL_YIELD {
        let answer = sys_yield(manager, ms);
        Handled { result: Some(answer.0), action: Some(answer.1) }
    } else if syscall_id == SYSCALL_GET_TIME {
        let answer = sys_get_time(manager, args[0], args[1], us);
        Handled { result: Some(answer), action: None }
    } else if syscall_id == SYSCALL_TASK_INFO {
        let answer = sys_task_info(manager, args[0], ms);
        Handled { result: Some(answer), action: None }
    } else if syscall_id == SYSCALL_MMAP {
        let answer = sys_mmap(manager, pool, args[0], args[1], args[2]);
        Handled { result: Some(answer), action: None }
    } else if syscall_id == SYSCALL_MUNMAP {
        let answer = sys_munmap(manager, pool, args[0], args[1]);
        Handled { result: Some(answer), action: None }
    } else if syscall_id == SYSCALL_SBRK {
        let answer = sys_sbrk(manager, args[0] as i32);
        Handled { result: Some(answer), action: None }
    } else {
        Handled { result: Some(-1), action: None }
    }
}

} // verus!
