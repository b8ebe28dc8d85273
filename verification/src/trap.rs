//! Entry into the kernel from user mode.
//!
//! When a task traps, its user registers are saved in its trap context and
//! the kernel is entered with the cause of the trap. The handler decides what
//! the trap means for the task and for the processor, and tells the caller
//! what is left to do: arm the timer, switch to another task, or halt. The
//! return to user mode restores the registers from the trap context of the
//! task that runs then.

pub mod cause;
pub mod context;

use vstd::prelude::*;
use crate::config::MAX_SYSCALL_NUM;
use crate::mm::frame_allocator::FrameAllocator;
use crate::syscall::process::{exit_effect, yield_effect};
use crate::syscall::{syscall, syscall_effect, Handled};
use crate::task::tcb::TaskView;
use crate::task::{
    exit_current_and_run_next, suspend_current_and_run_next, Dispatch, TaskManager,
    TaskManagerView,
};
use crate::timer::{get_time_ms, next_trigger, set_next_trigger, ticks_to_ms};
use crate::trap::context::TrapContext;

verus! {

/// The index of the register that carries the number of a system call.
pub const REG_SYSCALL_ID: usize = 17;

/// The index of the register that carries the first argument of a system
/// call, and its result.
pub const REG_A0: usize = 10;

/// The index of the register that carries the second argument.
pub const REG_A1: usize = 11;

/// The index of the register that carries the third argument.
pub const REG_A2: usize = 12;

/// The length of the instruction that makes a system call, in bytes.
pub const ECALL_SIZE: usize = 4;

/// Why the current task trapped.
#[derive(Clone, Copy, PartialEq, Eq, Structural, Debug)]
pub enum TrapCause {
    /// The task makes a system call.
    Syscall,
    /// The timer went off.
    TimerInterrupt,
    /// The task ran an instruction that it may not run.
    IllegalInstruction,
    /// The task touched memory that is not mapped, or in a way that its
    /// mapping forbids.
    MemoryFault,
}

/// What is left to do after a trap was handled.
#[derive(Clone, Copy, PartialEq, Eq, Structural, Debug)]
pub struct TrapOutcome {
    /// The counter's reading at which the timer is to be armed, if it is to
    /// be armed.
    pub timer: Option<usize>,
    /// What the processor is to do where the task that trapped does not go
    /// on. Otherwise it returns to that task.
    pub action: Option<Dispatch>,
}

impl TrapContext {
    /// The context with the program counter moved past the instruction that
    /// made a system call.
    pub open spec fn past_ecall(self) -> TrapContext {
        TrapContext { sepc: (self.sepc + ECALL_SIZE) as usize, ..self }
    }

    /// Whether the context is `before` with `value` in the result register.
    pub open spec fn holds_result(self, before: TrapContext, value: usize) -> bool {
        &&& self.x@ == before.x@.update(REG_A0 as int, value)
        &&& self.sstatus == before.sstatus
        &&& self.sepc == before.sepc
        &&& self.kernel_satp == before.kernel_satp
        &&& self.kernel_sp == before.kernel_sp
        &&& self.trap_handler == before.trap_handler
    }
}

impl TaskManagerView {
    /// The manager with the user registers of task `id` changed to `cx`.
    pub open spec fn with_trap_cx(self, id: int, cx: TrapContext) -> TaskManagerView {
        self.with_task(id, TaskView { trap_cx: cx, ..self.tasks[id] })
    }
}

/// What a trap of the current task for `cause` does when the counter reads
/// `ticks`.
///
/// A system call is read from the task's registers: its number from x17 and
/// its arguments from x10 to x12. The program counter is moved past the
/// calling instruction, the call is counted and handled, and its answer, if
/// it has one, is put in x10 of the task that called. The timer's interrupt
/// arms the timer for the next one and takes the processor from the task as
/// if the task had given it up. A fault ends the task, and no other.
pub open spec fn trap_effect(
    pre: TaskManagerView,
    post: TaskManagerView,
    pool_pre: FrameAllocator,
    pool_post: FrameAllocator,
    cause: TrapCause,
    ticks: usize,
    outcome: TrapOutcome,
) -> bool {
    let ms = ticks_to_ms(ticks as int) as usize;
    match cause {
        TrapCause::Syscall => {
            let caller = pre.current;
            let cx = pre.current_task().trap_cx;
            let id = cx.x[REG_SYSCALL_ID as int];
            let args = seq![cx.x[REG_A0 as int], cx.x[REG_A1 as int], cx.x[REG_A2 as int]];
            let entered = pre.with_trap_cx(caller, cx.past_ecall()).counted(id as int);
            &&& outcome.timer is None
            &&& post.tasks.len() == pre.tasks.len()
            &&& exists|result: Option<isize>| #[trigger]
                syscall_effect(
                    entered,
                    post.with_trap_cx(caller, cx.past_ecall()),
                    pool_pre,
                    pool_post,
                    id,
                    args,
                    ticks,
                    Handled { result, action: outcome.action },
                ) && (match result {
                    Some(answer) => post.tasks[caller].trap_cx.holds_result(
                        cx.past_ecall(),
                        answer as usize,
                    ),
                    None => post.tasks[caller].trap_cx == cx.past_ecall(),
                })
        },
        TrapCause::TimerInterrupt => {
            &&& outcome.timer == Some(next_trigger(ticks as int) as usize)
            &&& outcome.action matches Some(action)
            &&& yield_effect(pre, post, action, ms)
            &&& pool_post == pool_pre
        },
        TrapCause::IllegalInstruction | TrapCause::MemoryFault => {
            &&& outcome.timer is None
            &&& outcome.action matches Some(action)
            &&& exit_effect(pre, post, action, ms)
            &&& pool_post == pool_pre
        },
    }
}

/// Handles a trap of the current task, which runs, for `cause`, when the
/// counter reads `ticks`.
pub fn trap_handler(
    manager: &mut TaskManager,
    pool: &mut FrameAllocator,
    cause: TrapCause,
    ticks: usize,
) -> (outcome: TrapOutcome)
    requires
        old(manager).wf(),
        old(manager)@.running(),
        old(pool).wf(),
        old(manager)@.current_task().start_time matches Some(start) ==> start <= ticks_to_ms(
            ticks as int,
        ),
        cause == TrapCause::TimerInterrupt ==> next_trigger(ticks as int) <= usize::MAX,
        cause == TrapCause::Syscall ==> {
            let cx = old(manager)@.current_task().trap_cx;
            &&& cx.sepc + ECALL_SIZE <= usize::MAX
            &&& cx.x[REG_SYSCALL_ID as int] < MAX_SYSCALL_NUM ==> old(
                manager,
            )@.current_task().syscall_times[cx.x[REG_SYSCALL_ID as int] as int] < u32::MAX
        },
    ensures
        final(manager).wf(),
        final(pool).wf(),
        final(pool).spec_start() == old(pool).spec_start(),
        final(pool).spec_end() == old(pool).spec_end(),
        trap_effect(
            old(manager)@,
            final(manager)@,
            *old(pool),
            *final(pool),
            cause,
            ticks,
            outcome,
        ),
{
    proof {
        manager.lemma_wf();
    }
    match cause {
        TrapCause::Syscall => {
            let ghost pre = manager@;
            let caller: usize = manager.current_task();
            let cx = manager.get_current_trap_cx();
            let syscall_id: usize = cx.x[REG_SYSCALL_ID];
            let args: [usize; 3] = [cx.x[REG_A0], cx.x[REG_A1], cx.x[REG_A2]];
            cx.sepc += ECALL_SIZE;
            let ghost advanced = *cx;
            proof {
                manager.lemma_wf();
                assert(args@ =~= seq![
                    pre.current_task().trap_cx.x[REG_A0 as int],
                    pre.current_task().trap_cx.x[REG_A1 as int],
                    pre.current_task().trap_cx.x[REG_A2 as int],
                ]);
                assert(advanced == pre.current_task().trap_cx.past_ecall());
                assert(manager@ == pre.with_trap_cx(caller as int, advanced));
            }
            let ghost entered = manager@.counted(syscall_id as int);
            let ghost pool_pre = *pool;
            let handled = syscall(manager, pool, syscall_id, args, ticks);
            let ghost mid = manager@;
            proof {
                manager.lemma_wf();
                lemma_syscall_keeps_tasks(
                    entered,
                    mid,
                    pool_pre,
                    *pool,
                    syscall_id,
                    args@,
                    ticks,
                    handled,
                    caller as int,
                );
            }
            match handled.result {
                Some(answer) => {
                    let cx = manager.task_trap_cx(caller);
                    cx.x[REG_A0] = answer as usize;
                },
                None => {},
            }
            proof {
                assert(manager@.with_trap_cx(caller as int, advanced) == mid);
                assert(syscall_effect(
                    entered,
                    manager@.with_trap_cx(caller as int, advanced),
                    pool_pre,
                    *pool,
                    syscall_id,
                    args@,
                    ticks,
                    Handled { result: handled.result, action: handled.action },
                ));
            }
            TrapOutcome { timer: None, action: handled.action }
        },
        TrapCause::TimerInterrupt => {
            let deadline: usize = set_next_trigger(ticks);
            let action = suspend_current_and_run_next(manager, get_time_ms(ticks));
            TrapOutcome { timer: Some(deadline), action: Some(action) }
        },
        TrapCause::IllegalInstruction | TrapCause::MemoryFault => {
            let action = exit_current_and_run_next(manager, get_time_ms(ticks));
            TrapOutcome { timer: None, action: Some(action) }
        },
    }
}

/// No system call changes the number of tasks or the user registers of the
/// task that made it.
pub proof fn lemma_syscall_keeps_tasks(
    pre: TaskManagerView,
    post: TaskManagerView,
    pool_pre: FrameAllocator,
    pool_post: FrameAllocator,
    id: usize,
    args: Seq<usize>,
    ticks: usize,
    handled: Handled,
    caller: int,
)
    requires
        pre.wf(),
        caller == pre.current,
        syscall_effect(pre, post, pool_pre, pool_post, id, args, ticks, handled),
    ensures
        post.tasks.len() == pre.tasks.len(),
        post.tasks[caller].trap_cx == pre.tasks[caller].trap_cx,
{
}

} // verus!
