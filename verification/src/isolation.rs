//! Ownership of frames across the address spaces of the kernel's tasks.
//!
//! Every frame that an address space owns, for a page or for a node of its
//! translation tree, comes from the pool of frames. The address spaces are
//! separate when no frame serves one of them twice, every frame that one of
//! them owns is allocated in the pool, and no frame is owned by two of them:
//! then no task can reach the memory of another, and no frame that a task
//! can reach is handed out again. The steps of the kernel keep the address
//! spaces separate.

use vstd::prelude::*;
use crate::mm::frame_allocator::FrameAllocator;
use crate::mm::memory_set::{frame_in, MemorySetView};
use crate::syscall::process::{
    exit_effect, get_time_effect, mmap_effect, munmap_effect, page_span, sbrk_effect,
    task_info_effect, yield_effect,
};
use crate::syscall::{
    syscall_effect, Handled, SYSCALL_EXIT, SYSCALL_GET_TIME, SYSCALL_MMAP, SYSCALL_MUNMAP,
    SYSCALL_SBRK, SYSCALL_TASK_INFO, SYSCALL_YIELD,
};
use crate::task::{Dispatch, TaskManagerView};
use crate::trap::{trap_effect, TrapCause, TrapOutcome, REG_SYSCALL_ID};

verus! {

/// Whether the address spaces `spaces` are separate, with their frames held
/// in `pool`.
pub open spec fn separate(spaces: Seq<MemorySetView>, pool: FrameAllocator) -> bool {
    &&& forall|i: int|
        0 <= i < spaces.len() ==> (#[trigger] spaces[i]).exclusive() && spaces[i].held_in(pool)
    &&& forall|i: int, j: int, ppn: int|
        0 <= i < j < spaces.len() ==> !(#[trigger] spaces[i].owns(ppn) && #[trigger] spaces[j].owns(
            ppn,
        ))
}

/// The address spaces of the tasks of `manager`, in the order of the tasks.
pub open spec fn memories(manager: TaskManagerView) -> Seq<MemorySetView> {
    Seq::new(manager.tasks.len(), |i: int| manager.tasks[i].memory)
}

/// Whether the address spaces of the tasks of `manager` are separate, with
/// their frames held in `pool`.
pub open spec fn isolated(manager: TaskManagerView, pool: FrameAllocator) -> bool {
    separate(memories(manager), pool)
}

/// An address space that is made from frames of the pool is separate from
/// those that were there: it owns what the pool has handed out for it, and
/// they own what was handed out before.
pub proof fn lemma_new_space_is_separate(
    spaces: Seq<MemorySetView>,
    pool_pre: FrameAllocator,
    pool_post: FrameAllocator,
    space: MemorySetView,
)
    requires
        separate(spaces, pool_pre),
        pool_post.spec_start() == pool_pre.spec_start(),
        pool_post.spec_end() == pool_pre.spec_end(),
        forall|p: int| pool_post.is_free(p) ==> pool_pre.is_free(p),
        forall|p: int| #[trigger] space.owns(p) == (pool_pre.is_free(p) && !pool_post.is_free(p)),
        space.exclusive(),
        space.held_in(pool_post),
    ensures
        separate(spaces.push(space), pool_post),
{
    let all = spaces.push(space);
    assert forall|i: int| 0 <= i < all.len() implies (#[trigger] all[i]).exclusive()
        && all[i].held_in(pool_post) by {
        if i < spaces.len() {
            assert(all[i] == spaces[i]);
            assert(spaces[i].held_in(pool_pre));
            assert forall|p: int| #[trigger] spaces[i].owns(p) implies pool_post.is_allocated(
                p,
            ) by {
                assert(pool_pre.is_allocated(p));
            }
        }
    }
    assert forall|i: int, j: int, ppn: int| 0 <= i < j < all.len() implies !(
    #[trigger] all[i].owns(ppn) && #[trigger] all[j].owns(ppn)) by {
        assert(all[i] == spaces[i]);
        if j < spaces.len() {
            assert(all[j] == spaces[j]);
            assert(!(spaces[i].owns(ppn) && spaces[j].owns(ppn)));
        } else if spaces[i].owns(ppn) {
            assert(spaces[i].held_in(pool_pre));
            assert(pool_pre.is_allocated(ppn));
        }
    }
}

/// A step that leaves every address space and the pool as they are keeps
/// the address spaces separate.
pub proof fn lemma_same_memories(pre: TaskManagerView, post: TaskManagerView, pool: FrameAllocator)
    requires
        isolated(pre, pool),
        post.tasks.len() == pre.tasks.len(),
        forall|i: int|
            0 <= i < pre.tasks.len() ==> (#[trigger] post.tasks[i]).memory == pre.tasks[i].memory,
    ensures
        isolated(post, pool),
{
    assert(memories(post) =~= memories(pre));
}

/// A step that changes one address space keeps the address spaces separate
/// as long as the changed one owns no frame of another, serves no frame
/// twice, and holds its frames in the pool, and the pool has taken no frame
/// of another back.
proof fn lemma_one_memory_changed(
    pre: TaskManagerView,
    post: TaskManagerView,
    pool_pre: FrameAllocator,
    pool_post: FrameAllocator,
    changed: int,
)
    requires
        isolated(pre, pool_pre),
        0 <= changed < pre.tasks.len(),
        post.tasks.len() == pre.tasks.len(),
        forall|i: int|
            0 <= i < pre.tasks.len() && i != changed ==> (#[trigger] post.tasks[i]).memory
                == pre.tasks[i].memory,
        post.tasks[changed].memory.exclusive(),
        post.tasks[changed].memory.held_in(pool_post),
        pool_post.spec_start() == pool_pre.spec_start(),
        pool_post.spec_end() == pool_pre.spec_end(),
        forall|p: int|
            #[trigger] post.tasks[changed].memory.owns(p) ==> pre.tasks[changed].memory.owns(p)
                || pool_pre.is_free(p),
        forall|p: int|
            #[trigger] pool_post.is_free(p) ==> pool_pre.is_free(p)
                || pre.tasks[changed].memory.owns(p),
    ensures
        isolated(post, pool_post),
{
    let was = memories(pre);
    let now = memories(post);
    assert forall|i: int| 0 <= i < now.len() implies (#[trigger] now[i]).exclusive()
        && now[i].held_in(pool_post) by {
        if i != changed {
            assert(now[i] == was[i]);
            assert(was[i].exclusive() && was[i].held_in(pool_pre));
            assert forall|p: int| #[trigger] was[i].owns(p) implies pool_post.is_allocated(p) by {
                assert(pool_pre.is_allocated(p));
                if pool_post.is_free(p) {
                    assert(was[changed].owns(p));
                    if i < changed {
                        assert(!(was[i].owns(p) && was[changed].owns(p)));
                    } else {
                        assert(!(was[changed].owns(p) && was[i].owns(p)));
                    }
                }
            }
        }
    }
    assert forall|i: int, j: int, ppn: int| 0 <= i < j < now.len() implies !(
    #[trigger] now[i].owns(ppn) && #[trigger] now[j].owns(ppn)) by {
        if now[i].owns(ppn) && now[j].owns(ppn) {
            assert(!(was[i].owns(ppn) && was[j].owns(ppn)));
            if i == changed {
                assert(now[j] == was[j]);
                assert(was[j].held_in(pool_pre));
                assert(pool_pre.is_allocated(ppn));
            } else if j == changed {
                assert(now[i] == was[i]);
                assert(was[i].held_in(pool_pre));
                assert(pool_pre.is_allocated(ppn));
            } else {
                assert(now[i] == was[i] && now[j] == was[j]);
            }
        }
    }
}

/// A request to map keeps the address spaces separate.
pub proof fn lemma_mmap_keeps_isolation(
    pre: TaskManagerView,
    post: TaskManagerView,
    pool_pre: FrameAllocator,
    pool_post: FrameAllocator,
    start: usize,
    len: usize,
    port: usize,
    answer: isize,
)
    requires
        0 <= pre.current < pre.tasks.len(),
        isolated(pre, pool_pre),
        mmap_effect(pre, post, pool_pre, pool_post, start, len, port, answer),
    ensures
        isolated(post, pool_post),
{
    if answer == 0 {
        assert(memories(pre)[pre.current].exclusive() && memories(pre)[pre.current].held_in(
            pool_pre,
        ));
        lemma_one_memory_changed(pre, post, pool_pre, pool_post, pre.current);
    }
}

/// A request to unmap keeps the address spaces separate.
pub proof fn lemma_munmap_keeps_isolation(
    pre: TaskManagerView,
    post: TaskManagerView,
    pool_pre: FrameAllocator,
    pool_post: FrameAllocator,
    start: usize,
    len: usize,
    answer: isize,
)
    requires
        0 <= pre.current < pre.tasks.len(),
        isolated(pre, pool_pre),
        munmap_effect(pre, post, pool_pre, pool_post, start, len, answer),
    ensures
        isolated(post, pool_post),
{
    if answer == 0 {
        let space = pre.current_task().memory;
        let span = page_span(start, len).unwrap();
        assert(memories(pre)[pre.current].exclusive() && memories(pre)[pre.current].held_in(
            pool_pre,
        ));
        assert forall|p: int| #[trigger] pool_post.is_free(p) implies pool_pre.is_free(p)
            || space.owns(p) by {
            if frame_in(space.mappings, span.first, span.end, p) {
                let vpn = choose|vpn: int|
                    span.first <= vpn < span.end && space.mappings.contains_key(vpn) && (
                    #[trigger] space.mappings[vpn]).spec_ppn() == p;
                assert(space.frames.contains_key(vpn));
            }
        }
        lemma_one_memory_changed(pre, post, pool_pre, pool_post, pre.current);
    }
}

/// Bytes that are stored in the memory of the current task keep the address
/// spaces separate.
pub proof fn lemma_store_keeps_isolation(
    pre: TaskManagerView,
    pool: FrameAllocator,
    ptr: usize,
    bytes: Seq<u8>,
)
    requires
        0 <= pre.current < pre.tasks.len(),
        isolated(pre, pool),
    ensures
        isolated(pre.stored(ptr, bytes), pool),
{
    let post = pre.stored(ptr, bytes);
    let space = pre.current_task().memory;
    space.lemma_with_bytes_owns(ptr as int % 0x80_0000_0000, bytes);
    assert(memories(pre)[pre.current].exclusive() && memories(pre)[pre.current].held_in(pool));
    assert forall|p: int| #[trigger] post.tasks[pre.current].memory.owns(p) implies pool.is_allocated(
        p,
    ) by {
        assert(space.owns(p));
    }
    lemma_one_memory_changed(pre, post, pool, pool, pre.current);
}

/// What a scheduling decision does to the tasks keeps the address spaces
/// separate.
pub proof fn lemma_dispatch_keeps_isolation(
    pre: TaskManagerView,
    post: TaskManagerView,
    pool: FrameAllocator,
    action: Dispatch,
    now: usize,
)
    requires
        pre.wf(),
        isolated(pre, pool),
        exit_effect(pre, post, action, now) || yield_effect(pre, post, action, now),
    ensures
        isolated(post, pool),
{
    lemma_same_memories(pre, post, pool);
}

/// A system call keeps the address spaces separate.
pub proof fn lemma_syscall_keeps_isolation(
    pre: TaskManagerView,
    post: TaskManagerView,
    pool_pre: FrameAllocator,
    pool_post: FrameAllocator,
    id: usize,
    args: Seq<usize>,
    ticks: usize,
    handled: Handled,
)
    requires
        pre.wf(),
        isolated(pre, pool_pre),
        syscall_effect(pre, post, pool_pre, pool_post, id, args, ticks, handled),
    ensures
        isolated(post, pool_post),
{
    let ms = crate::timer::ticks_to_ms(ticks as int) as usize;
    let us = crate::timer::ticks_to_us(ticks as int) as usize;
    if id == SYSCALL_EXIT || id == SYSCALL_YIELD {
        lemma_dispatch_keeps_isolation(pre, post, pool_pre, handled.action.unwrap(), ms);
    } else if id == SYSCALL_GET_TIME {
        if handled.result == Some(0isize) {
            lemma_store_keeps_isolation(
                pre,
                pool_pre,
                args[0],
                crate::syscall::process::TimeVal::spec_from_us(us).spec_bytes(),
            );
        }
    } else if id == SYSCALL_TASK_INFO {
        if handled.result == Some(0isize) {
            lemma_store_keeps_isolation(
                pre,
                pool_pre,
                args[0],
                crate::syscall::process::TaskInfo::layout(
                    pre.current_task().status,
                    pre.current_task().syscall_times,
                    (ms - pre.current_task().start_time.unwrap()) as usize,
                ),
            );
        }
    } else if id == SYSCALL_MMAP {
        lemma_mmap_keeps_isolation(
            pre,
            post,
            pool_pre,
            pool_post,
            args[0],
            args[1],
            args[2],
            handled.result.unwrap(),
        );
    } else if id == SYSCALL_MUNMAP {
        lemma_munmap_keeps_isolation(
            pre,
            post,
            pool_pre,
            pool_post,
            args[0],
            args[1],
            handled.result.unwrap(),
        );
    } else if id == SYSCALL_SBRK {
        lemma_same_memories(pre, post, pool_pre);
    }
}

/// A trap keeps the address spaces separate, whatever its cause.
pub proof fn lemma_trap_keeps_isolation(
    pre: TaskManagerView,
    post: TaskManagerView,
    pool_pre: FrameAllocator,
    pool_post: FrameAllocator,
    cause: TrapCause,
    ticks: usize,
    outcome: TrapOutcome,
)
    requires
        pre.wf(),
        isolated(pre, pool_pre),
        trap_effect(pre, post, pool_pre, pool_post, cause, ticks, outcome),
    ensures
        isolated(post, pool_post),
{
    let ms = crate::timer::ticks_to_ms(ticks as int) as usize;
    match cause {
        TrapCause::Syscall => {
            let caller = pre.current;
            let cx = pre.current_task().trap_cx;
            let id = cx.x[REG_SYSCALL_ID as int];
            let args = seq![
                cx.x[crate::trap::REG_A0 as int],
                cx.x[crate::trap::REG_A1 as int],
                cx.x[crate::trap::REG_A2 as int],
            ];
            let entered = pre.with_trap_cx(caller, cx.past_ecall()).counted(id as int);
            let result = choose|result: Option<isize>| #[trigger]
                syscall_effect(
                    entered,
                    post.with_trap_cx(caller, cx.past_ecall()),
                    pool_pre,
                    pool_post,
                    id,
                    args,
                    ticks,
                    Handled { result, action: outcome.action },
                ) && (match result {
                    Some(answer) => post.tasks[caller].trap_cx.holds_result(
                        cx.past_ecall(),
                        answer as usize,
                    ),
                    None => post.tasks[caller].trap_cx == cx.past_ecall(),
                });
            let handled = Handled { result, action: outcome.action };
            let mid = post.with_trap_cx(caller, cx.past_ecall());
            assert(pre.current_task().wf());
            lemma_same_memories(pre, entered, pool_pre);
            assert(entered.wf()) by {
                assert forall|i: int| 0 <= i < entered.tasks.len() implies (
                #[trigger] entered.tasks[i]).wf() by {
                    assert(pre.tasks[i].wf());
                }
            }
            lemma_syscall_keeps_isolation(
                entered,
                mid,
                pool_pre,
                pool_post,
                id,
                args,
                ticks,
                handled,
            );
            crate::trap::lemma_syscall_keeps_tasks(
                entered,
                mid,
                pool_pre,
                pool_post,
                id,
                args,
                ticks,
                handled,
                caller,
            );
            assert(mid.tasks.len() == post.tasks.len());
            assert forall|i: int| 0 <= i < mid.tasks.len() implies (#[trigger] post.tasks[i]).memory
                == mid.tasks[i].memory by {}
            lemma_same_memories(mid, post, pool_post);
        },
        TrapCause::TimerInterrupt => {
            lemma_dispatch_keeps_isolation(pre, post, pool_pre, outcome.action.unwrap(), ms);
        },
        TrapCause::IllegalInstruction | TrapCause::MemoryFault => {
            lemma_dispatch_keeps_isolation(pre, post, pool_pre, outcome.action.unwrap(), ms);
        },
    }
}

} // verus!
