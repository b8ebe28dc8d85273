//! The kernel's record of one task.

use vstd::prelude::*;
use crate::config::MAX_SYSCALL_NUM;
use crate::mm::address::PhysPageNum;
use crate::mm::frame_allocator::{FrameAllocator, MemoryError};
use crate::mm::image::{
    header_entry, header_phnum, image_frames, image_loaded, image_outcome, load_segments,
    stack_span,
};
use crate::mm::memory_set::{MemorySet, MemorySetView};
use crate::task::context::TaskContext;
use crate::trap::context::TrapContext;

verus! {

/// Where a task stands in its life.
#[derive(Clone, Copy, PartialEq, Eq, Structural, Debug)]
pub enum TaskStatus {
    /// The task's record is not filled in.
    UnInit,
    /// The task can run and waits for its turn.
    Ready,
    /// The task runs.
    Running,
    /// The task is over. It never runs again.
    Exited,
}

/// The addresses through which a task enters and leaves the kernel. They are
/// the same for every task.
#[derive(Clone, Copy, Debug)]
pub struct KernelLinks {
    /// The translation-root token of the kernel's address space.
    pub kernel_satp: usize,
    /// The address of the kernel's trap handler.
    pub trap_handler: usize,
    /// The address of the kernel's way back into user mode.
    pub trap_return: usize,
    /// The status register as it reads when the task is made.
    pub sstatus: usize,
}

/// What a task is to the users of its record.
#[verifier::ext_equal]
pub struct TaskView {
    /// Where the task stands in its life.
    pub status: TaskStatus,
    /// How often the task has made each system call, by the call's id.
    pub syscall_times: Seq<u32>,
    /// The time in milliseconds at which the task first ran, once it has.
    pub start_time: Option<usize>,
    /// The task's address space.
    pub memory: MemorySetView,
    /// The task's user-mode registers as of its last trap.
    pub trap_cx: TrapContext,
    /// The task's kernel-side registers as of its last switch.
    pub task_cx: TaskContext,
    /// The address at which the task's heap starts.
    pub heap_bottom: usize,
    /// The address at which the task's heap ends: the program break.
    pub program_brk: usize,
}

impl TaskView {
    /// A record's invariant, as far as its view shows it: one counter per
    /// system call, and a break that lies at or above the start of the heap
    /// and can be told from a failure when returned as a signed number.
    pub open spec fn wf(self) -> bool {
        &&& self.syscall_times.len() == MAX_SYSCALL_NUM
        &&& self.heap_bottom <= self.program_brk <= isize::MAX
    }

    /// The break after a request to move it by `size` bytes: the request is
    /// refused where the break would come to lie below the start of the heap
    /// or beyond the largest signed number.
    pub open spec fn brk_after(self, size: int) -> Option<int> {
        if self.heap_bottom <= self.program_brk + size <= isize::MAX {
            Some(self.program_brk + size)
        } else {
            None
        }
    }

    /// The task with one more call of system call `id` counted. An id outside
    /// the id space is not counted.
    pub open spec fn counted(self, id: int) -> TaskView {
        if 0 <= id < MAX_SYSCALL_NUM {
            TaskView {
                syscall_times: self.syscall_times.update(
                    id,
                    (self.syscall_times[id] + 1) as u32,
                ),
                ..self
            }
        } else {
            self
        }
    }
}

/// What making a task from the program `bytes` answers while `free` frames
/// are free: the refusal of the program's address space, if it is refused;
/// and `InvalidImage` where the program's entry address or the top of its
/// stack is no address that a register can hold as a signed number.
pub open spec fn task_outcome(bytes: Seq<u8>, free: nat) -> Result<(), MemoryError> {
    match image_outcome(bytes, free) {
        Err(e) => Err(e),
        Ok(_) => if header_entry(bytes) > usize::MAX || stack_span(
            load_segments(bytes, header_phnum(bytes)),
        ).end * 4096 > isize::MAX {
            Err(MemoryError::InvalidImage)
        } else {
            Ok(())
        },
    }
}

/// The kernel's record of one task.
pub struct TaskControlBlock {
    task_status: TaskStatus,
    task_cx: TaskContext,
    trap_cx: TrapContext,
    memory_set: MemorySet,
    syscall_times: [u32; MAX_SYSCALL_NUM],
    start_time: Option<usize>,
    heap_bottom: usize,
    program_brk: usize,
}

impl TaskControlBlock {
    /// What the task is to the users of its record.
    pub closed spec fn view(&self) -> TaskView {
        TaskView {
            status: self.task_status,
            syscall_times: self.syscall_times@,
            start_time: self.start_time,
            memory: self.memory_set@,
            trap_cx: self.trap_cx,
            task_cx: self.task_cx,
            heap_bottom: self.heap_bottom,
            program_brk: self.program_brk,
        }
    }

    /// The task's address space.
    pub closed spec fn spec_memory_set(&self) -> MemorySet {
        self.memory_set
    }

    /// The record's invariant: its address space is well formed and its view
    /// is.
    pub closed spec fn wf(&self) -> bool {
        &&& self.memory_set.wf()
        &&& self@.wf()
    }

    /// What the invariant says of the view and of the address space.
    pub proof fn lemma_wf(&self)
        requires
            self.wf(),
        ensures
            self@.wf(),
            self.spec_memory_set().wf(),
            self.spec_memory_set()@ == self@.memory,
    {
    }

    /// The record of a task that is ready to run for the first time in the
    /// address space `memory_set`. Its first switch leads to `trap_return` on
    /// the kernel stack below `kernel_stack_top`; from there it enters user
    /// mode at `entry_point` with the stack pointer `user_sp`. Its heap is
    /// empty and starts at `user_sp`, no system call is counted, and it has
    /// no start time.
    pub fn new(
        memory_set: MemorySet,
        entry_point: usize,
        user_sp: usize,
        kernel_stack_top: usize,
        links: KernelLinks,
    ) -> (task: TaskControlBlock)
        requires
            memory_set.wf(),
            user_sp <= isize::MAX,
        ensures
            task.wf(),
            task.spec_memory_set() == memory_set,
            task@.status == TaskStatus::Ready,
            task@.syscall_times == Seq::new(MAX_SYSCALL_NUM as nat, |i: int| 0u32),
            task@.start_time is None,
            task@.memory == memory_set@,
            task@.heap_bottom == user_sp,
            task@.program_brk == user_sp,
            task@.task_cx.ra == links.trap_return,
            task@.task_cx.sp == kernel_stack_top,
            task@.task_cx.s@ == Seq::new(12, |i: int| 0usize),
            task@.trap_cx.x@ == Seq::new(
                32,
                |i: int| if i == crate::trap::context::REG_SP { user_sp } else { 0usize },
            ),
            task@.trap_cx.sstatus == links.sstatus & !crate::trap::context::SSTATUS_SPP,
            task@.trap_cx.sepc == entry_point,
            task@.trap_cx.kernel_satp == links.kernel_satp,
            task@.trap_cx.kernel_sp == kernel_stack_top,
            task@.trap_cx.trap_handler == links.trap_handler,
    {
        let task = TaskControlBlock {
            task_status: TaskStatus::Ready,
            task_cx: TaskContext::goto_trap_return(links.trap_return, kernel_stack_top),
            trap_cx: TrapContext::app_init_context(
                entry_point,
                user_sp,
                links.kernel_satp,
                kernel_stack_top,
                links.trap_handler,
                links.sstatus,
            ),
            memory_set,
            syscall_times: [0; MAX_SYSCALL_NUM],
            start_time: None,
            heap_bottom: user_sp,
            program_brk: user_sp,
        };
        assert(task@.syscall_times =~= Seq::new(MAX_SYSCALL_NUM as nat, |i: int| 0u32));
        task
    }

    /// The record of a task that is ready to run the program whose file is
    /// `image` for the first time. The program is loaded into an address
    /// space of its own, made of frames of `pool`; the task enters user mode
    /// at the program's entry address, with the stack that lies above the
    /// program. Refused as `task_outcome` says, and then `pool` has the free
    /// frames that it had.
    pub fn from_image(
        pool: &mut FrameAllocator,
        trampoline: PhysPageNum,
        image: &Vec<u8>,
        kernel_stack_top: usize,
        links: KernelLinks,
    ) -> (made: Result<TaskControlBlock, MemoryError>)
        requires
            old(pool).wf(),
            trampoline.wf(),
        ensures
            final(pool).wf(),
            final(pool).spec_start() == old(pool).spec_start(),
            final(pool).spec_end() == old(pool).spec_end(),
            forall|p: int| final(pool).is_free(p) ==> old(pool).is_free(p),
            made is Ok <==> task_outcome(image@, old(pool).free_count()) is Ok,
            made matches Err(e) ==> task_outcome(image@, old(pool).free_count()) == Err::<
                (),
                MemoryError,
            >(e),
            made is Err ==> final(pool).free_count() == old(pool).free_count() && forall|p: int|
                #[trigger] final(pool).is_free(p) == old(pool).is_free(p),
            made matches Ok(task) ==> {
                &&& task.wf()
                &&& image_loaded(task@.memory, image@)
                &&& forall|p: int| #[trigger]
                    task@.memory.owns(p) == (old(pool).is_free(p) && !final(pool).is_free(p))
                &&& task@.memory.exclusive()
                &&& task@.memory.held_in(*final(pool))
                &&& final(pool).free_count() == old(pool).free_count() - image_frames(image@)
                &&& task@.status == TaskStatus::Ready
                &&& task@.syscall_times == Seq::new(MAX_SYSCALL_NUM as nat, |i: int| 0u32)
                &&& task@.start_time is None
                &&& task@.heap_bottom == stack_span(
                    load_segments(image@, header_phnum(image@)),
                ).end * 4096
                &&& task@.program_brk == task@.heap_bottom
                &&& task@.task_cx.ra == links.trap_return
                &&& task@.task_cx.sp == kernel_stack_top
                &&& task@.task_cx.s@ == Seq::new(12, |i: int| 0usize)
                &&& task@.trap_cx.x@ == Seq::new(
                    32,
                    |i: int|
                        if i == crate::trap::context::REG_SP {
                            task@.heap_bottom
                        } else {
                            0usize
                        },
                )
                &&& task@.trap_cx.sstatus == links.sstatus & !crate::trap::context::SSTATUS_SPP
                &&& task@.trap_cx.sepc == header_entry(image@)
                &&& task@.trap_cx.kernel_satp == links.kernel_satp
                &&& task@.trap_cx.kernel_sp == kernel_stack_top
                &&& task@.trap_cx.trap_handler == links.trap_handler
            },
    {
        let (space, user_sp, entry) = match MemorySet::from_image(pool, trampoline, image) {
            Ok(loaded) => loaded,
            Err(e) => {
                return Err(e);
            },
        };
        if entry > usize::MAX as u64 || user_sp > isize::MAX as u64 {
            let ghost taken = *pool;
            space.release(pool);
            proof {
                old(pool).lemma_free_frames();
                assert forall|p: int| #[trigger] pool.is_free(p) == old(pool).is_free(p) by {
                    assert(space@.owns(p) == (old(pool).is_free(p) && !taken.is_free(p)));
                }
                pool.lemma_same_free_frames(old(pool));
            }
            return Err(MemoryError::InvalidImage);
        }
        let task = TaskControlBlock::new(
            space,
            entry as usize,
            user_sp as usize,
            kernel_stack_top,
            links,
        );
        assert(task@.trap_cx.x@ =~= Seq::new(
            32,
            |i: int|
                if i == crate::trap::context::REG_SP {
                    task@.heap_bottom
                } else {
                    0usize
                },
        ));
        Ok(task)
    }

    /// Takes the record apart and gives every frame that the task's address
    /// space owns back to `pool`.
    pub fn release(self, pool: &mut FrameAllocator)
        requires
            self.wf(),
            old(pool).wf(),
        ensures
            final(pool).wf(),
            final(pool).spec_start() == old(pool).spec_start(),
            final(pool).spec_end() == old(pool).spec_end(),
            forall|p: int|
                final(pool).is_free(p) == (old(pool).is_free(p) || (old(pool).manages(p)
                    && #[trigger] self@.memory.owns(p))),
    {
        self.memory_set.release(pool);
    }

    /// Where the task stands in its life.
    pub fn status(&self) -> (status: TaskStatus)
        ensures
            status == self@.status,
    {
        self.task_status
    }

    /// The time in milliseconds at which the task first ran, once it has.
    pub fn start_time(&self) -> (time: Option<usize>)
        ensures
            time == self@.start_time,
    {
        self.start_time
    }

    /// How often the task has made each system call, by the call's id.
    pub fn syscall_times(&self) -> (times: [u32; MAX_SYSCALL_NUM])
        ensures
            times@ == self@.syscall_times,
    {
        self.syscall_times
    }

    /// The address at which the task's heap starts.
    pub fn heap_bottom(&self) -> (addr: usize)
        ensures
            addr == self@.heap_bottom,
    {
        self.heap_bottom
    }

    /// The address at which the task's heap ends.
    pub fn program_brk(&self) -> (addr: usize)
        ensures
            addr == self@.program_brk,
    {
        self.program_brk
    }

    /// The task's kernel-side registers.
    pub fn task_cx(&self) -> (cx: &TaskContext)
        ensures
            *cx == self@.task_cx,
    {
        &self.task_cx
    }

    /// The task's kernel-side registers, for a switch to save into.
    pub fn task_cx_mut(&mut self) -> (cx: &mut TaskContext)
        requires
            old(self).wf(),
        ensures
            *cx == old(self)@.task_cx,
            final(self)@ == (TaskView { task_cx: *final(cx), ..old(self)@ }),
            final(self).wf(),
            final(self).spec_memory_set() == old(self).spec_memory_set(),
    {
        &mut self.task_cx
    }

    /// The task's address space.
    pub fn memory_set(&self) -> (space: &MemorySet)
        ensures
            *space == self.spec_memory_set(),
            space@ == self@.memory,
            self.wf() ==> space.wf(),
    {
        &self.memory_set
    }

    /// The task's address space, to change. The record stays well formed as
    /// long as the address space does.
    pub fn memory_set_mut(&mut self) -> (space: &mut MemorySet)
        requires
            old(self).wf(),
        ensures
            *space == old(self).spec_memory_set(),
            space.wf(),
            space@ == old(self)@.memory,
            final(self).spec_memory_set() == *final(space),
            final(self)@ == (TaskView { memory: final(space)@, ..old(self)@ }),
            final(space).wf() ==> final(self).wf(),
    {
        &mut self.memory_set
    }

    /// Records that the task stands at `status`.
    pub(crate) fn set_status(&mut self, status: TaskStatus)
        requires
            old(self).wf(),
        ensures
            final(self).wf(),
            final(self).spec_memory_set() == old(self).spec_memory_set(),
            final(self)@ == (TaskView { status, ..old(self)@ }),
    {
        self.task_status = status;
    }

    /// Records that the task is given the processor at time `now`: it runs,
    /// and `now` is its start time unless it has one.
    pub(crate) fn set_running(&mut self, now: usize)
        requires
            old(self).wf(),
        ensures
            final(self).wf(),
            final(self).spec_memory_set() == old(self).spec_memory_set(),
            final(self)@ == (TaskView {
                status: TaskStatus::Running,
                start_time: match old(self)@.start_time {
                    Some(t) => Some(t),
                    None => Some(now),
                },
                ..old(self)@
            }),
    {
        self.task_status = TaskStatus::Running;
        if self.start_time.is_none() {
            self.start_time = Some(now);
        }
    }

    /// Counts one more call of system call `id`. An id outside the id space
    /// is not counted.
    pub(crate) fn count_syscall(&mut self, id: usize)
        requires
            old(self).wf(),
            id < MAX_SYSCALL_NUM ==> old(self)@.syscall_times[id as int] < u32::MAX,
        ensures
            final(self).wf(),
            final(self).spec_memory_set() == old(self).spec_memory_set(),
            final(self)@ == old(self)@.counted(id as int),
    {
        if id < MAX_SYSCALL_NUM {
            self.syscall_times[id] += 1;
        }
    }

    /// The value that selects the task's address space in the
    /// address-translation register.
    pub fn get_user_token(&self) -> (token: u64)
        requires
            self.wf(),
        ensures
            token == crate::mm::page_table::SATP_MODE + self@.memory.root,
    {
        self.memory_set.token()
    }

    /// The task's user-mode registers, to read and to change.
    pub fn get_trap_cx(&mut self) -> (cx: &mut TrapContext)
        requires
            old(self).wf(),
        ensures
            *cx == old(self)@.trap_cx,
            final(self)@ == (TaskView { trap_cx: *final(cx), ..old(self)@ }),
            final(self).wf(),
            final(self).spec_memory_set() == old(self).spec_memory_set(),
    {
        &mut self.trap_cx
    }

    /// Moves the program break by `size` bytes and returns the break as it
    /// was. Refused, with nothing returned and the break left where it is,
    /// where the break would come to lie below the start of the heap or
    /// beyond the largest signed number.
    pub fn change_program_brk(&mut self, size: i32) -> (old_brk: Option<usize>)
        requires
            old(self).wf(),
        ensures
            final(self).wf(),
            final(self).spec_memory_set() == old(self).spec_memory_set(),
            old(self)@.brk_after(size as int) matches Some(brk) ==> {
                &&& old_brk == Some(old(self)@.program_brk)
                &&& final(self)@ == (TaskView { program_brk: brk as usize, ..old(self)@ })
            },
            old(self)@.brk_after(size as int) is None ==> {
                &&& old_brk is None
                &&& final(self)@ == old(self)@
            },
    {
        let old_break: usize = self.program_brk;
        let new_brk: i128 = old_break as i128 + size as i128;
        if new_brk < self.heap_bottom as i128 || new_brk > isize::MAX as i128 {
            return None;
        }
        self.program_brk = new_brk as usize;
        Some(old_break)
    }
}

} // verus!
