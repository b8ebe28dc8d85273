//! Tasks and their scheduling.
//!
//! The task manager holds the records of all tasks and the index of the
//! current one. Tasks take turns in a fixed cyclic order: after the current
//! task comes the nearest ready task behind it, and the first task comes
//! after the last. The manager decides and keeps the books; the switch of the
//! processor from one task's registers to another's is left to the caller,
//! whom each decision tells what to do.

pub mod context;
pub mod tcb;

use vstd::prelude::*;
use crate::config::{
    kernel_stack_position, KERNEL_STACK_SIZE, KERNEL_STACK_STRIDE, MAX_SYSCALL_NUM, TRAMPOLINE,
};
use crate::mm::address::PhysPageNum;
use crate::mm::frame_allocator::{FrameAllocator, MemoryError};
use crate::mm::image::{header_entry, image_frames, image_loaded};
use crate::mm::memory_set::{MemorySet, MemorySetView};
use crate::task::tcb::{task_outcome, KernelLinks};
use crate::mm::page_table::SATP_MODE;
use crate::sync::UPSafeCell;
use crate::task::context::TaskContext;
use crate::task::tcb::{TaskControlBlock, TaskStatus, TaskView};
use crate::trap::context::TrapContext;

verus! {

/// What the processor is to do after a scheduling decision.
#[derive(Clone, Copy, PartialEq, Eq, Structural, Debug)]
pub enum Dispatch {
    /// Load the registers of task `to`. Nothing is to be saved: no task ran
    /// before.
    First { to: usize },
    /// Save the registers of task `from` and load those of task `to`.
    Switch { from: usize, to: usize },
    /// Halt: no task is ready, and none will ever be.
    Halt,
}

/// What the task manager is to its users.
#[verifier::ext_equal]
pub struct TaskManagerView {
    /// The tasks in their fixed order.
    pub tasks: Seq<TaskView>,
    /// The index of the current task.
    pub current: int,
}

impl TaskManagerView {
    /// The manager's invariant: there is a task, the current index names one,
    /// no task but the current one runs, and a task that runs or is over has
    /// its start time.
    pub open spec fn wf(self) -> bool {
        &&& 0 <= self.current < self.tasks.len()
        &&& forall|i: int| 0 <= i < self.tasks.len() ==> (#[trigger] self.tasks[i]).wf()
        &&& forall|i: int|
            0 <= i < self.tasks.len() && (#[trigger] self.tasks[i]).status == TaskStatus::Running
                ==> i == self.current
        &&& forall|i: int|
            0 <= i < self.tasks.len() && ((#[trigger] self.tasks[i]).status == TaskStatus::Running
                || self.tasks[i].status == TaskStatus::Exited) ==> self.tasks[i].start_time is Some
    }

    /// The current task.
    pub open spec fn current_task(self) -> TaskView {
        self.tasks[self.current]
    }

    /// Whether the current task runs.
    pub open spec fn running(self) -> bool {
        self.current_task().status == TaskStatus::Running
    }

    /// Whether no task has run yet: every task is ready and has no start
    /// time, and the first task is the current one.
    pub open spec fn fresh(self) -> bool {
        &&& self.current == 0
        &&& forall|i: int|
            0 <= i < self.tasks.len() ==> (#[trigger] self.tasks[i]).status == TaskStatus::Ready
                && self.tasks[i].start_time is None
    }

    /// Whether task `id` is ready.
    pub open spec fn ready(self, id: int) -> bool {
        0 <= id < self.tasks.len() && self.tasks[id].status == TaskStatus::Ready
    }

    /// Whether no task is ready.
    pub open spec fn no_ready(self) -> bool {
        forall|id: int| !self.ready(id)
    }

    /// How many turns after the current task the turn of task `id` comes:
    /// from one for the task behind the current one to the number of tasks
    /// for the current task itself.
    pub open spec fn turns_until(self, id: int) -> int {
        if id > self.current {
            id - self.current
        } else {
            id - self.current + self.tasks.len()
        }
    }

    /// Whether task `id` is the one to run next: it is ready, and no ready
    /// task's turn comes sooner.
    pub open spec fn is_next(self, id: int) -> bool {
        &&& self.ready(id)
        &&& forall|other: int| self.ready(other) ==> self.turns_until(id) <= self.turns_until(other)
    }

    /// The manager with task `id` changed to `task`.
    pub open spec fn with_task(self, id: int, task: TaskView) -> TaskManagerView {
        TaskManagerView { tasks: self.tasks.update(id, task), current: self.current }
    }

    /// The manager after the current task gave up the processor: the task is
    /// ready again.
    pub open spec fn suspended(self) -> TaskManagerView {
        self.with_task(
            self.current,
            TaskView { status: TaskStatus::Ready, ..self.current_task() },
        )
    }

    /// The manager after the current task ended: the task is over.
    pub open spec fn exited(self) -> TaskManagerView {
        self.with_task(
            self.current,
            TaskView { status: TaskStatus::Exited, ..self.current_task() },
        )
    }

    /// The manager after task `id` was given the processor at time `now`:
    /// the task runs and is the current one, and `now` is its start time
    /// unless it has one.
    pub open spec fn dispatched(self, id: int, now: usize) -> TaskManagerView {
        TaskManagerView {
            tasks: self.tasks.update(
                id,
                TaskView {
                    status: TaskStatus::Running,
                    start_time: match self.tasks[id].start_time {
                        Some(t) => Some(t),
                        None => Some(now),
                    },
                    ..self.tasks[id]
                },
            ),
            current: id,
        }
    }

    /// The manager after one more call of system call `id` by the current
    /// task was counted.
    pub open spec fn counted(self, id: int) -> TaskManagerView {
        self.with_task(self.current, self.current_task().counted(id))
    }
}

/// At most one task runs at a time.
pub proof fn lemma_at_most_one_running(manager: TaskManagerView, i: int, j: int)
    requires
        manager.wf(),
        0 <= i < manager.tasks.len(),
        0 <= j < manager.tasks.len(),
        manager.tasks[i].status == TaskStatus::Running,
        manager.tasks[j].status == TaskStatus::Running,
    ensures
        i == j,
{
}

/// Between two switches exactly one task runs: when the current task has
/// given up the processor or has ended, no task runs, and when the processor
/// is given to a task then, that task runs and no other. The manager's
/// invariant holds all the while.
pub proof fn lemma_exactly_one_runs(manager: TaskManagerView, to: int, now: usize)
    requires
        manager.wf(),
        manager.running(),
        0 <= to < manager.tasks.len(),
    ensures
        manager.suspended().wf(),
        manager.exited().wf(),
        forall|i: int|
            0 <= i < manager.tasks.len() ==> (#[trigger] manager.suspended().tasks[i]).status
                != TaskStatus::Running && (#[trigger] manager.exited().tasks[i]).status
                != TaskStatus::Running,
        manager.suspended().dispatched(to, now).wf(),
        manager.exited().dispatched(to, now).wf(),
        forall|i: int|
            0 <= i < manager.tasks.len() ==> ((#[trigger] manager.suspended().dispatched(
                to,
                now,
            ).tasks[i]).status == TaskStatus::Running <==> i == to),
        forall|i: int|
            0 <= i < manager.tasks.len() ==> ((#[trigger] manager.exited().dispatched(
                to,
                now,
            ).tasks[i]).status == TaskStatus::Running <==> i == to),
{
    assert forall|i: int| 0 <= i < manager.tasks.len() implies (
    #[trigger] manager.suspended().tasks[i]).wf() && (#[trigger] manager.exited().tasks[i]).wf() by {
        assert(manager.tasks[i].wf());
    }
    assert forall|i: int| 0 <= i < manager.tasks.len() implies (
    #[trigger] manager.suspended().dispatched(to, now).tasks[i]).wf() && (
    #[trigger] manager.exited().dispatched(to, now).tasks[i]).wf() by {
        assert(manager.tasks[i].wf());
    }
}

/// The task to run next is determined: no two tasks are both the next one.
pub proof fn lemma_next_is_unique(manager: TaskManagerView, a: int, b: int)
    requires
        manager.wf(),
        manager.is_next(a),
        manager.is_next(b),
    ensures
        a == b,
{
    assert(manager.turns_until(a) <= manager.turns_until(b));
    assert(manager.turns_until(b) <= manager.turns_until(a));
}

/// The turns go round in a circle: the next task is the nearest ready task
/// behind the current one, or else the nearest ready task from the first
/// task on, up to and including the current one. Tasks that are not ready
/// are passed over.
pub proof fn lemma_round_robin(manager: TaskManagerView, next: int)
    requires
        manager.wf(),
        manager.is_next(next),
    ensures
        manager.ready(next),
        next > manager.current ==> forall|id: int|
            manager.current < id < next ==> !manager.ready(id),
        next <= manager.current ==> forall|id: int|
            (manager.current < id < manager.tasks.len() || 0 <= id < next) ==> !manager.ready(id),
{
    assert forall|id: int|
        (if next > manager.current {
            manager.current < id < next
        } else {
            manager.current < id < manager.tasks.len() || 0 <= id < next
        }) implies !manager.ready(id) by {
        if manager.ready(id) {
            assert(manager.turns_until(next) <= manager.turns_until(id));
        }
    }
}

/// A task is given the processor twice in a row only where no other task is
/// ready.
pub proof fn lemma_no_repeat_while_others_wait(manager: TaskManagerView, other: int)
    requires
        manager.wf(),
        manager.is_next(manager.current),
        other != manager.current,
    ensures
        !manager.ready(other),
{
    if manager.ready(other) {
        assert(manager.turns_until(manager.current) <= manager.turns_until(other));
    }
}

/// A start time, once set, stays: none of the manager's steps changes the
/// start time of a task that has one, and only the step that gives a task the
/// processor sets one, for that task alone.
pub proof fn lemma_start_time_set_once(manager: TaskManagerView, id: int, now: usize, call: int)
    requires
        manager.wf(),
        0 <= id < manager.tasks.len(),
    ensures
        forall|i: int|
            0 <= i < manager.tasks.len() ==> {
                &&& (#[trigger] manager.suspended().tasks[i]).start_time
                    == manager.tasks[i].start_time
                &&& (#[trigger] manager.exited().tasks[i]).start_time
                    == manager.tasks[i].start_time
                &&& (#[trigger] manager.counted(call).tasks[i]).start_time
                    == manager.tasks[i].start_time
                &&& i != id ==> (#[trigger] manager.dispatched(id, now).tasks[i]).start_time
                    == manager.tasks[i].start_time
            },
        manager.tasks[id].start_time is Some ==> manager.dispatched(id, now).tasks[id].start_time
            == manager.tasks[id].start_time,
        manager.tasks[id].start_time is None ==> manager.dispatched(id, now).tasks[id].start_time
            == Some(now),
{
}

/// Counting system calls: after `n` calls of system call `id` by the current
/// task its counter for `id` has grown by `n`, and every other counter, its
/// own and those of the other tasks, is as it was.
pub open spec fn counted_times(manager: TaskManagerView, id: int, n: nat) -> TaskManagerView
    decreases n,
{
    if n == 0 {
        manager
    } else {
        counted_times(manager, id, (n - 1) as nat).counted(id)
    }
}

/// After `n` calls of system call `id` by the current task, the counter for
/// `id` has grown by `n` and nothing else has changed, as long as the counter
/// does not exceed its 32 bits.
pub proof fn lemma_counted_times(manager: TaskManagerView, id: int, n: nat)
    requires
        manager.wf(),
        0 <= id < MAX_SYSCALL_NUM,
        manager.current_task().syscall_times[id] + n <= u32::MAX,
    ensures
        counted_times(manager, id, n).current == manager.current,
        counted_times(manager, id, n).tasks.len() == manager.tasks.len(),
        counted_times(manager, id, n).wf(),
        counted_times(manager, id, n).current_task().syscall_times[id]
            == manager.current_task().syscall_times[id] + n,
        counted_times(manager, id, n).current_task().syscall_times.len() == MAX_SYSCALL_NUM,
        forall|other: int|
            0 <= other < MAX_SYSCALL_NUM && other != id ==> counted_times(
                manager,
                id,
                n,
            ).current_task().syscall_times[other] == manager.current_task().syscall_times[other],
        forall|i: int|
            0 <= i < manager.tasks.len() && i != manager.current ==> counted_times(
                manager,
                id,
                n,
            ).tasks[i] == manager.tasks[i],
        counted_times(manager, id, n).current_task() == (TaskView {
            syscall_times: counted_times(manager, id, n).current_task().syscall_times,
            ..manager.current_task()
        }),
    decreases n,
{
    if n > 0 {
        lemma_counted_times(manager, id, (n - 1) as nat);
        let before = counted_times(manager, id, (n - 1) as nat);
        assert(before.tasks[before.current].wf());
    }
}

/// Why the tasks of the kernel cannot be made.
#[derive(Clone, Copy, PartialEq, Eq, Structural, Debug)]
pub enum LoadError {
    /// There is no program to run.
    NoTask,
    /// The task for program `app_id` cannot be made.
    Task { app_id: usize, error: MemoryError },
}

/// What making the tasks for the programs `images[k ..]` answers while `free`
/// frames are free: nothing where every task is made, or the refusal of the
/// first task that is refused, because the kernel's address space has no
/// room for its stack or because its program cannot be loaded.
pub open spec fn load_outcome(images: Seq<Seq<u8>>, free: nat, k: int) -> Option<LoadError>
    decreases images.len() - k,
{
    if k < 0 || k >= images.len() {
        None
    } else if k * KERNEL_STACK_STRIDE + KERNEL_STACK_SIZE > TRAMPOLINE {
        Some(LoadError::Task { app_id: k as usize, error: MemoryError::InvalidRange })
    } else {
        match task_outcome(images[k], free) {
            Err(error) => Some(LoadError::Task { app_id: k as usize, error }),
            Ok(_) => load_outcome(images, (free - image_frames(images[k])) as nat, k + 1),
        }
    }
}

/// The number of frames that the tasks for the first `n` of the programs
/// `images` take.
pub open spec fn tasks_frames(images: Seq<Seq<u8>>, n: int) -> nat
    decreases n,
{
    if n <= 0 {
        0
    } else {
        tasks_frames(images, n - 1) + image_frames(images[n - 1])
    }
}

/// The state that the task manager guards.
pub struct TaskManagerInner {
    tasks: Vec<TaskControlBlock>,
    current_task: usize,
}

/// The task manager.
pub struct TaskManager {
    num_app: usize,
    inner: UPSafeCell<TaskManagerInner>,
}

impl TaskManager {
    /// What the manager is to its users.
    pub closed spec fn view(&self) -> TaskManagerView {
        TaskManagerView {
            tasks: Seq::new(self.inner@.tasks@.len(), |i: int| self.inner@.tasks@[i]@),
            current: self.inner@.current_task as int,
        }
    }

    /// The record of task `id`.
    pub closed spec fn spec_task(&self, id: int) -> TaskControlBlock {
        self.inner@.tasks@[id]
    }

    /// The manager's invariant: every record is well formed, and the view is.
    pub closed spec fn wf(&self) -> bool {
        &&& self.num_app == self.inner@.tasks@.len()
        &&& forall|i: int|
            0 <= i < self.inner@.tasks@.len() ==> (#[trigger] self.inner@.tasks@[i]).wf()
        &&& self@.wf()
    }

    /// What the invariant says of the view and of the records.
    pub proof fn lemma_wf(&self)
        requires
            self.wf(),
        ensures
            self@.wf(),
            forall|i: int|
                0 <= i < self@.tasks.len() ==> (#[trigger] self.spec_task(i)).wf()
                    && self.spec_task(i)@ == self@.tasks[i],
    {
    }

    /// A manager of `tasks`, in their order, with the first task as the
    /// current one. Refused, with nothing returned, where there is no task or
    /// where a task has run before: it is not ready, or it has a start time.
    pub fn new(tasks: Vec<TaskControlBlock>) -> (made: Option<TaskManager>)
        requires
            forall|i: int| 0 <= i < tasks@.len() ==> (#[trigger] tasks@[i]).wf(),
        ensures
            made is Some <==> tasks@.len() > 0 && forall|i: int|
                0 <= i < tasks@.len() ==> (#[trigger] tasks@[i])@.status == TaskStatus::Ready
                    && tasks@[i]@.start_time is None,
            made matches Some(manager) ==> {
                &&& manager.wf()
                &&& manager@.fresh()
                &&& manager@.tasks.len() == tasks@.len()
                &&& forall|i: int| 0 <= i < tasks@.len() ==> manager.spec_task(i) == tasks@[i]
                &&& forall|i: int| 0 <= i < tasks@.len() ==> manager@.tasks[i] == tasks@[i]@
            },
    {
        if tasks.len() == 0 {
            return None;
        }
        let mut i: usize = 0;
        while i < tasks.len()
            invariant
                i <= tasks@.len(),
                forall|k: int|
                    0 <= k < i ==> (#[trigger] tasks@[k])@.status == TaskStatus::Ready
                        && tasks@[k]@.start_time is None,
            decreases tasks@.len() - i,
        {
            if tasks[i].status() != TaskStatus::Ready || tasks[i].start_time().is_some() {
                return None;
            }
            i += 1;
        }
        let num_app: usize = tasks.len();
        let manager = TaskManager {
            num_app,
            inner: UPSafeCell::new(TaskManagerInner { tasks, current_task: 0 }),
        };
        proof {
            assert forall|i: int| 0 <= i < tasks@.len() implies (#[trigger] manager@.tasks[i]).wf() by {
                tasks@[i].lemma_wf();
            }
        }
        Some(manager)
    }

    /// Makes the tasks of the kernel: one for each of the programs `images`,
    /// in their order, each in an address space of its own that is made of
    /// frames of `pool`, and each with its kernel stack at the place of its
    /// number. No task has run, and the first is the current one. The
    /// address spaces are separate.
    ///
    /// Refused where there is no program, and as `load_outcome` says; `pool`
    /// then has the free frames that it had.
    pub fn load(
        pool: &mut FrameAllocator,
        trampoline: PhysPageNum,
        images: &Vec<Vec<u8>>,
        links: KernelLinks,
    ) -> (made: Result<TaskManager, LoadError>)
        requires
            old(pool).wf(),
            trampoline.wf(),
        ensures
            final(pool).wf(),
            final(pool).spec_start() == old(pool).spec_start(),
            final(pool).spec_end() == old(pool).spec_end(),
            images@.len() == 0 ==> made == Err::<TaskManager, LoadError>(LoadError::NoTask),
            images@.len() > 0 ==> match made {
                Ok(_) => load_outcome(images.deep_view(), old(pool).free_count(), 0) is None,
                Err(e) => load_outcome(images.deep_view(), old(pool).free_count(), 0)
                    == Some(e),
            },
            made is Err ==> final(pool).free_count() == old(pool).free_count() && forall|p: int|
                #[trigger] final(pool).is_free(p) == old(pool).is_free(p),
            made matches Ok(manager) ==> {
                &&& manager.wf()
                &&& manager@.fresh()
                &&& manager@.tasks.len() == images@.len()
                &&& crate::isolation::isolated(manager@, *final(pool))
                &&& final(pool).free_count() == old(pool).free_count() - tasks_frames(
                    images.deep_view(),
                    images@.len() as int,
                )
                &&& forall|i: int|
                    0 <= i < images@.len() ==> {
                        &&& image_loaded((#[trigger] manager@.tasks[i]).memory, images@[i]@)
                        &&& manager@.tasks[i].trap_cx.sepc == header_entry(images@[i]@)
                        &&& manager@.tasks[i].trap_cx.x@[crate::trap::context::REG_SP as int]
                            == manager@.tasks[i].heap_bottom
                        &&& manager@.tasks[i].program_brk == manager@.tasks[i].heap_bottom
                        &&& manager@.tasks[i].task_cx.ra == links.trap_return
                        &&& manager@.tasks[i].task_cx.sp == TRAMPOLINE - i * KERNEL_STACK_STRIDE
                        &&& manager@.tasks[i].trap_cx.kernel_sp == TRAMPOLINE - i
                            * KERNEL_STACK_STRIDE
                        &&& manager@.tasks[i].trap_cx.kernel_satp == links.kernel_satp
                        &&& manager@.tasks[i].trap_cx.trap_handler == links.trap_handler
                    }
            },
    {
        if images.len() == 0 {
            return Err(LoadError::NoTask);
        }
        let ghost programs = images.deep_view();
        let ghost goal = load_outcome(programs, old(pool).free_count(), 0);
        proof {
            assert(programs.len() == images@.len());
            assert forall|i: int| 0 <= i < images@.len() implies #[trigger] programs[i]
                == images@[i]@ by {}
        }
        let mut tasks: Vec<TaskControlBlock> = Vec::new();
        let mut refused: Option<LoadError> = None;
        let mut app_id: usize = 0;
        while app_id < images.len() && refused.is_none()
            invariant
                app_id <= images@.len(),
                programs == images.deep_view(),
                programs.len() == images@.len(),
                forall|i: int| 0 <= i < images@.len() ==> #[trigger] programs[i] == images@[i]@,
                trampoline.wf(),
                old(pool).wf(),
                pool.wf(),
                pool.spec_start() == old(pool).spec_start(),
                pool.spec_end() == old(pool).spec_end(),
                goal == load_outcome(programs, old(pool).free_count(), 0),
                refused matches Some(e) ==> goal == Some(e) && tasks@.len() == app_id,
                refused is None ==> {
                    &&& tasks@.len() == app_id
                    &&& goal == load_outcome(programs, pool.free_count(), app_id as int)
                },
                pool.free_count() == old(pool).free_count() - tasks_frames(
                    programs,
                    tasks@.len() as int,
                ),
                forall|p: int| pool.is_free(p) ==> old(pool).is_free(p),
                forall|p: int|
                    (old(pool).is_free(p) && !#[trigger] pool.is_free(p)) == exists|i: int|
                        0 <= i < tasks@.len() && (#[trigger] tasks@[i])@.memory.owns(p),
                crate::isolation::separate(
                    Seq::new(tasks@.len(), |i: int| tasks@[i]@.memory),
                    *pool,
                ),
                forall|i: int|
                    0 <= i < tasks@.len() ==> {
                        &&& (#[trigger] tasks@[i]).wf()
                        &&& tasks@[i]@.status == TaskStatus::Ready
                        &&& tasks@[i]@.start_time is None
                        &&& image_loaded(tasks@[i]@.memory, images@[i]@)
                        &&& tasks@[i]@.trap_cx.sepc == header_entry(images@[i]@)
                        &&& tasks@[i]@.trap_cx.x@[crate::trap::context::REG_SP as int]
                            == tasks@[i]@.heap_bottom
                        &&& tasks@[i]@.program_brk == tasks@[i]@.heap_bottom
                        &&& tasks@[i]@.task_cx.ra == links.trap_return
                        &&& tasks@[i]@.task_cx.sp == TRAMPOLINE - i * KERNEL_STACK_STRIDE
                        &&& tasks@[i]@.trap_cx.kernel_sp == TRAMPOLINE - i * KERNEL_STACK_STRIDE
                        &&& tasks@[i]@.trap_cx.kernel_satp == links.kernel_satp
                        &&& tasks@[i]@.trap_cx.trap_handler == links.trap_handler
                    },
            decreases images@.len() - app_id + (if refused is None { 1int } else { 0int }),
        {
            match kernel_stack_position(app_id) {
                None => {
                    refused = Some(
                        LoadError::Task { app_id, error: MemoryError::InvalidRange },
                    );
                },
                Some((_, kernel_stack_top)) => {
                    let ghost before = *pool;
                    let ghost spaces = Seq::new(tasks@.len(), |i: int| tasks@[i]@.memory);
                    let ghost had = tasks@;
                    match TaskControlBlock::from_image(
                        pool,
                        trampoline,
                        &images[app_id],
                        kernel_stack_top,
                        links,
                    ) {
                        Err(error) => {
                            proof {
                                pool.lemma_same_free_frames(&before);
                            }
                            refused = Some(LoadError::Task { app_id, error });
                        },
                        Ok(task) => {
                            proof {
                                crate::isolation::lemma_new_space_is_separate(
                                    spaces,
                                    before,
                                    *pool,
                                    task@.memory,
                                );
                            }
                            tasks.push(task);
                            proof {
                                assert(Seq::new(tasks@.len(), |i: int| tasks@[i]@.memory)
                                    =~= spaces.push(task@.memory));
                                assert forall|p: int|
                                    (old(pool).is_free(p) && !#[trigger] pool.is_free(p))
                                        == exists|i: int|
                                        0 <= i < tasks@.len() && (#[trigger] tasks@[i])@.memory.owns(
                                            p,
                                        ) by {
                                    if exists|i: int|
                                        0 <= i < had.len() && (#[trigger] had[i])@.memory.owns(p) {
                                        let i = choose|i: int|
                                            0 <= i < had.len() && (#[trigger] had[i])@.memory.owns(
                                                p,
                                            );
                                        assert(tasks@[i] == had[i]);
                                        assert(0 <= i < tasks@.len() && tasks@[i]@.memory.owns(p));
                                    }
                                    if task@.memory.owns(p) {
                                        assert(tasks@[app_id as int]@.memory.owns(p));
                                    }
                                    if exists|i: int|
                                        0 <= i < tasks@.len() && (#[trigger] tasks@[i])@.memory.owns(
                                            p,
                                        ) {
                                        let i = choose|i: int|
                                            0 <= i < tasks@.len() && (
                                            #[trigger] tasks@[i])@.memory.owns(p);
                                        if i < had.len() {
                                            assert(tasks@[i] == had[i]);
                                            assert(0 <= i < had.len() && had[i]@.memory.owns(p));
                                        }
                                    }
                                }
                                assert forall|i: int| 0 <= i < tasks@.len() implies (
                                #[trigger] tasks@[i]).wf() by {
                                    if i < had.len() {
                                        assert(tasks@[i] == had[i]);
                                    }
                                }
                            }
                            app_id += 1;
                        },
                    }
                },
            }
        }
        match refused {
            Some(e) => {
                let ghost failed = *pool;
                let ghost all = tasks@;
                while tasks.len() > 0
                    invariant
                        tasks@.len() <= all.len(),
                        tasks@ =~= all.take(tasks@.len() as int),
                        forall|i: int| 0 <= i < all.len() ==> (#[trigger] all[i]).wf(),
                        old(pool).wf(),
                        pool.wf(),
                        failed.wf(),
                        pool.spec_start() == old(pool).spec_start(),
                        pool.spec_end() == old(pool).spec_end(),
                        failed.spec_start() == old(pool).spec_start(),
                        failed.spec_end() == old(pool).spec_end(),
                        forall|p: int|
                            pool.is_free(p) == (failed.is_free(p) || (failed.manages(p)
                                && exists|i: int|
                                tasks@.len() <= i < all.len() && (#[trigger] all[i])@.memory.owns(
                                    p,
                                ))),
                    decreases tasks@.len(),
                {
                    let ghost n = tasks@.len() as int;
                    let task = tasks.pop().unwrap();
                    proof {
                        assert(task == all[n - 1]);
                    }
                    task.release(pool);
                    proof {
                        assert forall|p: int|
                            pool.is_free(p) == (failed.is_free(p) || (failed.manages(p)
                                && exists|i: int|
                                n - 1 <= i < all.len() && (#[trigger] all[i])@.memory.owns(p))) by {
                            if exists|i: int|
                                n - 1 <= i < all.len() && (#[trigger] all[i])@.memory.owns(p) {
                                let i = choose|i: int|
                                    n - 1 <= i < all.len() && (#[trigger] all[i])@.memory.owns(p);
                                if i >= n {
                                    assert(n <= i < all.len() && all[i]@.memory.owns(p));
                                }
                            }
                            if exists|i: int|
                                n <= i < all.len() && (#[trigger] all[i])@.memory.owns(p) {
                                let i = choose|i: int|
                                    n <= i < all.len() && (#[trigger] all[i])@.memory.owns(p);
                                assert(n - 1 <= i < all.len() && all[i]@.memory.owns(p));
                            }
                            if task@.memory.owns(p) {
                                assert(n - 1 <= n - 1 < all.len() && all[n - 1]@.memory.owns(p));
                            }
                        }
                    }
                }
                proof {
                    old(pool).lemma_free_frames();
                    assert forall|p: int| #[trigger] pool.is_free(p) == old(pool).is_free(p) by {
                        if exists|i: int|
                            0 <= i < all.len() && (#[trigger] all[i])@.memory.owns(p) {
                            let i = choose|i: int|
                                0 <= i < all.len() && (#[trigger] all[i])@.memory.owns(p);
                            assert(old(pool).is_free(p) && !failed.is_free(p));
                        }
                        if old(pool).is_free(p) && !failed.is_free(p) {
                            let i = choose|i: int|
                                0 <= i < all.len() && (#[trigger] all[i])@.memory.owns(p);
                            assert(0 <= i < all.len() && all[i]@.memory.owns(p));
                        }
                    }
                    pool.lemma_same_free_frames(old(pool));
                }
                Err(e)
            },
            None => {
                let ghost built = tasks@;
                let made = TaskManager::new(tasks);
                let manager = made.unwrap();
                proof {
                    assert(crate::isolation::memories(manager@) =~= Seq::new(
                        built.len(),
                        |i: int| built[i]@.memory,
                    ));
                    assert(load_outcome(programs, pool.free_count(), images@.len() as int)
                        is None);
                }
                Ok(manager)
            },
        }
    }

    /// The number of tasks.
    pub fn num_app(&self) -> (n: usize)
        requires
            self.wf(),
        ensures
            n == self@.tasks.len(),
    {
        self.num_app
    }

    /// The index of the current task.
    pub fn current_task(&self) -> (id: usize)
        requires
            self.wf(),
        ensures
            id == self@.current,
    {
        self.inner.borrow().current_task
    }

    /// The record of task `id`, to read.
    pub fn task(&self, id: usize) -> (task: &TaskControlBlock)
        requires
            self.wf(),
            id < self@.tasks.len(),
        ensures
            *task == self.spec_task(id as int),
            task.wf(),
            task@ == self@.tasks[id as int],
    {
        &self.inner.borrow().tasks[id]
    }

    /// The record of the current task, to read.
    pub fn get_current_task_control_block_ref(&self) -> (task: &TaskControlBlock)
        requires
            self.wf(),
        ensures
            *task == self.spec_task(self@.current),
            task.wf(),
            task@ == self@.current_task(),
    {
        let inner = self.inner.borrow();
        &inner.tasks[inner.current_task]
    }

    /// The record of task `id`, to change. The manager stays well formed as
    /// long as the record does and the manager's view with it.
    fn task_mut(&mut self, id: usize) -> (task: &mut TaskControlBlock)
        requires
            old(self).wf(),
            id < old(self)@.tasks.len(),
        ensures
            *task == old(self).spec_task(id as int),
            task.wf(),
            task@ == old(self)@.tasks[id as int],
            final(self)@ == old(self)@.with_task(id as int, final(task)@),
            final(self).spec_task(id as int) == *final(task),
            final(task).wf() && final(self)@.wf() ==> final(self).wf(),
    {
        let inner = self.inner.exclusive_access();
        &mut inner.tasks[id]
    }

    /// The record of the current task, to change. The manager stays well
    /// formed as long as the record does and the manager's view with it.
    pub(crate) fn get_current_task_control_block_mut(&mut self) -> (task: &mut TaskControlBlock)
        requires
            old(self).wf(),
        ensures
            *task == old(self).spec_task(old(self)@.current),
            task.wf(),
            task@ == old(self)@.current_task(),
            final(self)@ == old(self)@.with_task(old(self)@.current, final(task)@),
            final(self).spec_task(old(self)@.current) == *final(task),
            final(task).wf() && final(self)@.wf() ==> final(self).wf(),
    {
        let inner = self.inner.exclusive_access();
        let current: usize = inner.current_task;
        &mut inner.tasks[current]
    }

    /// Records that the current task, which runs, gives up the processor: it
    /// is ready again.
    pub fn mark_current_suspended(&mut self)
        requires
            old(self).wf(),
            old(self)@.running(),
        ensures
            final(self).wf(),
            final(self)@ == old(self)@.suspended(),
    {
        let task = self.get_current_task_control_block_mut();
        task.set_status(TaskStatus::Ready);
    }

    /// Records that the current task, which runs, has ended: it is over.
    pub fn mark_current_exited(&mut self)
        requires
            old(self).wf(),
            old(self)@.running(),
        ensures
            final(self).wf(),
            final(self)@ == old(self)@.exited(),
    {
        let task = self.get_current_task_control_block_mut();
        task.set_status(TaskStatus::Exited);
    }

    /// Finds the task to run next: the nearest ready task behind the current
    /// one in the cyclic order, the current task itself last. Returns nothing
    /// exactly when no task is ready.
    pub fn find_next_task(&self) -> (next: Option<usize>)
        requires
            self.wf(),
        ensures
            next matches Some(id) ==> self@.is_next(id as int),
            next is None ==> self@.no_ready(),
    {
        let inner = self.inner.borrow();
        let current: usize = inner.current_task;
        let n: usize = self.num_app;
        let behind: usize = n - current - 1;
        let mut passed: usize = 0;
        while passed < n
            invariant
                self.wf(),
                *inner == self.inner@,
                n == self@.tasks.len(),
                current == self@.current,
                behind == n - current - 1,
                passed <= n,
                forall|id: int| self@.ready(id) ==> self@.turns_until(id) > passed,
            decreases n - passed,
        {
            let id: usize = if passed < behind {
                current + 1 + passed
            } else {
                passed - behind
            };
            assert(self@.turns_until(id as int) == passed + 1);
            if inner.tasks[id].status() == TaskStatus::Ready {
                return Some(id);
            }
            proof {
                assert forall|other: int| self@.ready(other) implies self@.turns_until(other)
                    > passed + 1 by {
                    if self@.turns_until(other) == passed + 1 {
                        assert(other == id);
                    }
                }
            }
            passed += 1;
        }
        proof {
            assert forall|id: int| !self@.ready(id) by {
                if self@.ready(id) {
                    assert(self@.turns_until(id) <= n);
                }
            }
        }
        None
    }

    /// Gives the processor to the task whose turn is next, at time `now`, and
    /// tells what the processor is to do: switch from the current task to
    /// that one, or halt where no task is ready. The task that is given the
    /// processor runs and becomes the current one, and `now` becomes its start
    /// time if it has none. Where no task is ready nothing changes.
    pub fn run_next_task(&mut self, now: usize) -> (action: Dispatch)
        requires
            old(self).wf(),
            !old(self)@.running(),
        ensures
            final(self).wf(),
            action is Halt <==> old(self)@.no_ready(),
            action is Halt ==> final(self)@ == old(self)@,
            action matches Dispatch::Switch { from, to } ==> {
                &&& from == old(self)@.current
                &&& old(self)@.is_next(to as int)
                &&& final(self)@ == old(self)@.dispatched(to as int, now)
            },
            !(action is First),
    {
        match self.find_next_task() {
            Some(next) => {
                let ghost pre = self@;
                let inner = self.inner.exclusive_access();
                let current: usize = inner.current_task;
                inner.tasks[next].set_running(now);
                inner.current_task = next;
                proof {
                    assert(self@.tasks =~= pre.dispatched(next as int, now).tasks);
                    assert(!pre.no_ready()) by {
                        assert(pre.ready(next as int));
                    }
                }
                Dispatch::Switch { from: current, to: next }
            },
            None => Dispatch::Halt,
        }
    }

    /// Gives the processor to the first task, at time `now`, before any task
    /// has run. The task runs, and `now` is its start time.
    pub fn run_first_task(&mut self, now: usize) -> (action: Dispatch)
        requires
            old(self).wf(),
            old(self)@.fresh(),
        ensures
            final(self).wf(),
            action == (Dispatch::First { to: 0 }),
            final(self)@ == old(self)@.dispatched(0, now),
            final(self)@.tasks[0].start_time == Some(now),
    {
        let ghost pre = self@;
        let inner = self.inner.exclusive_access();
        inner.tasks[0].set_running(now);
        proof {
            assert(self@.tasks =~= pre.dispatched(0, now).tasks);
        }
        Dispatch::First { to: 0 }
    }

    /// Where the current task stands in its life.
    pub fn current_task_status(&self) -> (status: TaskStatus)
        requires
            self.wf(),
        ensures
            status == self@.current_task().status,
    {
        self.get_current_task_control_block_ref().status()
    }

    /// Counts one more call of system call `id` by the current task. An id
    /// outside the id space is not counted.
    pub fn current_task_syscall_add_count(&mut self, id: usize)
        requires
            old(self).wf(),
            id < MAX_SYSCALL_NUM ==> old(self)@.current_task().syscall_times[id as int]
                < u32::MAX,
        ensures
            final(self).wf(),
            final(self)@ == old(self)@.counted(id as int),
    {
        let task = self.get_current_task_control_block_mut();
        task.count_syscall(id);
    }

    /// How often the current task has made each system call, by the call's
    /// id.
    pub fn current_task_syscall_count(&self) -> (times: [u32; MAX_SYSCALL_NUM])
        requires
            self.wf(),
        ensures
            times@ == self@.current_task().syscall_times,
    {
        self.get_current_task_control_block_ref().syscall_times()
    }

    /// The time in milliseconds at which the current task first ran, once it
    /// has.
    pub fn current_task_start_time(&self) -> (time: Option<usize>)
        requires
            self.wf(),
        ensures
            time == self@.current_task().start_time,
    {
        self.get_current_task_control_block_ref().start_time()
    }

    /// The value that selects the current task's address space in the
    /// address-translation register.
    pub fn get_current_token(&self) -> (token: u64)
        requires
            self.wf(),
        ensures
            token == SATP_MODE + self@.current_task().memory.root,
    {
        self.get_current_task_control_block_ref().get_user_token()
    }

    /// The current task's user-mode registers, to read and to change.
    pub fn get_current_trap_cx(&mut self) -> (cx: &mut TrapContext)
        requires
            old(self).wf(),
        ensures
            *cx == old(self)@.current_task().trap_cx,
            final(self)@ == old(self)@.with_task(
                old(self)@.current,
                TaskView { trap_cx: *final(cx), ..old(self)@.current_task() },
            ),
            final(self).wf(),
    {
        let task = self.get_current_task_control_block_mut();
        task.get_trap_cx()
    }

    /// Moves the current task's program break by `size` bytes and returns the
    /// break as it was. Refused, with nothing returned and the break left
    /// where it is, where the break would come to lie below the start of the
    /// heap or beyond the largest signed number.
    pub fn change_current_program_brk(&mut self, size: i32) -> (old_brk: Option<usize>)
        requires
            old(self).wf(),
        ensures
            final(self).wf(),
            old(self)@.current_task().brk_after(size as int) matches Some(brk) ==> {
                &&& old_brk == Some(old(self)@.current_task().program_brk)
                &&& final(self)@ == old(self)@.with_task(
                    old(self)@.current,
                    TaskView { program_brk: brk as usize, ..old(self)@.current_task() },
                )
            },
            old(self)@.current_task().brk_after(size as int) is None ==> {
                &&& old_brk is None
                &&& final(self)@ == old(self)@
            },
    {
        let ghost pre = self@;
        let task = self.get_current_task_control_block_mut();
        let old_brk = task.change_program_brk(size);
        proof {
            if pre.current_task().brk_after(size as int) is None {
                assert(self@.tasks =~= pre.tasks);
            }
        }
        old_brk
    }

    /// The current task's address space, to read.
    pub fn current_memory(&self) -> (space: &MemorySet)
        requires
            self.wf(),
        ensures
            space.wf(),
            space@ == self@.current_task().memory,
    {
        self.get_current_task_control_block_ref().memory_set()
    }

    /// The current task's address space, to change. The manager stays well
    /// formed as long as the address space does.
    pub fn get_current_memory_set(&mut self) -> (space: &mut MemorySet)
        requires
            old(self).wf(),
        ensures
            space.wf(),
            space@ == old(self)@.current_task().memory,
            final(self)@ == old(self)@.with_task(
                old(self)@.current,
                TaskView { memory: final(space)@, ..old(self)@.current_task() },
            ),
            final(space).wf() ==> final(self).wf(),
    {
        let task = self.get_current_task_control_block_mut();
        task.memory_set_mut()
    }

    /// The user-mode registers of task `id`, to read and to change.
    pub fn task_trap_cx(&mut self, id: usize) -> (cx: &mut TrapContext)
        requires
            old(self).wf(),
            id < old(self)@.tasks.len(),
        ensures
            *cx == old(self)@.tasks[id as int].trap_cx,
            final(self)@ == old(self)@.with_task(
                id as int,
                TaskView { trap_cx: *final(cx), ..old(self)@.tasks[id as int] },
            ),
            final(self).wf(),
    {
        let task = self.task_mut(id);
        task.get_trap_cx()
    }

    /// The kernel-side registers of task `id`, for a switch to load.
    pub fn task_context(&self, id: usize) -> (cx: &TaskContext)
        requires
            self.wf(),
            id < self@.tasks.len(),
        ensures
            *cx == self@.tasks[id as int].task_cx,
    {
        self.inner.borrow().tasks[id].task_cx()
    }

    /// The kernel-side registers of task `id`, for a switch to save into.
    pub fn task_context_mut(&mut self, id: usize) -> (cx: &mut TaskContext)
        requires
            old(self).wf(),
            id < old(self)@.tasks.len(),
        ensures
            *cx == old(self)@.tasks[id as int].task_cx,
            final(self)@ == old(self)@.with_task(
                id as int,
                TaskView { task_cx: *final(cx), ..old(self)@.tasks[id as int] },
            ),
            final(self).wf(),
    {
        let task = self.task_mut(id);
        task.task_cx_mut()
    }
}

/// The current task, which runs, gives up the processor at time `now`: it is
/// ready again, and the task whose turn is next is given the processor. That
/// is the current task itself where no other task is ready.
pub fn suspend_current_and_run_next(manager: &mut TaskManager, now: usize) -> (action: Dispatch)
    requires
        old(manager).wf(),
        old(manager)@.running(),
    ensures
        final(manager).wf(),
        final(manager)@.running(),
        action matches Dispatch::Switch { from, to } && {
            &&& from == old(manager)@.current
            &&& old(manager)@.suspended().is_next(to as int)
            &&& final(manager)@ == old(manager)@.suspended().dispatched(to as int, now)
        },
{
    manager.mark_current_suspended();
    proof {
        assert(manager@.ready(manager@.current));
    }
    manager.run_next_task(now)
}

/// The current task, which runs, ends at time `now`: it is over, and the task
/// whose turn is next is given the processor. Where no task is ready the
/// processor is to halt.
pub fn exit_current_and_run_next(manager: &mut TaskManager, now: usize) -> (action: Dispatch)
    requires
        old(manager).wf(),
        old(manager)@.running(),
    ensures
        final(manager).wf(),
        action is Halt <==> old(manager)@.exited().no_ready(),
        action is Halt ==> final(manager)@ == old(manager)@.exited(),
        action matches Dispatch::Switch { from, to } ==> {
            &&& from == old(manager)@.current
            &&& to != from
            &&& old(manager)@.exited().is_next(to as int)
            &&& final(manager)@ == old(manager)@.exited().dispatched(to as int, now)
            &&& final(manager)@.running()
        },
        !(action is First),
{
    manager.mark_current_exited();
    manager.run_next_task(now)
}

/// Gives the processor to the first task, at time `now`, before any task has
/// run.
pub fn run_first_task(manager: &mut TaskManager, now: usize) -> (action: Dispatch)
    requires
        old(manager).wf(),
        old(manager)@.fresh(),
    ensures
        final(manager).wf(),
        final(manager)@.running(),
        action == (Dispatch::First { to: 0 }),
        final(manager)@ == old(manager)@.dispatched(0, now),
        final(manager)@.tasks[0].start_time == Some(now),
{
    manager.run_first_task(now)
}

/// Where the current task stands in its life.
pub fn current_task_status(manager: &TaskManager) -> (status: TaskStatus)
    requires
        manager.wf(),
    ensures
        status == manager@.current_task().status,
{
    manager.current_task_status()
}

/// Counts one more call of system call `id` by the current task. An id outside
/// the id space is not counted.
pub fn current_task_syscall_add_count(manager: &mut TaskManager, id: usize)
    requires
        old(manager).wf(),
        id < MAX_SYSCALL_NUM ==> old(manager)@.current_task().syscall_times[id as int]
            < u32::MAX,
    ensures
        final(manager).wf(),
        final(manager)@ == old(manager)@.counted(id as int),
{
    manager.current_task_syscall_add_count(id);
}

/// How often the current task has made each system call, by the call's id.
pub fn current_task_syscall_count(manager: &TaskManager) -> (times: [u32; MAX_SYSCALL_NUM])
    requires
        manager.wf(),
    ensures
        times@ == manager@.current_task().syscall_times,
{
    manager.current_task_syscall_count()
}

/// The time in milliseconds at which the current task first ran, once it has.
pub fn current_task_start_time(manager: &TaskManager) -> (time: Option<usize>)
    requires
        manager.wf(),
    ensures
        time == manager@.current_task().start_time,
{
    manager.current_task_start_time()
}

/// Gives the processor to the task whose turn is next, at time `now`, while no
/// task runs.
pub fn run_next_task(manager: &mut TaskManager, now: usize) -> (action: Dispatch)
    requires
        old(manager).wf(),
        !old(manager)@.running(),
    ensures
        final(manager).wf(),
        action is Halt <==> old(manager)@.no_ready(),
        action is Halt ==> final(manager)@ == old(manager)@,
        action matches Dispatch::Switch { from, to } ==> {
            &&& from == old(manager)@.current
            &&& old(manager)@.is_next(to as int)
            &&& final(manager)@ == old(manager)@.dispatched(to as int, now)
        },
        !(action is First),
{
    manager.run_next_task(now)
}

/// The value that selects the current task's address space in the
/// address-translation register.
pub fn current_user_token(manager: &TaskManager) -> (token: u64)
    requires
        manager.wf(),
    ensures
        token == SATP_MODE + manager@.current_task().memory.root,
{
    manager.get_current_token()
}

/// The current task's user-mode registers, to read and to change.
pub fn current_trap_cx(manager: &mut TaskManager) -> (cx: &mut TrapContext)
    requires
        old(manager).wf(),
    ensures
        *cx == old(manager)@.current_task().trap_cx,
        final(manager)@ == old(manager)@.with_task(
            old(manager)@.current,
            TaskView { trap_cx: *final(cx), ..old(manager)@.current_task() },
        ),
        final(manager).wf(),
{
    manager.get_current_trap_cx()
}

/// Moves the current task's program break by `size` bytes and returns the
/// break as it was, or nothing where the request is refused.
pub fn change_program_brk(manager: &mut TaskManager, size: i32) -> (old_brk: Option<usize>)
    requires
        old(manager).wf(),
    ensures
        final(manager).wf(),
        old(manager)@.current_task().brk_after(size as int) matches Some(brk) ==> {
            &&& old_brk == Some(old(manager)@.current_task().program_brk)
            &&& final(manager)@ == old(manager)@.with_task(
                old(manager)@.current,
                TaskView { program_brk: brk as usize, ..old(manager)@.current_task() },
            )
        },
        old(manager)@.current_task().brk_after(size as int) is None ==> {
            &&& old_brk is None
            &&& final(manager)@ == old(manager)@
        },
{
    manager.change_current_program_brk(size)
}

/// The current task's address space, to change.
pub fn current_memory_set(manager: &mut TaskManager) -> (space: &mut MemorySet)
    requires
        old(manager).wf(),
    ensures
        space.wf(),
        space@ == old(manager)@.current_task().memory,
        final(manager)@ == old(manager)@.with_task(
            old(manager)@.current,
            TaskView { memory: final(space)@, ..old(manager)@.current_task() },
        ),
        final(space).wf() ==> final(manager).wf(),
{
    manager.get_current_memory_set()
}

} // verus!
