//! The system calls of task and memory management.
//!
//! A system call that hands data to its caller stores them in the caller's
//! address space, through the caller's translation tree: the bytes go where
//! the caller's pointer says only if every one of them lies in a page that
//! the caller may write, and else the call fails and stores nothing.

use vstd::prelude::*;
use crate::config::MAX_SYSCALL_NUM;
use crate::mm::address::{page_ceil, page_floor, VirtAddr, VirtPageNum, VA_LIMIT, VPN_LIMIT};
use crate::mm::frame_allocator::FrameAllocator;
use crate::mm::memory_set::{
    frame_in, inserted, removed, MapPermission, MemorySet, MemorySetView, PageSpan, PERM_U,
};
use crate::mm::page_table::{PTE_U, PTE_V, PTE_W};
use crate::task::tcb::{TaskStatus, TaskView};
use crate::task::{
    change_program_brk, current_memory_set, current_task_start_time, current_task_status,
    current_task_syscall_count, exit_current_and_run_next, suspend_current_and_run_next, Dispatch,
    TaskManager, TaskManagerView,
};

verus! {

/// The size of a `TimeVal` in a caller's memory, in bytes.
pub const TIME_VAL_SIZE: usize = 16;

/// The size of a `TaskInfo` in a caller's memory, in bytes.
pub const TASK_INFO_SIZE: usize = 2016;

/// The `width` low bytes of `value`, the lowest first.
pub open spec fn le_bytes(value: nat, width: nat) -> Seq<u8>
    decreases width,
{
    if width == 0 {
        Seq::empty()
    } else {
        seq![(value % 256) as u8] + le_bytes(value / 256, (width - 1) as nat)
    }
}

/// `le_bytes` yields `width` bytes.
pub proof fn lemma_le_bytes_len(value: nat, width: nat)
    ensures
        le_bytes(value, width).len() == width,
    decreases width,
{
    if width > 0 {
        lemma_le_bytes_len(value / 256, (width - 1) as nat);
    }
}

/// Appends the `width` low bytes of `value` to `out`, the lowest first.
fn push_le_bytes(out: &mut Vec<u8>, value: u64, width: usize)
    ensures
        final(out)@ == old(out)@ + le_bytes(value as nat, width as nat),
{
    let mut rest: u64 = value;
    let mut i: usize = 0;
    proof {
        assert(out@ + le_bytes(value as nat, width as nat) =~= old(out)@ + le_bytes(
            value as nat,
            width as nat,
        ));
    }
    while i < width
        invariant
            i <= width,
            out@ + le_bytes(rest as nat, (width - i) as nat) == old(out)@ + le_bytes(
                value as nat,
                width as nat,
            ),
        decreases width - i,
    {
        let ghost before = out@;
        out.push((rest % 256) as u8);
        proof {
            let tail = le_bytes((rest / 256) as nat, (width - i - 1) as nat);
            assert(before + le_bytes(rest as nat, (width - i) as nat) =~= out@ + tail);
        }
        rest = rest / 256;
        i += 1;
    }
    proof {
        assert(out@ + le_bytes(rest as nat, 0) =~= out@);
    }
}

/// A time of day: whole seconds, and the microseconds of the second begun.
#[derive(Clone, Copy, PartialEq, Eq, Structural, Debug)]
pub struct TimeVal {
    /// The whole seconds.
    pub sec: usize,
    /// The microseconds of the second begun.
    pub usec: usize,
}

impl TimeVal {
    /// The time of day `us` microseconds after the start.
    pub open spec fn spec_from_us(us: usize) -> TimeVal {
        TimeVal { sec: us / 1_000_000, usec: us % 1_000_000 }
    }

    /// The value as it lies in a caller's memory: the seconds and then the
    /// microseconds, each as eight bytes, the lowest first.
    pub open spec fn spec_bytes(self) -> Seq<u8> {
        le_bytes(self.sec as nat, 8) + le_bytes(self.usec as nat, 8)
    }

    /// The time of day `us` microseconds after the start.
    pub fn from_us(us: usize) -> (tv: TimeVal)
        ensures
            tv == Self::spec_from_us(us),
    {
        TimeVal { sec: us / 1_000_000, usec: us % 1_000_000 }
    }

    /// The value as it lies in a caller's memory.
    pub fn into_bytes(self) -> (bytes: Vec<u8>)
        ensures
            bytes@ == self.spec_bytes(),
            bytes@.len() == TIME_VAL_SIZE,
    {
        let mut bytes: Vec<u8> = Vec::new();
        push_le_bytes(&mut bytes, self.sec as u64, 8);
        push_le_bytes(&mut bytes, self.usec as u64, 8);
        proof {
            lemma_le_bytes_len(self.sec as nat, 8);
            lemma_le_bytes_len(self.usec as nat, 8);
            assert(bytes@ =~= self.spec_bytes());
        }
        bytes
    }
}

/// The number that stands for `status` in a caller's memory.
pub open spec fn status_code(status: TaskStatus) -> u8 {
    match status {
        TaskStatus::UnInit => 0,
        TaskStatus::Ready => 1,
        TaskStatus::Running => 2,
        TaskStatus::Exited => 3,
    }
}

/// The counters `times[from ..]` as they lie in a caller's memory: four bytes
/// each, the lowest first.
pub open spec fn counter_bytes(times: Seq<u32>, from: int) -> Seq<u8>
    decreases times.len() - from,
{
    if from < 0 || from >= times.len() {
        Seq::empty()
    } else {
        le_bytes(times[from] as nat, 4) + counter_bytes(times, from + 1)
    }
}

/// The counters `times[from ..]` take four bytes each.
pub proof fn lemma_counter_bytes_len(times: Seq<u32>, from: int)
    requires
        0 <= from <= times.len(),
    ensures
        counter_bytes(times, from).len() == 4 * (times.len() - from),
    decreases times.len() - from,
{
    if from < times.len() {
        lemma_le_bytes_len(times[from] as nat, 4);
        lemma_counter_bytes_len(times, from + 1);
    }
}

/// What a task learns about itself.
pub struct TaskInfo {
    /// Where the task stands in its life.
    status: TaskStatus,
    /// How often the task has made each system call, by the call's id.
    syscall_times: [u32; MAX_SYSCALL_NUM],
    /// The time in milliseconds since the task first ran.
    time: usize,
}

impl TaskInfo {
    /// Where the task stands in its life.
    pub closed spec fn spec_status(&self) -> TaskStatus {
        self.status
    }

    /// How often the task has made each system call, by the call's id.
    pub closed spec fn spec_syscall_times(&self) -> Seq<u32> {
        self.syscall_times@
    }

    /// The time in milliseconds since the task first ran.
    pub closed spec fn spec_time(&self) -> usize {
        self.time
    }

    /// What a task with `status` and the counters `times` learns `time`
    /// milliseconds after it first ran, as it lies in a caller's memory: the
    /// status as one byte and three bytes of zero, the counters, four bytes
    /// of zero, and the time as eight bytes, the lowest first.
    pub open spec fn layout(status: TaskStatus, times: Seq<u32>, time: usize) -> Seq<u8> {
        seq![status_code(status), 0u8, 0u8, 0u8] + counter_bytes(times, 0) + seq![
            0u8,
            0u8,
            0u8,
            0u8,
        ] + le_bytes(time as nat, 8)
    }

    /// The value as it lies in a caller's memory.
    pub open spec fn spec_bytes(&self) -> Seq<u8> {
        Self::layout(self.spec_status(), self.spec_syscall_times(), self.spec_time())
    }

    /// The layout of a value with one counter per system call takes
    /// `TASK_INFO_SIZE` bytes.
    pub proof fn lemma_layout_len(status: TaskStatus, times: Seq<u32>, time: usize)
        requires
            times.len() == MAX_SYSCALL_NUM,
        ensures
            Self::layout(status, times, time).len() == TASK_INFO_SIZE,
    {
        lemma_counter_bytes_len(times, 0);
        lemma_le_bytes_len(time as nat, 8);
    }

    /// What a task with `status` and the counters `syscall_times` learns
    /// `time` milliseconds after it first ran.
    pub fn new(status: TaskStatus, syscall_times: [u32; MAX_SYSCALL_NUM], time: usize) -> (info:
        TaskInfo)
        ensures
            info.spec_status() == status,
            info.spec_syscall_times() == syscall_times@,
            info.spec_time() == time,
    {
        TaskInfo { status, syscall_times, time }
    }

    /// The value as it lies in a caller's memory.
    pub fn into_bytes(self) -> (bytes: Vec<u8>)
        ensures
            bytes@ == self.spec_bytes(),
            bytes@.len() == TASK_INFO_SIZE,
    {
        let code: u8 = match self.status {
            TaskStatus::UnInit => 0,
            TaskStatus::Ready => 1,
            TaskStatus::Running => 2,
            TaskStatus::Exited => 3,
        };
        let mut bytes: Vec<u8> = Vec::new();
        bytes.push(code);
        bytes.push(0);
        bytes.push(0);
        bytes.push(0);
        let ghost head = bytes@;
        let ghost times = self.syscall_times@;
        proof {
            assert(head =~= seq![code, 0u8, 0u8, 0u8]);
            assert(counter_bytes(times, MAX_SYSCALL_NUM as int) =~= Seq::<u8>::empty());
        }
        let mut k: usize = 0;
        while k < MAX_SYSCALL_NUM
            invariant
                k <= MAX_SYSCALL_NUM,
                times == self.syscall_times@,
                times.len() == MAX_SYSCALL_NUM,
                head == seq![code, 0u8, 0u8, 0u8],
                bytes@ + counter_bytes(times, k as int) == head + counter_bytes(times, 0),
            decreases MAX_SYSCALL_NUM - k,
        {
            let ghost before = bytes@;
            push_le_bytes(&mut bytes, self.syscall_times[k] as u64, 4);
            proof {
                assert(before + counter_bytes(times, k as int) =~= bytes@ + counter_bytes(
                    times,
                    k as int + 1,
                ));
            }
            k += 1;
        }
        proof {
            assert(bytes@ + counter_bytes(times, MAX_SYSCALL_NUM as int) =~= bytes@);
        }
        bytes.push(0);
        bytes.push(0);
        bytes.push(0);
        bytes.push(0);
        let ghost body = bytes@;
        push_le_bytes(&mut bytes, self.time as u64, 8);
        proof {
            assert(body =~= head + counter_bytes(times, 0) + seq![0u8, 0u8, 0u8, 0u8]);
            assert(bytes@ =~= self.spec_bytes());
            Self::lemma_layout_len(self.status, times, self.time);
        }
        bytes
    }
}

/// Copies `bytes` into the address space `space`, from the address that
/// `ptr` holds on. Refused, with the address space left as it is, unless
/// every one of the bytes lies in a page that has a frame of its own and is
/// mapped writable and accessible in user mode.
pub fn write_translated_byte_buffer(space: &mut MemorySet, ptr: usize, bytes: &Vec<u8>) -> (done:
    bool)
    requires
        old(space).wf(),
    ensures
        final(space).wf(),
        done == old(space)@.span_accessible(
            ptr as int % 0x80_0000_0000,
            bytes@.len() as int,
            PTE_U | PTE_W,
        ),
        done ==> final(space)@ == old(space)@.with_bytes(ptr as int % 0x80_0000_0000, bytes@),
        !done ==> final(space)@ == old(space)@,
{
    space.write_bytes(VirtAddr::from_usize(ptr), bytes)
}

impl TaskManagerView {
    /// The manager with the address space of the current task changed to
    /// `memory`.
    pub open spec fn with_memory(self, memory: MemorySetView) -> TaskManagerView {
        self.with_task(self.current, TaskView { memory, ..self.current_task() })
    }

    /// Whether the current task may write the `len` bytes from the address
    /// that `ptr` holds on.
    pub open spec fn can_store(self, ptr: usize, len: int) -> bool {
        self.current_task().memory.span_accessible(
            ptr as int % 0x80_0000_0000,
            len,
            PTE_U | PTE_W,
        )
    }

    /// The manager after `bytes` were stored in the current task's memory,
    /// from the address that `ptr` holds on.
    pub open spec fn stored(self, ptr: usize, bytes: Seq<u8>) -> TaskManagerView {
        self.with_memory(self.current_task().memory.with_bytes(ptr as int % 0x80_0000_0000, bytes))
    }
}

/// What the end of the current task at time `now` does: the task is over;
/// the task whose turn is next runs, and the processor is to switch to it, or
/// the processor is to halt where no task is ready.
pub open spec fn exit_effect(
    pre: TaskManagerView,
    post: TaskManagerView,
    action: Dispatch,
    now: usize,
) -> bool {
    match action {
        Dispatch::Halt => pre.exited().no_ready() && post == pre.exited(),
        Dispatch::Switch { from, to } => {
            &&& from == pre.current
            &&& to != from
            &&& pre.exited().is_next(to as int)
            &&& post == pre.exited().dispatched(to as int, now)
        },
        Dispatch::First { to } => false,
    }
}

/// What giving up the processor at time `now` does: the current task is
/// ready again, the task whose turn is next runs, and the processor is to
/// switch to it.
pub open spec fn yield_effect(
    pre: TaskManagerView,
    post: TaskManagerView,
    action: Dispatch,
    now: usize,
) -> bool {
    action matches Dispatch::Switch { from, to } && {
        &&& from == pre.current
        &&& pre.suspended().is_next(to as int)
        &&& post == pre.suspended().dispatched(to as int, now)
    }
}

/// What the request for the time of day does, `now_us` microseconds after the
/// start: it answers 0 and stores the time where `ts` points, or it answers
/// -1 and changes nothing where the current task may not write there.
pub open spec fn get_time_effect(
    pre: TaskManagerView,
    post: TaskManagerView,
    ts: usize,
    now_us: usize,
    answer: isize,
) -> bool {
    if pre.can_store(ts, TIME_VAL_SIZE as int) {
        answer == 0 && post == pre.stored(ts, TimeVal::spec_from_us(now_us).spec_bytes())
    } else {
        answer == -1 && post == pre
    }
}

/// What the current task's request for what it may learn about itself does at
/// time `now_ms`: it answers 0 and stores the value where `ti` points, or it
/// answers -1 and changes nothing where the task has not run yet or may not
/// write there.
pub open spec fn task_info_effect(
    pre: TaskManagerView,
    post: TaskManagerView,
    ti: usize,
    now_ms: usize,
    answer: isize,
) -> bool {
    if pre.current_task().start_time is Some && pre.can_store(ti, TASK_INFO_SIZE as int) {
        answer == 0 && post == pre.stored(
            ti,
            TaskInfo::layout(
                pre.current_task().status,
                pre.current_task().syscall_times,
                (now_ms - pre.current_task().start_time.unwrap()) as usize,
            ),
        )
    } else {
        answer == -1 && post == pre
    }
}

/// What a request to move the program break by `size` bytes does: it
/// answers the break as it was and moves the break, or it answers -1 and
/// changes nothing where the request is refused.
pub open spec fn sbrk_effect(
    pre: TaskManagerView,
    post: TaskManagerView,
    size: i32,
    answer: isize,
) -> bool {
    match pre.current_task().brk_after(size as int) {
        Some(brk) => {
            &&& answer == pre.current_task().program_brk
            &&& post == pre.with_task(
                pre.current,
                TaskView { program_brk: brk as usize, ..pre.current_task() },
            )
        },
        None => answer == -1 && post == pre,
    }
}

/// The current task ends with `exit_code`, at time `now`. The task whose turn
/// is next is given the processor, or the processor is to halt where no task
/// is ready.
pub fn sys_exit(manager: &mut TaskManager, exit_code: i32, now: usize) -> (action: Dispatch)
    requires
        old(manager).wf(),
        old(manager)@.running(),
    ensures
        final(manager).wf(),
        exit_effect(old(manager)@, final(manager)@, action, now),
        action is Halt <==> old(manager)@.exited().no_ready(),
        action is Switch ==> final(manager)@.running(),
{
    exit_current_and_run_next(manager, now)
}

/// The current task gives up the processor, at time `now`. The call answers
/// 0, and the task whose turn is next is given the processor.
pub fn sys_yield(manager: &mut TaskManager, now: usize) -> (answer: (isize, Dispatch))
    requires
        old(manager).wf(),
        old(manager)@.running(),
    ensures
        final(manager).wf(),
        final(manager)@.running(),
        answer.0 == 0,
        yield_effect(old(manager)@, final(manager)@, answer.1, now),
{
    let action = suspend_current_and_run_next(manager, now);
    (0, action)
}

/// Stores the time of day, `now_us` microseconds after the start, as a
/// `TimeVal` where `ts` points in the current task's memory. Answers 0, or
/// -1 where the task may not write all of the value's bytes; nothing is
/// stored then. The time zone `_tz` is ignored.
pub fn sys_get_time(manager: &mut TaskManager, ts: usize, _tz: usize, now_us: usize) -> (answer:
    isize)
    requires
        old(manager).wf(),
    ensures
        final(manager).wf(),
        get_time_effect(old(manager)@, final(manager)@, ts, now_us, answer),
{
    let tv = TimeVal::from_us(now_us);
    let tv_bytes = tv.into_bytes();
    let ghost pre = manager@;
    proof {
        manager.lemma_wf();
    }
    let space = current_memory_set(manager);
    let done = write_translated_byte_buffer(space, ts, &tv_bytes);
    proof {
        if !done {
            assert(manager@.tasks =~= pre.tasks);
        }
    }
    if done {
        0
    } else {
        -1
    }
}

/// Stores what the current task learns about itself at time `now_ms`, as a
/// `TaskInfo` where `ti` points in its memory: its status, its counters of
/// system calls, and the time since it first ran. Answers 0; or -1, with
/// nothing stored, where the task has not run yet or may not write all of the
/// value's bytes.
pub fn sys_task_info(manager: &mut TaskManager, ti: usize, now_ms: usize) -> (answer: isize)
    requires
        old(manager).wf(),
        old(manager)@.current_task().start_time matches Some(start) ==> start <= now_ms,
    ensures
        final(manager).wf(),
        task_info_effect(old(manager)@, final(manager)@, ti, now_ms, answer),
{
    let status = current_task_status(manager);
    let syscall_times = current_task_syscall_count(manager);
    let start_time = current_task_start_time(manager);
    if start_time.is_none() {
        return -1;
    }
    let time: usize = now_ms - start_time.unwrap();
    let task_info = TaskInfo::new(status, syscall_times, time);
    let ti_bytes = task_info.into_bytes();
    let ghost pre = manager@;
    proof {
        manager.lemma_wf();
    }
    let space = current_memory_set(manager);
    let done = write_translated_byte_buffer(space, ti, &ti_bytes);
    proof {
        if !done {
            assert(manager@.tasks =~= pre.tasks);
        }
    }
    if done {
        0
    } else {
        -1
    }
}

/// What a request to map or unmap `len` bytes from address `start` on
/// means: the pages to map or unmap, from the first to one past the last, or
/// nothing where the request is refused. `start` is read as an address of 39
/// bits. It has to be the first address of a page, and the bytes have to end
/// within the address space.
pub open spec fn page_span(start: usize, len: usize) -> Option<PageSpan> {
    let addr = start as int % 0x80_0000_0000;
    if addr % 4096 != 0 || addr + len > VA_LIMIT {
        None
    } else {
        Some(PageSpan { first: page_floor(addr), end: page_ceil(addr + len) })
    }
}

/// The flags with which a request to map maps its pages, or nothing where
/// the request is refused: `port` has to hold at least one of the three
/// permissions read, write and execute in its three low bits, and nothing
/// else. The pages are mapped valid, accessible in user mode, and with the
/// permissions asked for.
pub open spec fn port_flags(port: usize) -> Option<u8> {
    if port & !0x7usize != 0 || port & 0x7usize == 0 {
        None
    } else {
        Some((((port as u8) << 1u8) | PERM_U) | PTE_V)
    }
}

/// What a request to map answers, for the current task of `manager` and
/// while `free` frames are free: 0 where the pages are mapped, and -1 where
/// the request itself is refused, a page of its range is mapped already, or
/// too few frames are free.
pub open spec fn mmap_answer(
    manager: TaskManagerView,
    free: nat,
    start: usize,
    len: usize,
    port: usize,
) -> int {
    if page_span(start, len) matches Some(PageSpan { first, end }) && port_flags(port) is Some
        && manager.current_task().memory.insert_outcome(free, first, end, true) is Ok {
        0
    } else {
        -1
    }
}

/// What a request to unmap answers, for the current task of `manager`: 0
/// where the pages are unmapped, and -1 where the request itself is refused
/// or a page of its range has no frame of its own.
pub open spec fn munmap_answer(manager: TaskManagerView, start: usize, len: usize) -> int {
    if page_span(start, len) matches Some(PageSpan { first, end })
        && manager.current_task().memory.remove_outcome(first, end) is Ok {
        0
    } else {
        -1
    }
}

/// How the manager looks after a request to map was granted: the current
/// task's address space has the pages of the request mapped, each to a
/// cleared frame of its own; everything else is as it was.
pub open spec fn mmap_done(
    pre: TaskManagerView,
    post: TaskManagerView,
    start: usize,
    len: usize,
    port: usize,
) -> bool {
    &&& page_span(start, len) matches Some(PageSpan { first, end })
    &&& port_flags(port) matches Some(flags)
    &&& post == pre.with_memory(post.current_task().memory)
    &&& inserted(
        pre.current_task().memory,
        post.current_task().memory,
        first,
        end,
        flags,
        true,
    )
}

/// How the manager looks after a request to unmap was granted: the current
/// task's address space has the pages of the request no longer, and
/// everything else is as it was.
pub open spec fn munmap_done(
    pre: TaskManagerView,
    post: TaskManagerView,
    start: usize,
    len: usize,
) -> bool {
    &&& page_span(start, len) matches Some(PageSpan { first, end })
    &&& post == pre.with_memory(post.current_task().memory)
    &&& removed(pre.current_task().memory, post.current_task().memory, first, end)
}

/// Mapping a range and unmapping the same range at once gives every task's
/// mappings and memory back as they were before: the set of mapped pages of
/// the current task, its entries and the bytes of its frames are the same, and
/// nothing else has changed but the nodes of the translation tree that the
/// mapping brought.
pub proof fn lemma_mmap_munmap_round_trip(
    pre: TaskManagerView,
    mid: TaskManagerView,
    post: TaskManagerView,
    start: usize,
    len: usize,
    port: usize,
)
    requires
        0 <= pre.current < pre.tasks.len(),
        pre.current_task().memory.wf(),
        mmap_done(pre, mid, start, len, port),
        munmap_done(mid, post, start, len),
    ensures
        post.current == pre.current,
        post.tasks.len() == pre.tasks.len(),
        forall|i: int| 0 <= i < pre.tasks.len() && i != pre.current ==> post.tasks[i] == pre.tasks[i],
        post.current_task().memory.mappings == pre.current_task().memory.mappings,
        post.current_task().memory.mappings.dom() == pre.current_task().memory.mappings.dom(),
        post.current_task().memory.frames == pre.current_task().memory.frames,
        post.current_task().memory.root == pre.current_task().memory.root,
        post.current_task() == (TaskView {
            memory: post.current_task().memory,
            ..pre.current_task()
        }),
{
    let span = page_span(start, len).unwrap();
    let first = span.first;
    let end = span.end;
    let flags = port_flags(port).unwrap();
    crate::mm::memory_set::lemma_insert_remove_round_trip(
        pre.current_task().memory,
        mid.current_task().memory,
        post.current_task().memory,
        first,
        end,
        flags,
        true,
    );
}

/// What a request to map does: where it is granted it answers 0, the pages
/// are mapped to frames that were free and are free no longer, and the pool
/// has given as many frames as the mapping takes; where it is refused it
/// answers -1 and changes nothing.
pub open spec fn mmap_effect(
    pre: TaskManagerView,
    post: TaskManagerView,
    pool_pre: FrameAllocator,
    pool_post: FrameAllocator,
    start: usize,
    len: usize,
    port: usize,
    answer: isize,
) -> bool {
    &&& answer == mmap_answer(pre, pool_pre.free_count(), start, len, port)
    &&& answer == -1 ==> post == pre && pool_post == pool_pre
    &&& pool_post.spec_start() == pool_pre.spec_start()
    &&& pool_post.spec_end() == pool_pre.spec_end()
    &&& answer == 0 ==> {
        &&& mmap_done(pre, post, start, len, port)
        &&& forall|p: int| #[trigger]
            post.current_task().memory.owns(p) == (pre.current_task().memory.owns(p) || (
            pool_pre.is_free(p) && !pool_post.is_free(p)))
        &&& pre.current_task().memory.exclusive() && pre.current_task().memory.held_in(pool_pre)
            ==> post.current_task().memory.exclusive() && post.current_task().memory.held_in(
            pool_post,
        )
        &&& pool_post.free_count() == pool_pre.free_count()
            - pre.current_task().memory.frames_needed(
            page_span(start, len).unwrap().first,
            page_span(start, len).unwrap().end,
            true,
        )
        &&& forall|p: int| pool_post.is_free(p) ==> pool_pre.is_free(p)
        &&& forall|vpn: int|
            page_span(start, len).unwrap().first <= vpn < page_span(start, len).unwrap().end ==> {
                &&& pool_pre.is_free((#[trigger] post.current_task().memory.mappings[vpn]).spec_ppn())
                &&& !pool_post.is_free(post.current_task().memory.mappings[vpn].spec_ppn())
            }
    }
}

/// What a request to unmap does: where it is granted it answers 0, the pages
/// are unmapped, and the frames that they were mapped to are free; where it
/// is refused it answers -1 and changes nothing.
pub open spec fn munmap_effect(
    pre: TaskManagerView,
    post: TaskManagerView,
    pool_pre: FrameAllocator,
    pool_post: FrameAllocator,
    start: usize,
    len: usize,
    answer: isize,
) -> bool {
    &&& answer == munmap_answer(pre, start, len)
    &&& answer == -1 ==> post == pre && pool_post == pool_pre
    &&& pool_post.spec_start() == pool_pre.spec_start()
    &&& pool_post.spec_end() == pool_pre.spec_end()
    &&& answer == 0 ==> {
        &&& munmap_done(pre, post, start, len)
        &&& pre.current_task().memory.exclusive() && pre.current_task().memory.held_in(pool_pre)
            ==> {
            &&& post.current_task().memory.exclusive()
            &&& post.current_task().memory.held_in(pool_post)
            &&& forall|p: int| #[trigger]
                post.current_task().memory.owns(p) == (pre.current_task().memory.owns(p)
                    && !frame_in(
                    pre.current_task().memory.mappings,
                    page_span(start, len).unwrap().first,
                    page_span(start, len).unwrap().end,
                    p,
                ))
        }
        &&& forall|p: int|
            pool_post.is_free(p) == (pool_pre.is_free(p) || (pool_pre.manages(p) && frame_in(
                pre.current_task().memory.mappings,
                page_span(start, len).unwrap().first,
                page_span(start, len).unwrap().end,
                p,
            )))
    }
}

/// The pages that a request to map or unmap `len` bytes from address `start`
/// on means, or nothing where the request is refused.
fn request_span(start: usize, len: usize) -> (span: Option<(VirtPageNum, VirtPageNum)>)
    ensures
        page_span(start, len) matches Some(PageSpan { first, end }) ==> span == Some(
            (VirtPageNum(first as u64), VirtPageNum(end as u64)),
        ) && 0 <= first <= end <= VPN_LIMIT,
        page_span(start, len) is None ==> span is None,
{
    let start_va = VirtAddr::from_usize(start);
    if !start_va.aligned() {
        return None;
    }
    if len as u64 > VA_LIMIT - start_va.0 {
        return None;
    }
    let end: u64 = start_va.0 + len as u64;
    let first_vpn = start_va.floor();
    let end_vpn = VirtPageNum((end + 4095) / 4096);
    Some((first_vpn, end_vpn))
}

/// Maps `len` bytes from address `start` on into the current task's address
/// space, each page to a cleared frame of its own from `pool`, with the
/// permissions that `port` asks for in its three low bits: read, write,
/// execute. Answers 0, or -1 with nothing changed where `start` is not the
/// first address of a page, `port` holds a bit besides the three or none of
/// them, the bytes do not end within the address space, a page of the range
/// is mapped already, or `pool` has too few free frames.
pub fn sys_mmap(
    manager: &mut TaskManager,
    pool: &mut FrameAllocator,
    start: usize,
    len: usize,
    port: usize,
) -> (answer: isize)
    requires
        old(manager).wf(),
        old(pool).wf(),
    ensures
        final(manager).wf(),
        final(pool).wf(),
        final(pool).spec_start() == old(pool).spec_start(),
        final(pool).spec_end() == old(pool).spec_end(),
        mmap_effect(
            old(manager)@,
            final(manager)@,
            *old(pool),
            *final(pool),
            start,
            len,
            port,
            answer,
        ),
{
    let span = request_span(start, len);
    if span.is_none() {
        return -1;
    }
    if port & !0x7 != 0 {
        return -1;
    }
    if port & 0x7 == 0 {
        return -1;
    }
    let (first, end) = span.unwrap();
    let low: u8 = (port & 0x7) as u8;
    let bits: u8 = (low << 1) | PERM_U;
    proof {
        assert(port & !0x7usize == 0 ==> (port & 0x7usize) as u8 == port as u8) by (bit_vector);
        assert(low <= 7 ==> ((low << 1u8) | 0x10u8) & 0xe1u8 == 0) by (bit_vector);
        assert((port & 0x7usize) as u8 <= 7) by (bit_vector);
    }
    let permission = MapPermission::from_bits(bits).unwrap();
    let ghost pre = manager@;
    proof {
        manager.lemma_wf();
    }
    let space = current_memory_set(manager);
    let done = space.insert_framed_area(pool, first, end, permission);
    proof {
        if done is Err {
            assert(manager@.tasks =~= pre.tasks);
        }
    }
    match done {
        Ok(_) => 0,
        Err(_) => -1,
    }
}

/// Unmaps `len` bytes from address `start` on from the current task's address
/// space and gives their frames back to `pool`. Answers 0, or -1 with nothing
/// changed where `start` is not the first address of a page, the bytes do
/// not end within the address space, or a page of the range has no frame of
/// its own: it is not mapped, or it is the trampoline.
pub fn sys_munmap(manager: &mut TaskManager, pool: &mut FrameAllocator, start: usize, len: usize) -> (answer:
    isize)
    requires
        old(manager).wf(),
        old(pool).wf(),
    ensures
        final(manager).wf(),
        final(pool).wf(),
        final(pool).spec_start() == old(pool).spec_start(),
        final(pool).spec_end() == old(pool).spec_end(),
        munmap_effect(
            old(manager)@,
            final(manager)@,
            *old(pool),
            *final(pool),
            start,
            len,
            answer,
        ),
{
    let span = request_span(start, len);
    if span.is_none() {
        return -1;
    }
    let (first, end) = span.unwrap();
    let ghost pre = manager@;
    proof {
        manager.lemma_wf();
    }
    let space = current_memory_set(manager);
    let done = space.remove_framed_area(pool, first, end);
    proof {
        if done is Err {
            assert(manager@.tasks =~= pre.tasks);
        }
    }
    match done {
        Ok(_) => 0,
        Err(_) => -1,
    }
}

/// Moves the current task's program break by `size` bytes. Answers the break
/// as it was; or -1, with the break left where it is, where the break would
/// come to lie below the start of the heap or beyond the largest signed
/// number.
pub fn sys_sbrk(manager: &mut TaskManager, size: i32) -> (answer: isize)
    requires
        old(manager).wf(),
    ensures
        final(manager).wf(),
        sbrk_effect(old(manager)@, final(manager)@, size, answer),
{
    proof {
        manager.lemma_wf();
    }
    if let Some(old_brk) = change_program_brk(manager, size) {
        old_brk as isize
    } else {
        -1
    }
}

/// A task that asks what it may learn about itself before it has run is
/// answered -1, and nothing is stored: its memory and everything else are as
/// they were.
pub proof fn lemma_task_info_before_first_run(
    pre: TaskManagerView,
    post: TaskManagerView,
    ti: usize,
    now_ms: usize,
    answer: isize,
)
    requires
        pre.current_task().start_time is None,
        task_info_effect(pre, post, ti, now_ms, answer),
    ensures
        answer == -1,
        post == pre,
{
}

/// A request to map from an address that is not the first of a page is
/// answered -1 and maps nothing: the address spaces and the pool are as they
/// were.
pub proof fn lemma_mmap_refuses_misaligned_start(
    pre: TaskManagerView,
    post: TaskManagerView,
    pool_pre: FrameAllocator,
    pool_post: FrameAllocator,
    start: usize,
    len: usize,
    port: usize,
    answer: isize,
)
    requires
        start % 4096 != 0,
        mmap_effect(pre, post, pool_pre, pool_post, start, len, port, answer),
    ensures
        answer == -1,
        post == pre,
        pool_post == pool_pre,
{
    let wide = start as u64;
    assert((wide % 0x80_0000_0000u64) % 4096 == wide % 4096) by (bit_vector);
}

/// A request to map over a range of which a page is mapped already is
/// answered -1 and changes no mapping: the address spaces and the pool are
/// as they were.
pub proof fn lemma_mmap_refuses_mapped_page(
    pre: TaskManagerView,
    post: TaskManagerView,
    pool_pre: FrameAllocator,
    pool_post: FrameAllocator,
    start: usize,
    len: usize,
    port: usize,
    answer: isize,
    vpn: int,
)
    requires
        page_span(start, len) matches Some(span) && span.first <= vpn < span.end,
        pre.current_task().memory.mappings.contains_key(vpn),
        mmap_effect(pre, post, pool_pre, pool_post, start, len, port, answer),
    ensures
        answer == -1,
        post == pre,
        pool_post == pool_pre,
{
}

/// A request to unmap over a range of which a page is not mapped is answered
/// -1 and changes no mapping: the address spaces and the pool are as they
/// were.
pub proof fn lemma_munmap_refuses_unmapped_page(
    pre: TaskManagerView,
    post: TaskManagerView,
    pool_pre: FrameAllocator,
    pool_post: FrameAllocator,
    start: usize,
    len: usize,
    answer: isize,
    vpn: int,
)
    requires
        pre.current_task().memory.wf(),
        page_span(start, len) matches Some(span) && span.first <= vpn < span.end,
        !pre.current_task().memory.mappings.contains_key(vpn),
        munmap_effect(pre, post, pool_pre, pool_post, start, len, answer),
    ensures
        answer == -1,
        post == pre,
        pool_post == pool_pre,
{
    assert(!pre.current_task().memory.frames.contains_key(vpn));
}

/// A request to move the program break by nothing answers the break and
/// leaves it where it is. A request to move it below the start of the heap
/// is answered -1 and leaves it where it is.
pub proof fn lemma_sbrk_zero_and_below(
    pre: TaskManagerView,
    post: TaskManagerView,
    size: i32,
    answer: isize,
)
    requires
        pre.wf(),
        sbrk_effect(pre, post, size, answer),
    ensures
        size == 0 ==> answer == pre.current_task().program_brk && post == pre,
        pre.current_task().program_brk + size < pre.current_task().heap_bottom ==> answer == -1
            && post == pre,
{
    assert(pre.current_task().wf());
    if size == 0 {
        assert(post.tasks =~= pre.tasks);
    }
}

} // verus!
