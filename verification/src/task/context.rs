//! The kernel-side registers of a task that is not running.

use vstd::prelude::*;

verus! {

/// What a switch away from a task saves of its kernel execution, and what a
/// switch to it loads again: the return address, the stack pointer and the
/// twelve registers that a callee preserves.
#[derive(Clone, Copy, Debug)]
pub struct TaskContext {
    /// The address at which the task's kernel execution resumes.
    pub ra: usize,
    /// The task's kernel stack pointer.
    pub sp: usize,
    /// The callee-saved registers s0 to s11.
    pub s: [usize; 12],
}

impl TaskContext {
    /// A context with every register zero. The first switch of the kernel
    /// saves into such a context what it never loads again.
    pub fn zero_init() -> (cx: TaskContext)
        ensures
            cx.ra == 0,
            cx.sp == 0,
            cx.s@ == Seq::new(12, |i: int| 0usize),
    {
        let cx = TaskContext { ra: 0, sp: 0, s: [0; 12] };
        assert(cx.s@ =~= Seq::new(12, |i: int| 0usize));
        cx
    }

    /// The context of a task that has not run yet: its first switch resumes
    /// at `trap_return`, the kernel's way back into user mode, on the kernel
    /// stack whose top is `kstack_ptr`.
    pub fn goto_trap_return(trap_return: usize, kstack_ptr: usize) -> (cx: TaskContext)
        ensures
            cx.ra == trap_return,
            cx.sp == kstack_ptr,
            cx.s@ == Seq::new(12, |i: int| 0usize),
    {
        let cx = TaskContext { ra: trap_return, sp: kstack_ptr, s: [0; 12] };
        assert(cx.s@ =~= Seq::new(12, |i: int| 0usize));
        cx
    }
}

} // verus!
