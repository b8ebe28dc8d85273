//! Fixed parameters of the kernel.

use vstd::prelude::*;

verus! {

/// Size of the kernel stack of one task, in bytes.
pub const KERNEL_STACK_SIZE: usize = 4096 * 2;

/// Size of the kernel heap, in bytes.
pub const KERNEL_HEAP_SIZE: usize = 0x200_0000;

/// Size of the user stack of one task, in bytes.
pub const USER_STACK_SIZE: usize = 4096 * 2;

/// Size of one page, in bytes.
pub const PAGE_SIZE: usize = 0x1000;

/// Number of address bits that select a byte within a page.
pub const PAGE_SIZE_BITS: usize = 0xc;

/// Virtual address of the trampoline page: the highest page of the address space.
pub const TRAMPOLINE: usize = usize::MAX - PAGE_SIZE + 1;

/// Virtual address of the page that holds a task's trap context.
pub const TRAP_CONTEXT_BASE: usize = TRAMPOLINE - PAGE_SIZE;

/// Frequency of the platform's monotonic counter, in ticks per second.
pub const CLOCK_FREQ: usize = 12500000;

/// Size of the id space of the system calls that are counted per task.
pub const MAX_SYSCALL_NUM: usize = 500;

/// End of physical memory.
pub const MEMORY_END: u64 = 0x88000000;

/// The distance between the kernel stacks of two tasks: a stack and a page
/// that is not mapped, which guards the next stack against this one.
pub const KERNEL_STACK_STRIDE: usize = KERNEL_STACK_SIZE + PAGE_SIZE;

/// Where the kernel stack of task `app_id` lies in the kernel's address
/// space, as its bottom and its top. The stack of task 0 ends at the
/// trampoline, and the stack of each further task lies a stride below that
/// of the task before. Nothing is returned where the address space has no
/// room for the stack.
pub fn kernel_stack_position(app_id: usize) -> (position: Option<(usize, usize)>)
    ensures
        position is Some <==> app_id * KERNEL_STACK_STRIDE + KERNEL_STACK_SIZE <= TRAMPOLINE,
        position matches Some((bottom, top)) ==> {
            &&& top == TRAMPOLINE - app_id * KERNEL_STACK_STRIDE
            &&& bottom == top - KERNEL_STACK_SIZE
        },
{
    if app_id > (TRAMPOLINE - KERNEL_STACK_SIZE) / KERNEL_STACK_STRIDE {
        return None;
    }
    let top: usize = TRAMPOLINE - app_id * KERNEL_STACK_STRIDE;
    Some((top - KERNEL_STACK_SIZE, top))
}

} // verus!
