//! The register snapshot that crosses the boundary between user and kernel.

use vstd::prelude::*;

verus! {

/// The bit of the status register that records the privilege level that a
/// trap came from, and to which the return from a trap goes back.
pub const SSTATUS_SPP: usize = 0x100;

/// The index of the stack pointer among the general registers.
pub const REG_SP: usize = 2;

/// What a task's user-mode execution consists of at the moment of a trap,
/// and what the kernel needs to find its way back in. The order and the size
/// of the fields are fixed: the code that enters and leaves the kernel reads
/// and writes them by their offsets.
#[derive(Clone, Copy, Debug)]
pub struct TrapContext {
    /// The general registers x0 to x31.
    pub x: [usize; 32],
    /// The status register.
    pub sstatus: usize,
    /// The program counter at which user execution resumes.
    pub sepc: usize,
    /// The translation-root token of the kernel's address space.
    pub kernel_satp: usize,
    /// The top of the task's kernel stack.
    pub kernel_sp: usize,
    /// The address of the kernel's trap handler.
    pub trap_handler: usize,
}

impl TrapContext {
    /// Sets the user stack pointer, register x2.
    pub fn set_sp(&mut self, sp: usize)
        ensures
            final(self).x@ == old(self).x@.update(REG_SP as int, sp),
            final(self).sstatus == old(self).sstatus,
            final(self).sepc == old(self).sepc,
            final(self).kernel_satp == old(self).kernel_satp,
            final(self).kernel_sp == old(self).kernel_sp,
            final(self).trap_handler == old(self).trap_handler,
    {
        self.x[REG_SP] = sp;
    }

    /// The context from which a task starts: it enters user mode at `entry`
    /// with the stack pointer `sp` and all other general registers zero.
    /// `sstatus` is the status register as it reads now; the context holds it
    /// with the previous-privilege bit cleared, so that the return from the
    /// trap goes to user mode.
    pub fn app_init_context(
        entry: usize,
        sp: usize,
        kernel_satp: usize,
        kernel_sp: usize,
        trap_handler: usize,
        sstatus: usize,
    ) -> (cx: TrapContext)
        ensures
            cx.x@ == Seq::new(32, |i: int| if i == REG_SP { sp } else { 0usize }),
            cx.sstatus == sstatus & !SSTATUS_SPP,
            cx.sstatus & SSTATUS_SPP == 0,
            cx.sepc == entry,
            cx.kernel_satp == kernel_satp,
            cx.kernel_sp == kernel_sp,
            cx.trap_handler == trap_handler,
    {
        let cleared: usize = sstatus & !SSTATUS_SPP;
        assert((sstatus & !0x100usize) & 0x100usize == 0) by (bit_vector);
        let mut cx = TrapContext {
            x: [0; 32],
            sstatus: cleared,
            sepc: entry,
            kernel_satp,
            kernel_sp,
            trap_handler,
        };
        cx.set_sp(sp);
        assert(cx.x@ =~= Seq::new(32, |i: int| if i == REG_SP { sp } else { 0usize }));
        cx
    }
}

} // verus!
