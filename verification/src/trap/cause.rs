//! From the cause register to the cause of a trap.
//!
//! The hardware reports why it trapped as a number: the highest bit tells an
//! interrupt from an exception, and the other bits hold a code. The names of
//! the codes are those of the `riscv` crate, whose tables are called here and
//! not proved.

use vstd::prelude::*;
use riscv::register::scause::{Exception, Interrupt};
use crate::trap::TrapCause;

verus! {

/// The exceptions that the hardware tells apart.
#[derive(Clone, Copy, PartialEq, Eq, Structural, Debug)]
pub enum ExceptionKind {
    InstructionMisaligned,
    InstructionFault,
    IllegalInstruction,
    Breakpoint,
    LoadFault,
    StoreMisaligned,
    StoreFault,
    UserEnvCall,
    InstructionPageFault,
    LoadPageFault,
    StorePageFault,
    Unknown,
}

/// The interrupts that the hardware tells apart.
#[derive(Clone, Copy, PartialEq, Eq, Structural, Debug)]
pub enum InterruptKind {
    UserSoft,
    SupervisorSoft,
    UserTimer,
    SupervisorTimer,
    UserExternal,
    SupervisorExternal,
    Unknown,
}

/// The exception that `code` stands for.
pub open spec fn exception_kind(code: usize) -> ExceptionKind {
    if code == 0 {
        ExceptionKind::InstructionMisaligned
    } else if code == 1 {
        ExceptionKind::InstructionFault
    } else if code == 2 {
        ExceptionKind::IllegalInstruction
    } else if code == 3 {
        ExceptionKind::Breakpoint
    } else if code == 5 {
        ExceptionKind::LoadFault
    } else if code == 6 {
        ExceptionKind::StoreMisaligned
    } else if code == 7 {
        ExceptionKind::StoreFault
    } else if code == 8 {
        ExceptionKind::UserEnvCall
    } else if code == 12 {
        ExceptionKind::InstructionPageFault
    } else if code == 13 {
        ExceptionKind::LoadPageFault
    } else if code == 15 {
        ExceptionKind::StorePageFault
    } else {
        ExceptionKind::Unknown
    }
}

/// The interrupt that `code` stands for.
pub open spec fn interrupt_kind(code: usize) -> InterruptKind {
    if code == 0 {
        InterruptKind::UserSoft
    } else if code == 1 {
        InterruptKind::SupervisorSoft
    } else if code == 4 {
        InterruptKind::UserTimer
    } else if code == 5 {
        InterruptKind::SupervisorTimer
    } else if code == 8 {
        InterruptKind::UserExternal
    } else if code == 9 {
        InterruptKind::SupervisorExternal
    } else {
        InterruptKind::Unknown
    }
}

/// The exception that `code` stands for, as `Exception::from` of the `riscv`
/// crate names it. Taken on trust: that function maps the codes 0 to 3, 5 to
/// 8, 12, 13 and 15 to the eleven exceptions in their order, and every other
/// code to `Unknown`.
#[verifier::external_body]
fn exception_from(code: usize) -> (kind: ExceptionKind)
    ensures
        kind == exception_kind(code),
{
    match Exception::from(code) {
        Exception::InstructionMisaligned => ExceptionKind::InstructionMisaligned,
        Exception::InstructionFault => ExceptionKind::InstructionFault,
        Exception::IllegalInstruction => ExceptionKind::IllegalInstruction,
        Exception::Breakpoint => ExceptionKind::Breakpoint,
        Exception::LoadFault => ExceptionKind::LoadFault,
        Exception::StoreMisaligned => ExceptionKind::StoreMisaligned,
        Exception::StoreFault => ExceptionKind::StoreFault,
        Exception::UserEnvCall => ExceptionKind::UserEnvCall,
        Exception::InstructionPageFault => ExceptionKind::InstructionPageFault,
        Exception::LoadPageFault => ExceptionKind::LoadPageFault,
        Exception::StorePageFault => ExceptionKind::StorePageFault,
        Exception::Unknown => ExceptionKind::Unknown,
    }
}

/// The interrupt that `code` stands for, as `Interrupt::from` of the `riscv`
/// crate names it. Taken on trust: that function maps the codes 0, 1, 4, 5, 8
/// and 9 to the six interrupts in their order, and every other code to
/// `Unknown`.
#[verifier::external_body]
fn interrupt_from(code: usize) -> (kind: InterruptKind)
    ensures
        kind == interrupt_kind(code),
{
    match Interrupt::from(code) {
        Interrupt::UserSoft => InterruptKind::UserSoft,
        Interrupt::SupervisorSoft => InterruptKind::SupervisorSoft,
        Interrupt::UserTimer => InterruptKind::UserTimer,
        Interrupt::SupervisorTimer => InterruptKind::SupervisorTimer,
        Interrupt::UserExternal => InterruptKind::UserExternal,
        Interrupt::SupervisorExternal => InterruptKind::SupervisorExternal,
        Interrupt::Unknown => InterruptKind::Unknown,
    }
}

/// Whether the cause register's value `scause` reports an interrupt: its
/// highest bit is set.
pub open spec fn is_interrupt(scause: usize) -> bool {
    scause > usize::MAX / 2
}

/// The code that the cause register's value `scause` holds: the value
/// without its highest bit.
pub open spec fn cause_code(scause: usize) -> usize {
    if is_interrupt(scause) {
        (scause - usize::MAX / 2 - 1) as usize
    } else {
        scause
    }
}

/// What the cause register's value `scause` means to the kernel: the
/// supervisor's timer interrupt; the call of the environment from user mode,
/// which is a system call; an illegal instruction; or a fault of an access
/// to memory, be it a fetch, a load or a store, and be the page missing or
/// the access forbidden. Every other trap means nothing to the kernel.
pub open spec fn spec_from_scause(scause: usize) -> Option<TrapCause> {
    if is_interrupt(scause) {
        match interrupt_kind(cause_code(scause)) {
            InterruptKind::SupervisorTimer => Some(TrapCause::TimerInterrupt),
            _ => None,
        }
    } else {
        match exception_kind(cause_code(scause)) {
            ExceptionKind::UserEnvCall => Some(TrapCause::Syscall),
            ExceptionKind::IllegalInstruction => Some(TrapCause::IllegalInstruction),
            ExceptionKind::InstructionFault
            | ExceptionKind::LoadFault
            | ExceptionKind::StoreFault
            | ExceptionKind::InstructionPageFault
            | ExceptionKind::LoadPageFault
            | ExceptionKind::StorePageFault => Some(TrapCause::MemoryFault),
            _ => None,
        }
    }
}

impl TrapCause {
    /// What the cause register's value `scause` means to the kernel, or
    /// nothing where the kernel has no answer to the trap.
    pub fn from_scause(scause: usize) -> (cause: Option<TrapCause>)
        ensures
            cause == spec_from_scause(scause),
    {
        let half: usize = usize::MAX / 2;
        if scause > half {
            match interrupt_from(scause - half - 1) {
                InterruptKind::SupervisorTimer => Some(TrapCause::TimerInterrupt),
                _ => None,
            }
        } else {
            match exception_from(scause) {
                ExceptionKind::UserEnvCall => Some(TrapCause::Syscall),
                ExceptionKind::IllegalInstruction => Some(TrapCause::IllegalInstruction),
                ExceptionKind::InstructionFault
                | ExceptionKind::LoadFault
                | ExceptionKind::StoreFault
                | ExceptionKind::InstructionPageFault
                | ExceptionKind::LoadPageFault
                | ExceptionKind::StorePageFault => Some(TrapCause::MemoryFault),
                _ => None,
            }
        }
    }
}

} // verus!
