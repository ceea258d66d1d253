//! Data carried across the syscall entry and exit paths.
//!
//! The entry and exit trampolines themselves are hand-written assembly
//! (swapgs, stack switch, register save and restore, sysret) and live
//! outside this crate; these are the layouts they work against.

use vstd::prelude::*;

verus! {

/// Saved registers across syscalls: stored by the syscall handler on entry
/// and restored before returning to user mode.  The field order is the
/// order the entry path pushes them, so the struct mirrors the stack.
#[derive(Copy, Clone)]
pub struct SyscallSavedRegs {
    pub rax_syscall_idx: u64,
    pub rbx: u64,
    pub rcx_um_rip: u64,
    pub rdx_arg2: u64,
    pub rsp: u64,
    pub rbp: u64,
    pub rsi_arg1: u64,
    pub rdi_arg0: u64,
    pub r8_arg3: u64,
    pub r9: u64,
    pub r10: u64,
    pub r11_rflags: u64,
    pub r12: u64,
    pub r13: u64,
    pub r14: u64,
    pub r15: u64,
}

/// Per-CPU data the syscall entry reaches through the GS segment.
pub struct PerCpuData {
    /// Address of this CPU's kernel stack for syscall servicing.
    pub syscall_stack_base: usize,
    /// A place to temporarily save the user-mode stack pointer on syscall
    /// entry, so the kernel can load its own stack and start saving
    /// registers.
    pub syscall_temp_um_rsp: u64,
}

} // verus!
