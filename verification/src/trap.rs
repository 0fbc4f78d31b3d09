//! The trap context saved for a task when it enters the kernel.
use vstd::prelude::*;

verus! {

/// Registers saved on a trap, and what the trap handler needs to get back
/// into the kernel.
#[derive(Clone, Copy, Debug)]
pub struct TrapContext {
    /// General-purpose registers x0..x31.
    pub x: [usize; 32],
    /// Where the task resumes in user mode.
    pub sepc: usize,
    /// Token of the kernel address space.
    pub kernel_satp: usize,
    /// Top of the task's kernel stack.
    pub kernel_sp: usize,
    /// Address of the trap handler.
    pub trap_handler: usize,
}

impl TrapContext {
    /// A context that starts a task at `entry` with user stack pointer `sp`.
    pub fn app_init_context(
        entry: usize,
        sp: usize,
        kernel_satp: usize,
        kernel_sp: usize,
        trap_handler: usize,
    ) -> (cx: Self)
        ensures
            cx.x@ == Seq::new(32, |i: int| 0usize).update(2, sp),
            cx.sepc == entry,
            cx.kernel_satp == kernel_satp,
            cx.kernel_sp == kernel_sp,
            cx.trap_handler == trap_handler,
    {
        let mut x: [usize; 32] = [0usize; 32];
        x[2] = sp;
        proof {
            assert(x@ =~= Seq::new(32, |i: int| 0usize).update(2, sp));
        }
        TrapContext { x, sepc: entry, kernel_satp, kernel_sp, trap_handler }
    }
}

} // verus!
