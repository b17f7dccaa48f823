//! Register records exchanged when control moves between tasks or between
//! user and kernel mode.
use vstd::prelude::*;
use crate::config::{TRAP_RETURN_ADDR};

verus! {

/// The callee-saved registers that resume a task's kernel-mode execution.
#[derive(Clone, Copy, Debug)]
pub struct TaskContext {
    /// Address at which execution resumes.
    pub ra: usize,
    /// Kernel stack pointer.
    pub sp: usize,
    /// Registers s0 to s11.
    pub s: [usize; 12],
}

impl TaskContext {
    /// An all-zero context, a placeholder that is never resumed.
    pub fn zero_init() -> (r: TaskContext)
        ensures
            r.ra == 0,
            r.sp == 0,
            forall|i: int| 0 <= i < 12 ==> r.s@[i] == 0,
    {
        TaskContext { ra: 0, sp: 0, s: [0usize; 12] }
    }

    /// A context whose first resume returns to user mode through the trap
    /// return path, on the kernel stack whose top is `kstack_ptr`.
    pub fn goto_trap_return(kstack_ptr: usize) -> (r: TaskContext)
        ensures
            r.ra == TRAP_RETURN_ADDR,
            r.sp == kstack_ptr,
            forall|i: int| 0 <= i < 12 ==> r.s@[i] == 0,
    {
        TaskContext { ra: TRAP_RETURN_ADDR, sp: kstack_ptr, s: [0usize; 12] }
    }
}

/// The user-mode registers saved on a trap, with what the trap entry needs to
/// reach the kernel.
pub struct TrapContext {
    /// General registers x0 to x31.
    pub x: Vec<usize>,
    /// User program counter to return to.
    pub sepc: usize,
    /// Token of the kernel address space.
    pub kernel_satp: usize,
    /// Top of the task's kernel stack.
    pub kernel_sp: usize,
    /// Address of the trap handler.
    pub trap_handler: usize,
}

impl TrapContext {
    /// The context in which a task first enters user mode: at `entry`, with
    /// stack pointer `sp` and all other registers zero.
    pub fn app_init_context(
        entry: usize,
        sp: usize,
        kernel_satp: usize,
        kernel_sp: usize,
        trap_handler: usize,
    ) -> (r: TrapContext)
        ensures
            r.x@.len() == 32,
            forall|i: int| 0 <= i < 32 && i != 2 ==> r.x@[i] == 0,
            r.x@[2] == sp,
            r.sepc == entry,
            r.kernel_satp == kernel_satp,
            r.kernel_sp == kernel_sp,
            r.trap_handler == trap_handler,
    {
        let mut x: Vec<usize> = Vec::new();
        let mut i: usize = 0;
        while i < 32
            invariant
                i <= 32,
                x@.len() == i,
                forall|j: int| 0 <= j < i ==> x@[j] == if j == 2 { sp } else { 0 },
            decreases 32 - i,
        {
            x.push(if i == 2 { sp } else { 0 });
            i = i + 1;
        }
        TrapContext { x, sepc: entry, kernel_satp, kernel_sp, trap_handler }
    }

    /// A copy of this context.
    pub fn duplicate(&self) -> (r: TrapContext)
        ensures
            r.x@ == self.x@,
            r.sepc == self.sepc,
            r.kernel_satp == self.kernel_satp,
            r.kernel_sp == self.kernel_sp,
            r.trap_handler == self.trap_handler,
    {
        let mut x: Vec<usize> = Vec::new();
        let mut i: usize = 0;
        while i < self.x.len()
            invariant
                i <= self.x@.len(),
                x@ == self.x@.subrange(0, i as int),
            decreases self.x@.len() - i,
        {
            x.push(self.x[i]);
            i = i + 1;
            assert(x@ =~= self.x@.subrange(0, i as int));
        }
        assert(x@ =~= self.x@);
        TrapContext {
            x,
            sepc: self.sepc,
            kernel_satp: self.kernel_satp,
            kernel_sp: self.kernel_sp,
            trap_handler: self.trap_handler,
        }
    }
}

} // verus!
