//! Fixed layout constants of the kernel.
use vstd::prelude::*;

verus! {

/// Bytes in one page.
pub const PAGE_SIZE: usize = 4096;

/// Exclusive upper bound of user virtual addresses.
pub const MAXVA: usize = 0x4000_0000;

/// Page number one past the last user page.
pub const MAX_VPN: usize = 0x4_0000;

/// Virtual address of the trampoline page, the highest page of every space.
pub const TRAMPOLINE: usize = 0x3FFF_F000;

/// Virtual address of the trap-context page, just below the trampoline.
pub const TRAP_CONTEXT_BASE: usize = 0x3FFF_E000;

/// Top of the user stack; one unmapped guard page separates it from the
/// trap-context page.
pub const USER_STACK_TOP: usize = 0x3FFF_C000;

/// Size of a user stack.
pub const USER_STACK_SIZE: usize = 0x2000;

/// Size of a kernel stack.
pub const KERNEL_STACK_SIZE: usize = 0x2000;

/// Number of distinct system call numbers that are counted.
pub const MAX_SYSCALL_NUM: usize = 500;

/// Physical page number of the frame that holds the trampoline code.
pub const TRAMPOLINE_PPN: usize = 0;

/// Address at which the trap-return code starts.
pub const TRAP_RETURN_ADDR: usize = 0x8020_1000;

/// Address of the kernel's trap handler.
pub const TRAP_HANDLER_ADDR: usize = 0x8020_2000;

/// Token of the kernel's own address space.
pub const KERNEL_TOKEN: usize = 0x8008_0000;

/// Bytes of the task-information record written to user memory.
pub const TASK_INFO_SIZE: usize = 2016;

/// Lowest priority a task may be given.
pub const MIN_PRIORITY: isize = 2;

/// Priority of a newly created task.
pub const DEFAULT_PRIORITY: usize = 16;

/// Page number above every page of a program image.
pub const PROGRAM_LIMIT_VPN: usize = 0x3_0000;

/// Longest path name read from user space, in bytes.
pub const MAX_PATH_LEN: usize = 256;

} // verus!
