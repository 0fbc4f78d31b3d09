use vstd::prelude::*;

verus! {

/// Size of one page in bytes.
pub const PAGE_SIZE: usize = 4096;

/// Number of low address bits that index a byte inside a page.
pub const PAGE_SIZE_BITS: usize = 12;

/// Most applications the kernel loads.
pub const MAX_APP_NUM: usize = 16;

/// Number of system call ids whose use is counted.
pub const MAX_SYSCALL_NUM: usize = 500;

/// The stride budget that a task's pass divides by its priority.
pub const BIG_STRIDE: usize = 65536;

/// Size of one user stack in bytes.
pub const USER_STACK_SIZE: usize = 8192;

/// Bytes in one machine word.
pub const WORD_BYTES: usize = 8;

/// The page that maps the trampoline: the last page of the address space.
pub const TRAMPOLINE: usize = usize::MAX - PAGE_SIZE + 1;

/// The page below the trampoline, where trap contexts start.
pub const TRAP_CONTEXT_BASE: usize = TRAMPOLINE - PAGE_SIZE;

/// Returns the number of pages needed to hold `len` bytes.
pub fn page_count(len: usize) -> (n: usize)
    ensures
        n as int == (len as int + PAGE_SIZE - 1) / PAGE_SIZE as int,
{
    if len % PAGE_SIZE == 0 {
        len / PAGE_SIZE
    } else {
        len / PAGE_SIZE + 1
    }
}

} // verus!
