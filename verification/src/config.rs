//! Constants of the kernel: page geometry, stack and heap sizes.
use vstd::prelude::*;

verus! {

/// Default kernel stack size for each process.
pub const KERNEL_STACK_SIZE: usize = 131072;

/// Default user stack size.
pub const USER_STACK_SIZE: usize = 131072;

/// Kernel heap size, used in dynamic memory allocation.
pub const KERNEL_HEAP_SIZE: usize = 0x100000;

/// Bits representing the page offset.
pub const PAGE_OFFSET: usize = 12;

/// 4 KiB per page.
pub const PAGE_SIZE: usize = 4096;

/// Where the trampoline, the code that switches privilege levels, is mapped:
/// the last page of the address space.
pub const TRAMPOLINE: usize = usize::MAX - PAGE_SIZE + 1;

/// Where the trap context is mapped: the page below the trampoline.
pub const TRAP_CONTEXT: usize = usize::MAX - PAGE_SIZE - PAGE_SIZE + 1;

/// End of the physical memory managed by the kernel.
pub const MEM_END: usize = 0x90000000;

/// Maximum size of a pipe's ring buffer.
pub const PIP_BUF_MAX: usize = 65536;

/// Length of each field of `struct uname`.
pub const UTSNAME_LEN: usize = 65;

} // verus!
