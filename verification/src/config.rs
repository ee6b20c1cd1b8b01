//! Platform constants of the kernel.
use vstd::prelude::*;

verus! {

/// Bytes in a page.
pub const PAGE_SIZE: usize = 0x1000;

/// End of physical memory; user mappings must lie below it.
pub const MEMORY_END: usize = 0x8800_0000;

/// Number of syscall ids the kernel keeps counters for.
pub const MAX_SYSCALL_NUM: usize = 500;

} // verus!
