//! Useful constants and memory-attribute enumerations.

use vstd::prelude::*;

verus! {

pub const KB: usize = 1024;

pub const MB: usize = 1024 * KB;

pub const GB: usize = 1024 * MB;

pub const TB: u64 = 1024 * (GB as u64);

pub const PAGE_SIZE: usize = 0x1000;

pub const LARGE_PAGE_SIZE: usize = 2 * MB;

pub const HUGE_PAGE_SIZE: usize = GB;

pub const GIANT_PAGE_SIZE: u64 = 512 * (GB as u64);

pub const LAST_PAGE: u64 = 0xffff_ffff_ffff_f000;

pub const LAST_GIANT_PAGE: u64 = LAST_PAGE - GIANT_PAGE_SIZE;

/// How a mapped region may be reached from supervisor or user mode.
pub enum MemoryAccess {
    SupervisorReadable,
    SupervisorWritable,  // implies Readable.
    SupervisorExecutable,  // implies Readable but not Writable.
    UserReadable,  // can be read by supervisor if you use copy_from_user.
    UserWritable,  // can be written by supervisor if you use copy_to_user.
    UserExecutable,  // implies not *Writable.
}

/// Cacheability of a mapped region.
pub enum MemoryCacheability {
    Uncached,
    WriteBack,
    WriteThrough,
}

} // verus!
