//! Heap management for a freestanding kernel, with the allocator's block and
//! free-list logic verified, together with the arithmetic, range-set and
//! device-tree helpers that surround it at boot time.

pub mod constants;
pub mod debug;
pub mod device_tree;
pub mod heap;
pub mod mmio;
pub mod math;
pub mod mutex;
pub mod phys;
pub mod range;
pub mod simplealloc;
pub mod trap;
pub mod uart;

