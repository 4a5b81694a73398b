//! Tests for the free-list allocator, its header arithmetic, the aligned
//! adapter, and the locked global facade.

use rvkernel::simplealloc::Allocator;
use rvkernel::simplealloc::AllocationHeader;
use rvkernel::simplealloc::FreeLink;
use rvkernel::simplealloc::GlobalAllocator;
use rvkernel::simplealloc::Heap;
use rvkernel::math::is_ptr_aligned_by;

const ALLOCATION_ROUNDING_FACTOR: usize = 8;
const HEADER_SIZE: usize = 16;

#[test]
fn empty_heap_alloc() {
    let mut heap: Allocator = Default::default();
    assert_eq!(heap.allocate(1), 0);
}

#[test]
fn test_free_null() {
    let mut heap: Allocator = Default::default();
    heap.dealloc(0);
}

#[test]
fn test_simple_99_alloc_frees() {
    let arena = vec![0u8; 100 * (ALLOCATION_ROUNDING_FACTOR + HEADER_SIZE)];
    let mut heap: Allocator = Default::default();
    heap.init(arena);
    let mut allocd = [0usize; 100];
    // Doesn't go to 99 because of split fudge factor
    for i in 0..99 {
        let ptr = heap.allocate(ALLOCATION_ROUNDING_FACTOR);
        assert!(ptr != 0);
        allocd[i] = ptr;
    }
    let ptr = heap.allocate(ALLOCATION_ROUNDING_FACTOR);
    assert!(ptr == 0);
    for ptr in allocd.iter() {
        heap.dealloc(*ptr);
    }
}

#[test]
fn test_simple_100_alloc_frees() {
    // Magic +8 because of split fudge factor
    let arena = vec![0u8; 8 + 100 * (ALLOCATION_ROUNDING_FACTOR + HEADER_SIZE)];
    let mut heap: Allocator = Default::default();
    heap.init(arena);
    let mut allocd = [0usize; 100];
    for i in 0..100 {
        let ptr = heap.allocate(ALLOCATION_ROUNDING_FACTOR);
        assert!(ptr != 0);
        allocd[i] = ptr;
    }
    let ptr = heap.allocate(ALLOCATION_ROUNDING_FACTOR);
    assert!(ptr == 0);
    for ptr in allocd.iter() {
        heap.dealloc(*ptr);
    }
}

#[test]
fn test_refill_after_free() {
    // Freeing every block leaves the allocator able to satisfy a fresh
    // run of the same hundred allocations.
    let arena = vec![0u8; 8 + 100 * (ALLOCATION_ROUNDING_FACTOR + HEADER_SIZE)];
    let mut heap: Allocator = Default::default();
    heap.init(arena);
    let mut allocd = [0usize; 100];
    for i in 0..100 {
        let ptr = heap.allocate(ALLOCATION_ROUNDING_FACTOR);
        assert!(ptr != 0);
        allocd[i] = ptr;
    }
    for ptr in allocd.iter() {
        heap.dealloc(*ptr);
    }
    for i in 0..100 {
        let ptr = heap.allocate(ALLOCATION_ROUNDING_FACTOR);
        assert!(ptr != 0);
        allocd[i] = ptr;
    }
    assert_eq!(heap.allocate(ALLOCATION_ROUNDING_FACTOR), 0);
}

#[test]
fn test_exhaustion_exact_blocks() {
    // An arena sized for exactly four word-sized blocks with no split
    // slack: four allocations succeed with distinct pointers, the fifth
    // reports exhaustion.
    let k = 4;
    let arena = vec![0u8; 8 + k * (ALLOCATION_ROUNDING_FACTOR + HEADER_SIZE)];
    let mut heap: Allocator = Default::default();
    heap.init(arena);
    let mut seen = Vec::new();
    for _ in 0..k {
        let ptr = heap.allocate(ALLOCATION_ROUNDING_FACTOR);
        assert!(ptr != 0);
        assert!(!seen.contains(&ptr));
        seen.push(ptr);
    }
    assert_eq!(heap.allocate(ALLOCATION_ROUNDING_FACTOR), 0);
}

#[test]
fn test_live_ranges_disjoint() {
    // Two live allocations never overlap: both requested spans are at
    // least a rounded block apart.
    let arena = vec![0u8; 4096];
    let mut heap: Allocator = Default::default();
    heap.init(arena);
    let a = heap.allocate(24);
    let b = heap.allocate(24);
    assert!(a != 0 && b != 0 && a != b);
    let (lo, hi) = if a < b { (a, b) } else { (b, a) };
    assert!(lo + 24 <= hi);
    assert!(heap.is_used_ptr(a));
    assert!(heap.is_used_ptr(b));
    heap.dealloc(a);
    assert!(!heap.is_used_ptr(a));
    assert!(heap.is_used_ptr(b));
}

#[test]
fn allocation_header_basic() {
    let headers = [
        AllocationHeader { offset: 0, len: HEADER_SIZE, next_free: FreeLink::Used },
        AllocationHeader { offset: HEADER_SIZE, len: HEADER_SIZE, next_free: FreeLink::Used },
        AllocationHeader { offset: 2 * HEADER_SIZE, len: HEADER_SIZE, next_free: FreeLink::Used },
    ];
    assert_eq!(headers[0].allocation(), headers[1].offset);
    assert_eq!(headers[0].next(), headers[2].offset);
    assert!(!headers[0].is_splittable(1));
}

#[test]
fn allocation_header_split_basic() {
    let mut headers = [
        AllocationHeader { offset: 0, len: HEADER_SIZE * 4, next_free: FreeLink::End },
        AllocationHeader { offset: HEADER_SIZE, len: HEADER_SIZE * 2, next_free: FreeLink::End },
        AllocationHeader { offset: 2 * HEADER_SIZE, len: HEADER_SIZE, next_free: FreeLink::End },
        AllocationHeader { offset: 3 * HEADER_SIZE, len: HEADER_SIZE, next_free: FreeLink::End },
    ];
    assert!(headers[0].is_splittable(0));
    assert!(headers[0].is_splittable(HEADER_SIZE));
    assert!(headers[1].is_splittable(0));
    assert!(!headers[1].is_splittable(1));
    let splitee = headers[0].split_free(HEADER_SIZE);
    assert_eq!(splitee.offset, headers[2].offset);
}

#[test]
fn allocation_header_split_arithmetic() {
    // The two parts of a split and the new header add up exactly to the
    // original block, and the physical-successor chain is preserved.
    let mut h = AllocationHeader { offset: 32, len: 128, next_free: FreeLink::End };
    let original_len = h.len;
    let original_next = h.next();
    let splitee = h.split_free(40);
    assert_eq!(h.len + splitee.len + HEADER_SIZE, original_len);
    assert_eq!(h.next(), splitee.offset);
    assert_eq!(splitee.offset + HEADER_SIZE + splitee.len, original_next);
    assert!(!h.is_free());
    assert!(splitee.is_free());
}

#[test]
fn allocation_header_commutative() {
    let headers = [
        AllocationHeader { offset: 0, len: HEADER_SIZE, next_free: FreeLink::Used },
    ];
    assert_eq!(AllocationHeader::from_ptr(headers[0].allocation()), headers[0].offset);
}

fn seek_next_null(arr: &[usize], index: usize) -> Option<usize> {
    for i in index..arr.len() {
        if arr[i] == 0 {
            return Some(i);
        }
    }
    for i in 0..index {
        if arr[i] == 0 {
            return Some(i);
        }
    }
    None
}

fn seek_next_non_null(arr: &[usize], index: usize) -> Option<usize> {
    for i in index..arr.len() {
        if arr[i] != 0 {
            return Some(i);
        }
    }
    for i in 0..index {
        if arr[i] != 0 {
            return Some(i);
        }
    }
    None
}

struct XorShift(u64);

impl XorShift {
    fn next(&mut self) -> u64 {
        let mut x = self.0;
        x ^= x << 13;
        x ^= x >> 7;
        x ^= x << 17;
        self.0 = x;
        x
    }
}

#[test]
fn random_allocations() {
    const ARENA_BYTES: usize = 1000 * (ALLOCATION_ROUNDING_FACTOR + HEADER_SIZE);
    let arena = vec![0u8; ARENA_BYTES];
    let mut heap: Allocator = Default::default();
    heap.init(arena);
    const MAX_ALLOCATIONS: usize = 10000;
    let mut rng = XorShift(0x9e3779b97f4a7c15);
    let mut last_allocation = 0;
    let mut total_allocs: usize = 0;
    let mut last_free = 0;
    let mut allocations = [0usize; 100];
    const CHANCE_RANDOM_FREE: u64 = 4;
    for _ in 0..MAX_ALLOCATIONS {
        let this_time = rng.next();
        if total_allocs == allocations.len() || (this_time % CHANCE_RANDOM_FREE) == 0 {
            if let Some(this_free) = seek_next_non_null(&allocations, last_allocation) {
                assert!(heap.is_used_ptr(allocations[this_free]));
                heap.dealloc(allocations[this_free]);
                assert!(!heap.is_used_ptr(allocations[this_free]));
                allocations[this_free] = 0;
                last_free = this_free;
                total_allocs -= 1;
            } else {
                assert!(total_allocs == 0);
            }
        }
        let alloc_size = (rng.next() & 0xffff) as u16;
        if let Some(this_alloc) = seek_next_null(&allocations, last_free) {
            let ptr = heap.allocate(alloc_size as usize);
            if ptr != 0 {
                assert!(heap.is_used_ptr(ptr));
                allocations[this_alloc] = ptr;
                last_allocation = this_alloc;
                total_allocs += 1;
            }
        } else {
            // Shouldn't happen, we should have freed on above.
            assert_eq!(total_allocs, allocations.len());
        }
    }
    // No live block was lost or corrupted along the way.
    for p in allocations.iter() {
        if *p != 0 {
            assert!(heap.is_used_ptr(*p));
        }
    }
}

#[test]
fn test_aligned_alloc_dealloc() {
    // only supports alignments up to 2**16.
    const MAX_ALIGN_INCLUSIVE: usize = 16usize;
    let arena = vec![0u8; (1 << MAX_ALIGN_INCLUSIVE) * 2];
    let mut heap: Allocator = Default::default();
    heap.init(arena);
    let mut allocations = [0usize; 32 - 6];
    for i in 6..MAX_ALIGN_INCLUSIVE {
        let alignment = 1 << i;
        let ptr = heap.alloc_aligned(32, alignment);
        assert!(ptr != 0);
        assert!(is_ptr_aligned_by(ptr, alignment));
        allocations[i - 1] = ptr;
    }
    for i in 6..MAX_ALIGN_INCLUSIVE {
        heap.dealloc_aligned(allocations[i - 1]);
    }
}

#[test]
fn test_aligned_roundtrip_capacity() {
    // An aligned allocation followed by its aligned free hands the
    // capacity back: a full-arena allocation succeeds afterwards.
    let arena = vec![0u8; 4096];
    let mut heap: Allocator = Default::default();
    heap.init(arena);
    let p = heap.alloc_aligned(64, 64);
    assert!(p != 0);
    assert_eq!(p % 64, 0);
    heap.dealloc_aligned(p);
    // The freed base block is reusable in full.
    let q = heap.allocate(128);
    assert!(q != 0);
}

#[test]
fn test_heap_wrapper_validates() {
    let mut heap = Heap::new();
    heap.init(vec![0u8; 1024]);
    let p = heap.allocate(16);
    assert!(p != 0);
    // A foreign pointer is rejected rather than corrupting the heap.
    heap.deallocate(p + 4);
    heap.deallocate(0);
    heap.deallocate(p);
    // The freed block sits at the list head and is handed out again.
    let q = heap.allocate(16);
    assert_eq!(q, p);
}

#[test]
fn test_heap_aligned_validated() {
    let mut heap = Heap::new();
    heap.init(vec![0u8; 4096]);
    let p = heap.allocate_aligned(64, 64);
    assert!(p != 0);
    assert_eq!(p % 64, 0);
    // A bogus aligned free (no valid back pointer below it) is ignored.
    heap.deallocate_aligned(24);
    // The real one frees the base block for reuse.
    heap.deallocate_aligned(p);
    let q = heap.allocate(128);
    assert!(q != 0);
}

#[test]
fn test_global_allocator_lock_paths() {
    let global = GlobalAllocator::new();
    // Before init: exhausted.
    assert_eq!(global.allocate(8, 8), 0);
    global.init(vec![0u8; 8192]);
    let a = global.allocate(32, 8);
    assert!(a != 0);
    assert_eq!(a % 8, 0);
    let b = global.allocate(32, 256);
    assert!(b != 0);
    assert_eq!(b % 256, 0);
    global.deallocate(a, 8);
    global.deallocate(b, 256);
    // The freed blocks are reusable.
    let c = global.allocate(32, 8);
    assert!(c != 0);
}
