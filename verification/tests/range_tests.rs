//! Tests for ranges, the sorted range set, and the physical-range
//! allocator built on it.

use rvkernel::range::Range;
use rvkernel::range::RangeSet;
use rvkernel::phys::PhysicalRangeAllocator;

#[test]
fn basic_find_insert() {
    let mut rs = RangeSet::empty();
    rs.insert(Range::new(0, 0x1000));
    rs.insert(Range::new(0x2000, 0x4000));
    rs.insert(Range::new(0x5000, 0x6000));
    rs.insert(Range::new(0x6000, 0x7000));
    assert_eq!(rs.len(), 3);
    assert_eq!(rs.find(0x1000), Some(Range::new(0, 0x1000)));
    assert_eq!(rs.len(), 2);
    assert_eq!(rs.find(0x1000000), None);
    assert_eq!(rs.len(), 2);
    assert_eq!(rs.find(0x2000), Some(Range::new(0x2000, 0x4000)));
    assert_eq!(rs.len(), 1);
    assert_eq!(rs.find(0x1000), Some(Range::new(0x6000, 0x7000)));
    assert_eq!(rs.len(), 1);
    assert_eq!(rs.find(0x1000), Some(Range::new(0x5000, 0x6000)));
    assert_eq!(rs.len(), 0);
    assert_eq!(rs.find(0x1000), None);
    assert_eq!(rs.len(), 0);
}

#[test]
fn range_len_and_predicates() {
    let a = Range::new(0x1000, 0x3000);
    let b = Range::new(0x3000, 0x4000);
    let c = Range::new(0x2000, 0x2800);
    assert_eq!(a.len(), 0x2000);
    assert!(a.can_merge(&b));
    assert!(!a.can_merge(&c));
    assert!(a.contains(&c));
    assert!(a.overlaps(&c));
    assert!(!a.overlaps(&b));
    assert!(a.starts_before(&b));
    assert!(a.can_split(0x1000));
    let mut m = a;
    m.merge(b);
    assert_eq!(m, Range::new(0x1000, 0x4000));
}

#[test]
fn range_split_takes_top() {
    let mut r = Range::new(0x10000, 0x14000);
    let top = r.split(0x1000);
    assert_eq!(top, Range::new(0x13000, 0x14000));
    assert_eq!(r, Range::new(0x10000, 0x13000));
}

#[test]
fn find_exact_fit_needs_no_alignment() {
    // A take that hits a range of exactly the wanted size never splits,
    // so it works for sizes that are not whole pages.
    let mut rs = RangeSet::empty();
    rs.insert(Range::new(0x100, 0x900));
    assert_eq!(rs.find(0x800), Some(Range::new(0x100, 0x900)));
    assert_eq!(rs.len(), 0);
}

#[test]
fn phys_allocator_roundtrip() {
    let mut pa = PhysicalRangeAllocator::empty();
    assert!(pa.allocate(0x1000).is_none());
    pa.release(Range::new(0x8000, 0xb000));
    let taken = pa.allocate(0x1000).expect("one page");
    let (start, end) = taken.bits();
    assert_eq!(end - start, 0x1000);
    assert!(start >= 0x8000 && end <= 0xb000);
    let rest = pa.allocate(0x2000).expect("two pages");
    let (s2, e2) = rest.bits();
    assert_eq!(e2 - s2, 0x2000);
    assert!(pa.allocate(0x1000).is_none());
}
