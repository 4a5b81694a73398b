//! The coarse physical-memory allocator: whole page ranges handed out of
//! a range set.

use vstd::prelude::*;
use crate::constants::PAGE_SIZE;
use crate::range::Range;
use crate::range::RangeSet;
use crate::range::covers_minus;
use crate::range::covers_union;
use crate::range::covers_within;
use crate::range::seq_covers;

verus! {

/// A span of physical pages handed out by the range allocator.
pub struct PhysicalRange {
    rg: Range,
}

impl PhysicalRange {
    /// The covered addresses.
    pub closed spec fn view(self) -> Range {
        self.rg
    }

    /// Rebuild a range from its endpoints; for the paging code, which
    /// stores ranges in page tables and recovers them later.
    pub fn remake(start: usize, end: usize) -> (r: PhysicalRange)
        requires
            start <= end,
        ensures
            r@ == (Range { start, end }),
    {
        PhysicalRange { rg: Range::new(start, end) }
    }

    /// The range's endpoints.
    pub fn bits(self) -> (r: (usize, usize))
        ensures
            r.0 == self@.start,
            r.1 == self@.end,
    {
        (self.rg.start, self.rg.end)
    }
}

/// Allocates whole page ranges out of a set of free physical ranges.
pub struct PhysicalRangeAllocator {
    rs: RangeSet,
}

impl PhysicalRangeAllocator {
    /// The free ranges.
    pub closed spec fn view(self) -> Seq<Range> {
        self.rs@
    }

    /// The free set is well formed.
    pub closed spec fn wf(self) -> bool {
        self.rs.wf()
    }

    /// An allocator with no free memory.
    pub fn empty() -> (r: PhysicalRangeAllocator)
        ensures
            r.wf(),
            r@ == Seq::<Range>::empty(),
    {
        PhysicalRangeAllocator { rs: RangeSet::empty() }
    }

    /// Give a free range of physical memory to the allocator; it must
    /// overlap nothing already free.
    pub fn release(&mut self, rg: Range)
        requires
            old(self).wf(),
            rg.wf(),
            crate::range::fits_outside(old(self)@, rg),
        ensures
            final(self).wf(),
            covers_union(final(self)@, old(self)@, rg),
    {
        self.rs.insert(rg);
    }

    /// Take `sz` bytes (a whole number of pages) of physical memory, or
    /// `None` when no free range is large enough.
    pub fn allocate(&mut self, sz: usize) -> (r: Option<PhysicalRange>)
        requires
            old(self).wf(),
            sz as int % (PAGE_SIZE as int) == 0 || crate::range::first_fit_is_exact(
                old(self)@,
                sz as int,
            ),
        ensures
            final(self).wf(),
            r is None ==> final(self)@ == old(self)@ && (forall|i: int|
                0 <= i < old(self)@.len() ==> (#[trigger] old(self)@[i]).end
                    - old(self)@[i].start < sz),
            r matches Some(pr) ==> pr@.end - pr@.start == sz && covers_within(pr@, old(self)@)
                && covers_minus(final(self)@, old(self)@, pr@) && crate::range::take_effect(
                old(self)@,
                final(self)@,
                pr@,
                sz as int,
            ),
    {
        if let Some(rg) = self.rs.find(sz) {
            return Some(PhysicalRange { rg });
        }
        None
    }
}

} // verus!
