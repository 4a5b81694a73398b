//! A bounds-checked model of a memory-mapped register region: every
//! access is an index into the region's bytes, so a stray offset is
//! caught instead of reaching past the device.

use vstd::prelude::*;

verus! {

/// A device register region, modelled by its bytes together with the
/// ordered log of the writes made to it: for a device, the order of
/// register writes matters as much as the final bytes.
pub struct MmioRegion {
    rgn: Vec<u8>,
    log: Ghost<Seq<(usize, u8)>>,
}

impl MmioRegion {
    /// The region's bytes.
    pub closed spec fn view(self) -> Seq<u8> {
        self.rgn@
    }

    /// Every write made to the region so far, oldest first.
    pub closed spec fn write_log(self) -> Seq<(usize, u8)> {
        self.log@
    }

    /// Create a new region over the given backing bytes.  Whether the
    /// underlying pages carry reasonable permissions is up to the
    /// caller.
    pub fn from_slice(slc: Vec<u8>) -> (r: MmioRegion)
        ensures
            r@ == slc@,
            r.write_log() == Seq::<(usize, u8)>::empty(),
    {
        MmioRegion { rgn: slc, log: Ghost(Seq::empty()) }
    }

    /// Write an 8-bit value at the given offset.
    pub fn write(&mut self, offset: usize, value: u8)
        requires
            offset < old(self)@.len(),
        ensures
            final(self)@ == old(self)@.update(offset as int, value),
            final(self).write_log() == old(self).write_log().push((offset, value)),
    {
        self.rgn[offset] = value;
        let ghost entry = (offset, value);
        let ghost extended = self.log@.push(entry);
        self.log = Ghost(extended);
    }

    /// Read the 8-bit value at the given offset.
    pub fn read(&self, offset: usize) -> (r: u8)
        requires
            offset < self@.len(),
        ensures
            r == self@[offset as int],
    {
        self.rgn[offset]
    }
}

} // verus!
