//! The serial console: register programming for a 16550-style UART over
//! a memory-mapped region, and its lock for concurrent logging.

use vstd::prelude::*;
use crate::mmio::MmioRegion;
use crate::mutex::SpinMutex;

verus! {

/// The line-control value the driver programs: 8-bit words.
pub open spec fn uart_lcr() -> u8 {
    3
}

/// A UART over an optional register region; unconfigured until a region
/// is supplied.
pub struct Uart {
    rgn: Option<MmioRegion>,
}

/// The console UART behind a spin lock, shared by every logging caller.
pub struct UartLogger {
    pub uart: SpinMutex<Uart>,
}

impl Uart {
    /// The register bytes, if a region is attached.
    pub closed spec fn regs(self) -> Option<Seq<u8>> {
        match self.rgn {
            Some(r) => Some(r@),
            None => None,
        }
    }

    /// Every write made through the attached region, oldest first, if a
    /// region is attached.
    pub closed spec fn writes(self) -> Option<Seq<(usize, u8)>> {
        match self.rgn {
            Some(r) => Some(r.write_log()),
            None => None,
        }
    }

    /// The ordered register writes `configure` performs: line control,
    /// FIFO control, interrupt enable, then the divisor bytes under the
    /// divisor-latch bit, and line control again.
    pub open spec fn config_writes() -> Seq<(usize, u8)> {
        seq![
            (3usize, 3u8),
            (2usize, 1u8),
            (1usize, 1u8),
            (3usize, 131u8),
            (0usize, 80u8),
            (0usize, 2u8),
            (3usize, 3u8),
        ]
    }

    /// The register state `configure` leaves behind: line control set to
    /// 8-bit words, FIFO enabled, receive interrupts enabled, and the
    /// divisor's high byte last written to the data register.
    pub open spec fn configured(regs: Seq<u8>) -> bool {
        &&& regs.len() >= 4
        &&& regs[3] == uart_lcr()
        &&& regs[2] == 1
        &&& regs[1] == 1
        &&& regs[0] == 2
    }

    /// A UART over the given register bytes, configured.
    pub fn new(slc: Vec<u8>) -> (r: Uart)
        requires
            slc.len() >= 4,
        ensures
            r.regs() matches Some(regs) && Uart::configured(regs),
    {
        let mut n = Uart { rgn: Some(MmioRegion::from_slice(slc)) };
        n.configure();
        n
    }

    /// Attach a register region and configure it.
    pub fn init(&mut self, slc: Vec<u8>)
        requires
            slc.len() >= 4,
        ensures
            final(self).regs() matches Some(regs) && Uart::configured(regs),
    {
        self.rgn = Some(MmioRegion::from_slice(slc));
        self.configure();
    }

    /// Program the device: word length, FIFO, receive interrupts, then
    /// the baud divisor under the divisor-latch bit, and word length
    /// again.  Without a region this does nothing.
    pub fn configure(&mut self)
        requires
            old(self).regs() matches Some(regs) ==> regs.len() >= 4,
        ensures
            old(self).regs() is None ==> final(self).regs() == old(self).regs(),
            old(self).regs() is Some ==> (final(self).regs() matches Some(regs)
                && Uart::configured(regs)),
            old(self).writes() is None ==> final(self).writes() == old(self).writes(),
            old(self).writes() matches Some(w) ==> final(self).writes() == Some(
                w + Uart::config_writes(),
            ),
    {
        let mut taken: Option<MmioRegion> = None;
        core::mem::swap(&mut taken, &mut self.rgn);
        match taken {
            Some(mut rgn) => {
                let ghost w0 = rgn.write_log();
                let lcr: u8 = 1 | (1 << 1);
                proof {
                    assert(1u8 | (1u8 << 1) == 3u8) by (bit_vector);
                    assert((1u8 | (1u8 << 1)) | (1u8 << 7) == 131u8) by (bit_vector);
                }
                rgn.write(3, lcr);
                // Set FIFO control.
                rgn.write(2, 1);
                // Enable receiver buffer interrupts.
                rgn.write(1, 1);
                // Set divisor & baud.
                let divisor: u16 = 592;
                let divisor_least: u8 = (divisor & 0xff) as u8;
                let divisor_most: u8 = (divisor >> 8) as u8;
                proof {
                    assert((592u16 & 0xff) == 80u16) by (bit_vector);
                    assert((592u16 >> 8) == 2u16) by (bit_vector);
                }
                // Set DLAB.
                rgn.write(3, lcr | 1 << 7);
                // Set divisor bits.
                rgn.write(0, divisor_least);
                rgn.write(0, divisor_most);
                // Set enabled again.
                rgn.write(3, lcr);
                proof {
                    assert(rgn.write_log() =~= w0 + Uart::config_writes());
                }
                self.rgn = Some(rgn);
            },
            None => {},
        }
    }

    /// Send one byte out of the data register; without a region this
    /// does nothing.
    pub fn putc(&mut self, byte: u8)
        requires
            old(self).regs() matches Some(regs) ==> regs.len() >= 1,
        ensures
            old(self).regs() is None ==> final(self).regs() == old(self).regs(),
            old(self).regs() matches Some(regs) ==> final(self).regs() == Some(
                regs.update(0, byte),
            ),
            old(self).writes() is None ==> final(self).writes() == old(self).writes(),
            old(self).writes() matches Some(w) ==> final(self).writes() == Some(
                w.push((0usize, byte)),
            ),
    {
        let mut taken: Option<MmioRegion> = None;
        core::mem::swap(&mut taken, &mut self.rgn);
        match taken {
            Some(mut rgn) => {
                rgn.write(0, byte);
                self.rgn = Some(rgn);
            },
            None => {},
        }
    }

    /// Send a whole byte string, one byte at a time.
    pub fn write_bytes(&mut self, s: &[u8])
        requires
            old(self).regs() matches Some(regs) ==> regs.len() >= 1,
        ensures
            old(self).regs() is None ==> final(self).regs() == old(self).regs(),
            old(self).regs() is Some ==> final(self).regs() is Some,
            s@.len() > 0 ==> (old(self).regs() matches Some(regs) ==> final(self).regs()
                == Some(regs.update(0, s@[s@.len() - 1]))),
            old(self).writes() is None ==> final(self).writes() == old(self).writes(),
            old(self).writes() matches Some(w) ==> (final(self).writes() matches Some(w2)
                && w2.len() == w.len() + s@.len() && w2.subrange(0, w.len() as int) == w && (
            forall|j: int| 0 <= j < s@.len() ==> w2[w.len() + j] == (0usize, s@[j]))),
    {
        let n = s.len();
        let mut i: usize = 0;
        while i < n
            invariant
                i <= n,
                n == s@.len(),
                old(self).regs() is None ==> self.regs() == old(self).regs(),
                old(self).regs() matches Some(regs) ==> regs.len() >= 1,
                old(self).regs() is Some ==> self.regs() is Some,
                i == 0 && old(self).regs() is Some ==> self.regs() == old(self).regs(),
                i > 0 ==> (old(self).regs() matches Some(regs) ==> self.regs() == Some(
                    regs.update(0, s@[i - 1]),
                )),
                old(self).writes() is None ==> self.writes() == old(self).writes(),
                old(self).writes() matches Some(w) ==> (self.writes() matches Some(w2)
                    && w2.len() == w.len() + i && w2.subrange(0, w.len() as int) == w && (
                forall|j: int| 0 <= j < i ==> w2[w.len() + j] == (0usize, s@[j]))),
            decreases n - i,
        {
            self.putc(s[i]);
            proof {
                if old(self).writes() is Some {
                    let w = old(self).writes()->0;
                    let w2 = self.writes()->0;
                    assert(w2.subrange(0, w.len() as int) =~= w);
                }
                if old(self).regs() is Some {
                    let regs = old(self).regs()->0;
                    assert(self.regs() == Some(regs.update(0, s@[i as int]))) by {
                        assert(regs.update(0, s@[i as int]) =~= if i == 0 {
                            regs.update(0, s@[i as int])
                        } else {
                            regs.update(0, s@[i - 1]).update(0, s@[i as int])
                        });
                    }
                }
            }
            i += 1;
        }
    }
}

impl UartLogger {
    /// A logger around the given UART.
    pub fn new(uart: Uart) -> UartLogger {
        UartLogger { uart: SpinMutex::new(uart) }
    }
}

} // verus!
