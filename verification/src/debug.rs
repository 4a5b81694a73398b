//! Debug helpers: an xxd-style hexdump renderer and a breakpoint hook.

use vstd::prelude::*;

verus! {

/// The ASCII code of one lower-case hex digit.
pub open spec fn hex_digit(n: int) -> u8 {
    if n < 10 {
        (48 + n) as u8
    } else {
        (87 + n) as u8
    }
}

/// Two hex digits for one byte value.
pub open spec fn hex_byte(b: int) -> Seq<u8> {
    seq![hex_digit(b / 16), hex_digit(b % 16)]
}

/// The natural-width hex digits of a non-negative number.
pub open spec fn hex_of(n: int) -> Seq<u8>
    decreases n,
{
    if n < 16 {
        seq![hex_digit(n)]
    } else {
        hex_of(n / 16) + seq![hex_digit(n % 16)]
    }
}

/// Hex digits padded with zeros to at least four places.
pub open spec fn hex_pad4(n: int) -> Seq<u8> {
    if n < 16 {
        seq![48u8, 48u8, 48u8, hex_digit(n)]
    } else if n < 256 {
        seq![48u8, 48u8, hex_digit(n / 16), hex_digit(n % 16)]
    } else if n < 4096 {
        seq![48u8, hex_digit(n / 256), hex_digit(n / 16 % 16), hex_digit(n % 16)]
    } else {
        hex_of(n)
    }
}

/// The rendering of the bytes from position `i` on: every sixteenth byte
/// opens a line with its index, every byte prints as two digits, every
/// half word is followed by a space, every full line by a newline, and
/// the whole dump by one final newline.
pub open spec fn hexdump_render(mem: Seq<u8>, i: int) -> Seq<u8>
    decreases mem.len() - i,
{
    if i < 0 || i >= mem.len() {
        seq![10u8]
    } else {
        (if i % 16 == 0 {
            hex_pad4(i) + seq![32u8]
        } else {
            Seq::empty()
        }) + hex_byte(mem[i] as int) + (if i % 2 == 1 {
            seq![32u8]
        } else {
            Seq::empty()
        }) + (if i % 16 == 15 {
            seq![10u8]
        } else {
            Seq::empty()
        }) + hexdump_render(mem, i + 1)
    }
}

/// What `hexdump` prints for the given bytes.
pub open spec fn hexdump_spec(mem: Seq<u8>) -> Seq<u8> {
    hexdump_render(mem, 0)
}

/// One lower-case hex digit.
fn hex_digit_exec(n: u8) -> (r: u8)
    requires
        n < 16,
    ensures
        r == hex_digit(n as int),
{
    if n < 10 {
        48 + n
    } else {
        87 + n
    }
}

/// Append the natural-width hex digits of `n`.
fn push_hex(out: &mut Vec<u8>, n: usize)
    ensures
        final(out)@ == old(out)@ + hex_of(n as int),
    decreases n,
{
    if n < 16 {
        out.push(hex_digit_exec(n as u8));
    } else {
        push_hex(out, n / 16);
        out.push(hex_digit_exec((n % 16) as u8));
        proof {
            assert(out@ =~= old(out)@ + hex_of(n as int));
        }
    }
}

/// Append the hex digits of `n`, zero-padded to at least four places.
fn push_hex_pad4(out: &mut Vec<u8>, n: usize)
    ensures
        final(out)@ == old(out)@ + hex_pad4(n as int),
{
    if n < 16 {
        out.push(48);
        out.push(48);
        out.push(48);
        out.push(hex_digit_exec(n as u8));
        proof {
            assert(out@ =~= old(out)@ + hex_pad4(n as int));
        }
    } else if n < 256 {
        out.push(48);
        out.push(48);
        out.push(hex_digit_exec((n / 16) as u8));
        out.push(hex_digit_exec((n % 16) as u8));
        proof {
            assert(out@ =~= old(out)@ + hex_pad4(n as int));
        }
    } else if n < 4096 {
        out.push(48);
        out.push(hex_digit_exec((n / 256) as u8));
        out.push(hex_digit_exec((n / 16 % 16) as u8));
        out.push(hex_digit_exec((n % 16) as u8));
        proof {
            assert(out@ =~= old(out)@ + hex_pad4(n as int));
        }
    } else {
        push_hex(out, n);
    }
}

/// Render the given bytes as an xxd-style hexdump, as the bytes of the
/// text.
pub fn hexdump(mem: &[u8]) -> (out: Vec<u8>)
    ensures
        out@ == hexdump_spec(mem@),
{
    let mut out: Vec<u8> = Vec::new();
    let n = mem.len();
    let mut i: usize = 0;
    while i < n
        invariant
            i <= n,
            n == mem@.len(),
            out@ + hexdump_render(mem@, i as int) == hexdump_spec(mem@),
        decreases n - i,
    {
        let ghost before = out@;
        // Every 16 bytes, print the current index.
        if i % 16 == 0 {
            push_hex_pad4(&mut out, i);
            out.push(32);
        }
        let b = mem[i];
        out.push(hex_digit_exec(b / 16));
        out.push(hex_digit_exec(b % 16));
        // Every half word, print a space.
        if i % 2 == 1 {
            out.push(32);
        }
        // After 16 bytes, print a newline.
        if i % 16 == 15 {
            out.push(10);
        }
        proof {
            assert(out@ =~= before + (if i as int % 16 == 0 {
                hex_pad4(i as int) + seq![32u8]
            } else {
                Seq::empty()
            }) + hex_byte(mem@[i as int] as int) + (if i as int % 2 == 1 {
                seq![32u8]
            } else {
                Seq::empty()
            }) + (if i as int % 16 == 15 {
                seq![10u8]
            } else {
                Seq::empty()
            }));
            assert(out@ + hexdump_render(mem@, i as int + 1) =~= before + hexdump_render(
                mem@,
                i as int,
            ));
        }
        i += 1;
    }
    out.push(10);
    proof {
        assert(out@ =~= hexdump_spec(mem@));
    }
    out
}

/// Debugger breakpoint.  This is not a trap instruction, just a stable
/// place for debuggers to set breakpoints; the panic path calls it.
#[inline(never)]
pub fn breakpoint() {
}

} // verus!
