//! Flattened device tree blob parser, over plain bytes.
//!
//! Based on the v0.3-rc2 specification of the flattened device tree
//! format.  Node and property names are handed out as raw bytes (the
//! NUL-terminated names stored in the blob, without their terminator).
//! Corrupt or truncated structure ends the walk instead of reading out
//! of bounds.

use vstd::prelude::*;
use vstd::slice::slice_index_get;
use vstd::slice::slice_subrange;

verus! {

/// Token opening a node.
pub const FDT_BEGIN_NODE: u32 = 1;

/// Token closing a node.
pub const FDT_END_NODE: u32 = 2;

/// Token introducing a property.
pub const FDT_PROP_NODE: u32 = 3;

/// Token to be skipped.
pub const FDT_NOP_NODE: u32 = 4;

/// Token ending the structure block.
pub const FDT_END: u32 = 9;

/// The big-endian 32-bit word at `off`.
pub open spec fn be32(bytes: Seq<u8>, off: int) -> int {
    bytes[off] * 0x100_0000 + bytes[off + 1] * 0x1_0000 + bytes[off + 2] * 0x100 + bytes[off
        + 3]
}

/// The big-endian 64-bit word at `off`.
pub open spec fn be64(bytes: Seq<u8>, off: int) -> int {
    be32(bytes, off) * 0x1_0000_0000 + be32(bytes, off + 4)
}

/// Read the big-endian 32-bit word at `off`.
pub fn read_be_u32(bytes: &[u8], off: usize) -> (r: u32)
    requires
        off + 4 <= bytes.len(),
    ensures
        r == be32(bytes@, off as int),
{
    let b0 = *slice_index_get(bytes, off) as u32;
    let b1 = *slice_index_get(bytes, off + 1) as u32;
    let b2 = *slice_index_get(bytes, off + 2) as u32;
    let b3 = *slice_index_get(bytes, off + 3) as u32;
    b0 * 0x100_0000 + b1 * 0x1_0000 + b2 * 0x100 + b3
}

/// Read the big-endian 64-bit word at `off`.
pub fn read_be_u64(bytes: &[u8], off: usize) -> (r: u64)
    requires
        off + 8 <= bytes.len(),
    ensures
        r == be64(bytes@, off as int),
{
    let hi = read_be_u32(bytes, off) as u64;
    let lo = read_be_u32(bytes, off + 4) as u64;
    hi * 0x1_0000_0000 + lo
}

/// The position of the first NUL byte at or after `i`, or `-1` when
/// none follows.
pub open spec fn nul_pos(bytes: Seq<u8>, i: int) -> int
    decreases bytes.len() - i,
{
    if i < 0 || i >= bytes.len() {
        -1
    } else if bytes[i] == 0 {
        i
    } else {
        nul_pos(bytes, i + 1)
    }
}

/// A UTF-8 continuation byte.
pub open spec fn is_utf8_cont(b: u8) -> bool {
    0x80 <= b <= 0xbf
}

/// The bytes are well-formed UTF-8: the shortest-form sequences of one
/// to four bytes, with surrogates and values past 0x10ffff excluded.
pub open spec fn is_utf8(s: Seq<u8>) -> bool
    decreases s.len(),
{
    if s.len() == 0 {
        true
    } else {
        let b0 = s[0];
        if b0 < 0x80 {
            is_utf8(s.skip(1))
        } else if 0xc2 <= b0 <= 0xdf {
            s.len() >= 2 && is_utf8_cont(s[1]) && is_utf8(s.skip(2))
        } else if b0 == 0xe0 {
            s.len() >= 3 && 0xa0 <= s[1] <= 0xbf && is_utf8_cont(s[2]) && is_utf8(s.skip(3))
        } else if 0xe1 <= b0 <= 0xec || b0 == 0xee || b0 == 0xef {
            s.len() >= 3 && is_utf8_cont(s[1]) && is_utf8_cont(s[2]) && is_utf8(s.skip(3))
        } else if b0 == 0xed {
            s.len() >= 3 && 0x80 <= s[1] <= 0x9f && is_utf8_cont(s[2]) && is_utf8(s.skip(3))
        } else if b0 == 0xf0 {
            s.len() >= 4 && 0x90 <= s[1] <= 0xbf && is_utf8_cont(s[2]) && is_utf8_cont(s[3])
                && is_utf8(s.skip(4))
        } else if 0xf1 <= b0 <= 0xf3 {
            s.len() >= 4 && is_utf8_cont(s[1]) && is_utf8_cont(s[2]) && is_utf8_cont(s[3])
                && is_utf8(s.skip(4))
        } else if b0 == 0xf4 {
            s.len() >= 4 && 0x80 <= s[1] <= 0x8f && is_utf8_cont(s[2]) && is_utf8_cont(s[3])
                && is_utf8(s.skip(4))
        } else {
            false
        }
    }
}

/// Check a byte slice for well-formed UTF-8.
pub fn is_utf8_exec(s: &[u8]) -> (r: bool)
    ensures
        r == is_utf8(s@),
{
    let n = s.len();
    let mut i: usize = 0;
    proof {
        assert(s@.skip(0) =~= s@);
    }
    while i < n
        invariant
            0 <= i <= n,
            n == s@.len(),
            is_utf8(s@) == is_utf8(s@.skip(i as int)),
        decreases n - i,
    {
        let ghost t = s@.skip(i as int);
        let b0 = *slice_index_get(s, i);
        proof {
            assert(t[0] == s@[i as int]);
            assert(t.len() == n - i);
        }
        let width: usize = if b0 < 0x80 {
            1
        } else if 0xc2 <= b0 && b0 <= 0xdf {
            if n - i < 2 || !cont_ok(*slice_index_get(s, i + 1)) {
                proof {
                    if i + 1 < n {
                        assert(t[1] == s@[i + 1]);
                    }
                }
                return false;
            }
            proof {
                assert(t[1] == s@[i + 1]);
            }
            2
        } else if b0 == 0xe0 {
            if n - i < 3 || !(0xa0 <= *slice_index_get(s, i + 1) && *slice_index_get(s, i + 1)
                <= 0xbf) || !cont_ok(*slice_index_get(s, i + 2)) {
                proof {
                    if i + 1 < n {
                        assert(t[1] == s@[i + 1]);
                    }
                    if i + 2 < n {
                        assert(t[2] == s@[i + 2]);
                    }
                }
                return false;
            }
            proof {
                assert(t[1] == s@[i + 1] && t[2] == s@[i + 2]);
            }
            3
        } else if (0xe1 <= b0 && b0 <= 0xec) || b0 == 0xee || b0 == 0xef {
            if n - i < 3 || !cont_ok(*slice_index_get(s, i + 1)) || !cont_ok(
                *slice_index_get(s, i + 2),
            ) {
                proof {
                    if i + 1 < n {
                        assert(t[1] == s@[i + 1]);
                    }
                    if i + 2 < n {
                        assert(t[2] == s@[i + 2]);
                    }
                }
                return false;
            }
            proof {
                assert(t[1] == s@[i + 1] && t[2] == s@[i + 2]);
            }
            3
        } else if b0 == 0xed {
            if n - i < 3 || !(0x80 <= *slice_index_get(s, i + 1) && *slice_index_get(s, i + 1)
                <= 0x9f) || !cont_ok(*slice_index_get(s, i + 2)) {
                proof {
                    if i + 1 < n {
                        assert(t[1] == s@[i + 1]);
                    }
                    if i + 2 < n {
                        assert(t[2] == s@[i + 2]);
                    }
                }
                return false;
            }
            proof {
                assert(t[1] == s@[i + 1] && t[2] == s@[i + 2]);
            }
            3
        } else if b0 == 0xf0 {
            if n - i < 4 || !(0x90 <= *slice_index_get(s, i + 1) && *slice_index_get(s, i + 1)
                <= 0xbf) || !cont_ok(*slice_index_get(s, i + 2)) || !cont_ok(
                *slice_index_get(s, i + 3),
            ) {
                proof {
                    if i + 1 < n {
                        assert(t[1] == s@[i + 1]);
                    }
                    if i + 2 < n {
                        assert(t[2] == s@[i + 2]);
                    }
                    if i + 3 < n {
                        assert(t[3] == s@[i + 3]);
                    }
                }
                return false;
            }
            proof {
                assert(t[1] == s@[i + 1] && t[2] == s@[i + 2] && t[3] == s@[i + 3]);
            }
            4
        } else if 0xf1 <= b0 && b0 <= 0xf3 {
            if n - i < 4 || !cont_ok(*slice_index_get(s, i + 1)) || !cont_ok(
                *slice_index_get(s, i + 2),
            ) || !cont_ok(*slice_index_get(s, i + 3)) {
                proof {
                    if i + 1 < n {
                        assert(t[1] == s@[i + 1]);
                    }
                    if i + 2 < n {
                        assert(t[2] == s@[i + 2]);
                    }
                    if i + 3 < n {
                        assert(t[3] == s@[i + 3]);
                    }
                }
                return false;
            }
            proof {
                assert(t[1] == s@[i + 1] && t[2] == s@[i + 2] && t[3] == s@[i + 3]);
            }
            4
        } else if b0 == 0xf4 {
            if n - i < 4 || !(0x80 <= *slice_index_get(s, i + 1) && *slice_index_get(s, i + 1)
                <= 0x8f) || !cont_ok(*slice_index_get(s, i + 2)) || !cont_ok(
                *slice_index_get(s, i + 3),
            ) {
                proof {
                    if i + 1 < n {
                        assert(t[1] == s@[i + 1]);
                    }
                    if i + 2 < n {
                        assert(t[2] == s@[i + 2]);
                    }
                    if i + 3 < n {
                        assert(t[3] == s@[i + 3]);
                    }
                }
                return false;
            }
            proof {
                assert(t[1] == s@[i + 1] && t[2] == s@[i + 2] && t[3] == s@[i + 3]);
            }
            4
        } else {
            return false;
        };
        proof {
            assert(s@.skip(i as int).skip(width as int) =~= s@.skip(i as int + width as int));
        }
        i += width;
    }
    proof {
        assert(s@.skip(n as int) =~= Seq::<u8>::empty());
    }
    true
}

/// Whether a byte continues a multi-byte UTF-8 sequence.
fn cont_ok(b: u8) -> (r: bool)
    ensures
        r == is_utf8_cont(b),
{
    0x80 <= b && b <= 0xbf
}

/// Given a byte slice, return the C-style NUL-terminated name at its
/// start: the bytes before the first NUL.  `None` when the slice is
/// empty or holds no NUL at all.
pub fn str_from_bytes<'a>(bytes: &'a [u8]) -> (r: Option<&'a [u8]>)
    ensures
        r is Some <==> nul_pos(bytes@, 0) >= 0 && is_utf8(
            bytes@.subrange(0, nul_pos(bytes@, 0)),
        ),
        r matches Some(s) ==> s@ == bytes@.subrange(0, nul_pos(bytes@, 0))
            && s@.len() == nul_pos(bytes@, 0) && s@.len() < bytes@.len() && (forall|k: int|
            0 <= k < s@.len() ==> s@[k] != 0) && is_utf8(s@) && bytes@[s@.len() as int] == 0,
{
    let n = bytes.len();
    let mut len: usize = 0;
    while len < n
        invariant
            len <= n,
            n == bytes@.len(),
            forall|k: int| 0 <= k < len ==> bytes@[k] != 0,
            nul_pos(bytes@, 0) == nul_pos(bytes@, len as int),
        decreases n - len,
    {
        if *slice_index_get(bytes, len) == 0 {
            proof {
                assert(nul_pos(bytes@, len as int) == len);
            }
            let r = slice_subrange(bytes, 0, len);
            if is_utf8_exec(r) {
                return Some(r);
            }
            return None;
        }
        len += 1;
    }
    proof {
        assert(nul_pos(bytes@, n as int) == -1);
    }
    None
}

/// The value of one ASCII hex digit, or `-1` for any other byte.
pub open spec fn hex_digit_val(c: u8) -> int {
    if 48 <= c <= 57 {
        c - 48
    } else if 97 <= c <= 102 {
        c - 87
    } else if 65 <= c <= 70 {
        c - 55
    } else {
        -1
    }
}

/// A non-empty string of ASCII hex digits.
pub open spec fn is_hex_seq(s: Seq<u8>) -> bool {
    s.len() > 0 && forall|k: int| 0 <= k < s.len() ==> hex_digit_val(#[trigger] s[k]) >= 0
}

/// The number the hex digits spell.
pub open spec fn hex_num(s: Seq<u8>) -> int
    decreases s.len(),
{
    if s.len() == 0 {
        0
    } else {
        hex_num(s.drop_last()) * 16 + hex_digit_val(s.last())
    }
}

/// A string of valid digits spells a non-negative number.
proof fn lemma_hex_num_nonneg(s: Seq<u8>)
    requires
        forall|k: int| 0 <= k < s.len() ==> hex_digit_val(#[trigger] s[k]) >= 0,
    ensures
        hex_num(s) >= 0,
    decreases s.len(),
{
    if s.len() > 0 {
        lemma_hex_num_nonneg(s.drop_last());
        assert(hex_num(s.drop_last()) * 16 >= 0) by {
            vstd::arithmetic::mul::lemma_mul_nonnegative(hex_num(s.drop_last()), 16);
        }
    }
}

/// Hex numbers only grow as digits are appended.
proof fn lemma_hex_num_prefix(s: Seq<u8>, i: int)
    requires
        0 <= i <= s.len(),
        forall|k: int| 0 <= k < s.len() ==> hex_digit_val(#[trigger] s[k]) >= 0,
    ensures
        hex_num(s.subrange(0, i)) <= hex_num(s),
    decreases s.len() - i,
{
    if i == s.len() {
        assert(s.subrange(0, i) =~= s);
    } else {
        lemma_hex_num_prefix(s, i + 1);
        let p = s.subrange(0, i + 1);
        assert(p.drop_last() =~= s.subrange(0, i));
        assert(hex_num(p) == hex_num(s.subrange(0, i)) * 16 + hex_digit_val(s[i]));
        assert(hex_num(s.subrange(0, i)) >= 0) by {
            lemma_hex_num_nonneg(s.subrange(0, i));
        }
    }
}

/// Parse a non-empty all-hex byte string as a number, as
/// `usize::from_str_radix(s, 16)` would: `None` on an empty string, a
/// non-digit, or overflow.
pub fn parse_hex(bytes: &[u8]) -> (r: Option<usize>)
    ensures
        r is Some <==> is_hex_seq(bytes@) && hex_num(bytes@) <= usize::MAX,
        r matches Some(v) ==> v == hex_num(bytes@),
{
    let n = bytes.len();
    if n == 0 {
        return None;
    }
    let mut acc: usize = 0;
    let mut i: usize = 0;
    while i < n
        invariant
            i <= n,
            n == bytes@.len(),
            n > 0,
            forall|k: int| 0 <= k < i ==> hex_digit_val(#[trigger] bytes@[k]) >= 0,
            acc == hex_num(bytes@.subrange(0, i as int)),
        decreases n - i,
    {
        let c = *slice_index_get(bytes, i);
        let d: usize = if 48 <= c && c <= 57 {
            (c - 48) as usize
        } else if 97 <= c && c <= 102 {
            (c - 87) as usize
        } else if 65 <= c && c <= 70 {
            (c - 55) as usize
        } else {
            return None;
        };
        if acc > (usize::MAX - d) / 16 {
            // The number no longer fits a machine word; neither will any
            // longer prefix.
            proof {
                let p = bytes@.subrange(0, i + 1);
                assert(p.drop_last() =~= bytes@.subrange(0, i as int));
                assert(hex_num(p) == acc * 16 + d);
                if is_hex_seq(bytes@) {
                    lemma_hex_num_prefix(bytes@, i + 1);
                    assert(acc * 16 + d > usize::MAX) by {
                        vstd::arithmetic::div_mod::lemma_fundamental_div_mod(
                            (usize::MAX - d) as int,
                            16,
                        );
                        vstd::arithmetic::div_mod::lemma_mod_bound((usize::MAX - d) as int, 16);
                        vstd::arithmetic::mul::lemma_mul_inequality(
                            (usize::MAX - d) as int / 16 + 1,
                            acc as int,
                            16,
                        );
                    }
                }
            }
            return None;
        }
        proof {
            let p = bytes@.subrange(0, i + 1);
            assert(p.drop_last() =~= bytes@.subrange(0, i as int));
            assert((usize::MAX - d) / 16 * 16 + d <= usize::MAX) by {
                vstd::arithmetic::div_mod::lemma_fundamental_div_mod((usize::MAX - d) as int, 16);
                vstd::arithmetic::div_mod::lemma_mod_bound((usize::MAX - d) as int, 16);
            }
            assert(acc * 16 <= (usize::MAX - d) / 16 * 16) by {
                vstd::arithmetic::mul::lemma_mul_inequality(
                    acc as int,
                    (usize::MAX - d) as int / 16,
                    16,
                );
            }
        }
        acc = acc * 16 + d;
        i += 1;
    }
    proof {
        assert(bytes@.subrange(0, n as int) =~= bytes@);
    }
    Some(acc)
}

/// The first slice begins with the second.
pub fn bytes_starts_with(a: &[u8], b: &[u8]) -> (r: bool)
    ensures
        r == (a@.len() >= b@.len() && a@.subrange(0, b@.len() as int) == b@),
{
    let nb = b.len();
    if a.len() < nb {
        return false;
    }
    let mut i: usize = 0;
    while i < nb
        invariant
            i <= nb,
            nb == b@.len(),
            a@.len() >= nb,
            forall|k: int| 0 <= k < i ==> a@[k] == b@[k],
        decreases nb - i,
    {
        if *slice_index_get(a, i) != *slice_index_get(b, i) {
            proof {
                assert(a@.subrange(0, nb as int)[i as int] != b@[i as int]);
            }
            return false;
        }
        i += 1;
    }
    proof {
        assert(a@.subrange(0, nb as int) =~= b@);
    }
    true
}

/// The two slices hold the same bytes.
pub fn bytes_eq(a: &[u8], b: &[u8]) -> (r: bool)
    ensures
        r == (a@ == b@),
{
    if a.len() != b.len() {
        proof {
            assert(a@.len() != b@.len());
        }
        return false;
    }
    let r = bytes_starts_with(a, b);
    proof {
        if r {
            assert(a@.subrange(0, b@.len() as int) =~= a@);
        } else {
            assert(a@.subrange(0, b@.len() as int) =~= a@);
        }
    }
    r
}

/// A property's raw payload inside the structure block.
pub struct FdtPropData {
    pub len: u32,
    pub nameoff: u32,
}

/// One entry of the blob's memory reservation table.
pub struct DeviceTreeMemoryReservationEntry {
    pub address: u64,
    pub size: u64,
}

/// Device tree blob over its bytes.
pub struct DeviceTree<'dtb> {
    data: &'dtb [u8],
}

/// The blob header checks out: magic, a version this parser speaks, and
/// section sizes inside the total size.
pub open spec fn header_ok(d: Seq<u8>) -> bool {
    &&& d.len() >= 40
    &&& be32(d, 0) == 0xd00d_feed
    &&& (be32(d, 24) == 16 || be32(d, 20) == 17)
    &&& be32(d, 4) >= 40
    &&& be32(d, 4) >= be32(d, 8) + be32(d, 36)
    &&& be32(d, 4) >= be32(d, 12) + be32(d, 32)
}

impl<'dtb> DeviceTree<'dtb> {
    /// The blob's bytes.
    pub closed spec fn view(self) -> Seq<u8> {
        self.data@
    }

    /// The structure block: the token stream the walk reads.
    pub open spec fn struct_section(self) -> Seq<u8> {
        self@.subrange(be32(self@, 8), be32(self@, 8) + be32(self@, 36))
    }

    /// The strings block: where property names live.
    pub open spec fn strings_section(self) -> Seq<u8> {
        self@.subrange(be32(self@, 12), be32(self@, 12) + be32(self@, 32))
    }

    /// Creates a device tree blob with no data.  It cannot be walked;
    /// it only exists so a global place-holder can predate the real
    /// tree.
    pub fn empty() -> (r: DeviceTree<'dtb>)
        ensures
            r@ == Seq::<u8>::empty(),
    {
        let data: &[u8] = &[];
        DeviceTree { data }
    }

    /// Check the blob's header over the given bytes and take the blob's
    /// own prefix of them.  `Some` exactly when the magic number, the
    /// version information and the size information all check out and
    /// the bytes cover the declared total size.
    pub fn from_bytes(data: &'dtb [u8]) -> (r: Option<DeviceTree<'dtb>>)
        ensures
            r is Some <==> data@.len() >= 40 && header_ok(data@) && be32(data@, 4)
                <= data@.len(),
            r matches Some(dt) ==> dt@ == data@.subrange(0, be32(data@, 4)) && header_ok(dt@),
    {
        if data.len() < 40 {
            return None;
        }
        let magic = read_be_u32(data, 0);
        if magic != 0xd00d_feed {
            return None;
        }
        let version = read_be_u32(data, 20);
        let last_comp = read_be_u32(data, 24);
        if last_comp != 16 && version != 17 {
            return None;
        }
        let size = read_be_u32(data, 4);
        let off_dt_struct = read_be_u32(data, 8);
        let size_dt_struct = read_be_u32(data, 36);
        let off_dt_strings = read_be_u32(data, 12);
        let size_dt_strings = read_be_u32(data, 32);
        if (size as u64) < 40 || (size as u64) < off_dt_struct as u64 + size_dt_struct as u64
            || (size as u64) < off_dt_strings as u64 + size_dt_strings as u64 {
            return None;
        }
        if (size as usize) > data.len() {
            return None;
        }
        let taken = slice_subrange(data, 0, size as usize);
        proof {
            assert(taken@.subrange(0, 40) =~= data@.subrange(0, 40));
            assert(forall|k: int| 0 <= k < 40 ==> taken@[k] == data@[k]);
        }
        Some(DeviceTree { data: taken })
    }

    /// Render the blob as a hexdump, for the debug log.
    pub fn dump(&self) -> (out: Vec<u8>)
        ensures
            out@ == crate::debug::hexdump_spec(self@),
    {
        crate::debug::hexdump(self.data)
    }

    /// An iterator over the structure block, walking the tree in depth
    /// first order.
    pub fn walk(&self) -> (it: DeviceTreeStructureIterator<'dtb>)
        requires
            header_ok(self@),
            self@.len() >= be32(self@, 4),
        ensures
            it.wf(),
            it.spec_index() == 0,
            it.spec_depth() == 0,
            it.spec_bytes() == self.struct_section(),
            it.spec_strings() == self.strings_section(),
    {
        let start = read_be_u32(self.data, 8) as usize;
        let size = read_be_u32(self.data, 36) as usize;
        let strings_start = read_be_u32(self.data, 12) as usize;
        let strings_size = read_be_u32(self.data, 32) as usize;
        let total = read_be_u32(self.data, 4) as usize;
        let d: &'dtb [u8] = self.data;
        let dtb_structure = slice_subrange(d, start, start + size);
        let dtb_strings = slice_subrange(d, strings_start, strings_start + strings_size);
        DeviceTreeStructureIterator {
            index: 0,
            depth: 0,
            bytes: dtb_structure,
            strings: dtb_strings,
        }
    }

    /// Given the name `X`, find the first node `X@HEX_ADDRESS` and
    /// return the hex address.  `None` when no node of that shape (with
    /// a well-formed, machine-word-sized address) is found.
    pub fn find(&self, name: &[u8]) -> (r: Option<usize>)
        requires
            header_ok(self@),
            self@.len() >= be32(self@, 4),
        ensures
            r matches Some(a) ==> exists|t: int, n: Seq<u8>|
                #![trigger be32(self.struct_section(), t), n.subrange(0, name@.len() as int)]
                0 <= t && be32(self.struct_section(), t) == FDT_BEGIN_NODE as int && t + 4
                    + n.len() < self.struct_section().len() && n == self.struct_section(
                ).subrange(t + 4, t + 4 + n.len()) && n.len() > name@.len() && n.subrange(
                    0,
                    name@.len() as int,
                ) == name@ && n[name@.len() as int] == 64 && is_hex_seq(
                    n.skip(name@.len() as int + 1),
                ) && hex_num(n.skip(name@.len() as int + 1)) == a,
    {
        let mut it = self.walk();
        loop
            invariant
                it.wf(),
                it.spec_bytes() == self.struct_section(),
                it.spec_strings() == self.strings_section(),
            decreases it.spec_remaining() + 8,
        {
            let ghost it0 = it;
            let item = it.next();
            match item {
                Some(DeviceTreeStructure::NodeBegin(node_name)) => {
                    if bytes_starts_with(node_name, name) && node_name.len() > name.len()
                        && *slice_index_get(node_name, name.len()) == 64 {
                        let suffix = slice_subrange(node_name, name.len() + 1, node_name.len());
                        if let Some(addr) = parse_hex(suffix) {
                            proof {
                                assert(node_name@.skip(name@.len() as int + 1) =~= suffix@);
                                let t = choose|t: int|
                                    #![trigger be32(it0.spec_bytes(), t)]
                                    it0.spec_index() <= t && t + 4 <= it0.spec_bytes().len() && (
                                    t - it0.spec_index()) % 4 == 0 && nops_between(
                                        it0.spec_bytes(),
                                        it0.spec_index(),
                                        t,
                                    ) && item_at(
                                        it0.spec_bytes(),
                                        it0.spec_strings(),
                                        t,
                                        DeviceTreeStructure::NodeBegin(node_name),
                                    );
                                assert(be32(self.struct_section(), t) == FDT_BEGIN_NODE as int);
                            }
                            return Some(addr);
                        }
                    }
                },
                Some(_) => {
                },
                None => {
                    return None;
                },
            }
        }
    }

    /// Find the named property of the first node whose name is
    /// `NAME@...`: the search enters that node, checks its immediate
    /// properties, and gives up at the node's end.
    pub fn find_property(&self, name: &[u8], prop: &[u8]) -> (r: Option<
        DeviceTreeNodeProperty<'dtb>,
    >)
        requires
            header_ok(self@),
            self@.len() >= be32(self@, 4),
        ensures
            r matches Some(p) ==> p.name@ == prop@,
            r matches Some(p) ==> exists|t: int|
                #![trigger be32(self.struct_section(), t)]
                0 <= t && t + 4 <= self.struct_section().len() && item_at(
                    self.struct_section(),
                    self.strings_section(),
                    t,
                    DeviceTreeStructure::Property(p),
                ),
    {
        // Search phases: looking for the node, scanning its properties,
        // or skipping a nested node at the recorded depth.
        let mut scanning: bool = false;
        let mut skip_depth: usize = 0;
        let mut it = self.walk();
        loop
            invariant
                it.wf(),
                it.spec_bytes() == self.struct_section(),
                it.spec_strings() == self.strings_section(),
            decreases it.spec_remaining() + 8,
        {
            let ghost it0 = it;
            let item = it.next();
            match item {
                None => {
                    return None;
                },
                Some(DeviceTreeStructure::NodeBegin(node_name)) => {
                    if !scanning {
                        if bytes_starts_with(node_name, name) && node_name.len() > name.len()
                            && *slice_index_get(node_name, name.len()) == 64 {
                            scanning = true;
                            skip_depth = 0;
                        }
                    } else if skip_depth < usize::MAX {
                        skip_depth = skip_depth + 1;
                    }
                },
                Some(DeviceTreeStructure::NodeEnd) => {
                    if scanning {
                        if skip_depth == 0 {
                            // End of the node: the property is not here.
                            return None;
                        }
                        skip_depth = skip_depth - 1;
                    }
                },
                Some(DeviceTreeStructure::Property(node_prop)) => {
                    if scanning && skip_depth == 0 {
                        if bytes_eq(node_prop.name, prop) {
                            proof {
                                let t = choose|t: int|
                                    #![trigger be32(it0.spec_bytes(), t)]
                                    it0.spec_index() <= t && t + 4 <= it0.spec_bytes().len() && (
                                    t - it0.spec_index()) % 4 == 0 && nops_between(
                                        it0.spec_bytes(),
                                        it0.spec_index(),
                                        t,
                                    ) && item_at(
                                        it0.spec_bytes(),
                                        it0.spec_strings(),
                                        t,
                                        DeviceTreeStructure::Property(node_prop),
                                    );
                                assert(be32(self.struct_section(), t) == FDT_PROP_NODE as int);
                            }
                            return Some(node_prop);
                        }
                    }
                },
            }
        }
    }

    /// The `reg` property of the first node named `NAME@...`, as the
    /// (start, size) pair of its first two big-endian words.
    pub fn find_regs(&self, name: &[u8]) -> (r: Option<(usize, usize)>)
        requires
            header_ok(self@),
            self@.len() >= be32(self@, 4),
        ensures
            r matches Some(v) ==> exists|t: int, pb: Seq<u8>|
                #![trigger be32(self.struct_section(), t), be64(pb, 0)]
                0 <= t && be32(self.struct_section(), t) == FDT_PROP_NODE as int && t + 12
                    + pb.len() <= self.struct_section().len() && pb == self.struct_section(
                ).subrange(t + 12, t + 12 + pb.len()) && pb.len() >= 16 && v.0 == be64(pb, 0)
                    && v.1 == be64(pb, 8),
    {
        let reg: Vec<u8> = vec![114u8, 101u8, 103u8];
        let prop = match self.find_property(name, reg.as_slice()) {
            Some(p) => p,
            None => {
                return None;
            },
        };
        let start = match prop.read_usize(0) {
            Some(s) => s,
            None => {
                return None;
            },
        };
        let size = match prop.read_usize(8) {
            Some(s) => s,
            None => {
                return None;
            },
        };
        proof {
            assert(prop.bytes@.len() >= 16 && start == be64(prop.bytes@, 0) && size == be64(
                prop.bytes@,
                8,
            ));
            let t = choose|t: int|
                #![trigger be32(self.struct_section(), t)]
                0 <= t && t + 4 <= self.struct_section().len() && item_at(
                    self.struct_section(),
                    self.strings_section(),
                    t,
                    DeviceTreeStructure::Property(prop),
                );
            assert(be32(self.struct_section(), t) == FDT_PROP_NODE as int);
            assert(be64(prop.bytes@, 0) == start);
        }
        Some((start, size))
    }
}

/// One property of a node: its payload bytes and its name.
pub struct DeviceTreeNodeProperty<'dtb> {
    pub bytes: &'dtb [u8],
    pub name: &'dtb [u8],
}

impl<'dtb> DeviceTreeNodeProperty<'dtb> {
    pub fn new(bytes: &'dtb [u8], name: &'dtb [u8]) -> (r: DeviceTreeNodeProperty<'dtb>)
        ensures
            r.bytes@ == bytes@,
            r.name@ == name@,
    {
        DeviceTreeNodeProperty { bytes, name }
    }

    /// The big-endian 64-bit word at `offset` of the payload, or `None`
    /// past the end.
    pub fn read_u64(&self, offset: usize) -> (r: Option<u64>)
        ensures
            r is Some <==> offset + 8 <= self.bytes@.len(),
            r matches Some(v) ==> v == be64(self.bytes@, offset as int),
    {
        let n = self.bytes.len();
        if n < 8 || offset > n - 8 {
            return None;
        }
        Some(read_be_u64(self.bytes, offset))
    }

    /// The big-endian machine word at `offset` of the payload: the
    /// 64-bit word there, when it fits the machine's word.
    pub fn read_usize(&self, offset: usize) -> (r: Option<usize>)
        ensures
            r is Some <==> offset + 8 <= self.bytes@.len() && be64(self.bytes@, offset as int)
                <= usize::MAX,
            r matches Some(v) ==> v == be64(self.bytes@, offset as int),
    {
        let v = match self.read_u64(offset) {
            Some(v) => v,
            None => {
                return None;
            },
        };
        if v <= usize::MAX as u64 {
            Some(v as usize)
        } else {
            None
        }
    }
}

/// Elements of the device tree structure and their values.
pub enum DeviceTreeStructure<'dtb> {
    NodeBegin(&'dtb [u8]),
    NodeEnd,
    Property(DeviceTreeNodeProperty<'dtb>),
}

/// Every token word from `from` up to `to` (stepping one word at a
/// time) is a nop token.
pub open spec fn nops_between(bytes: Seq<u8>, from: int, to: int) -> bool {
    forall|t: int|
        from <= t < to && (t - from) % 4 == 0 ==> #[trigger] be32(bytes, t) == FDT_NOP_NODE
            as int
}

/// What one yielded element means at token position `t` of the
/// structure bytes: a begin-node token followed by the node's
/// NUL-terminated name, a lone end-node token, or a property token
/// followed by its length, its name offset into the strings section,
/// and its payload bytes.
pub open spec fn item_at(
    bytes: Seq<u8>,
    strings: Seq<u8>,
    t: int,
    it: DeviceTreeStructure,
) -> bool {
    match it {
        DeviceTreeStructure::NodeBegin(n) => be32(bytes, t) == FDT_BEGIN_NODE as int && t + 4
            + n@.len() < bytes.len() && n@ == bytes.subrange(t + 4, t + 4 + n@.len())
            && bytes[t + 4 + n@.len()] == 0,
        DeviceTreeStructure::NodeEnd => be32(bytes, t) == FDT_END_NODE as int,
        DeviceTreeStructure::Property(p) => {
            let nameoff = be32(bytes, t + 8);
            &&& be32(bytes, t) == FDT_PROP_NODE as int
            &&& t + 12 <= bytes.len()
            &&& p.bytes@.len() == be32(bytes, t + 4)
            &&& t + 12 + p.bytes@.len() <= bytes.len()
            &&& p.bytes@ == bytes.subrange(t + 12, t + 12 + p.bytes@.len())
            &&& nameoff + p.name@.len() < strings.len()
            &&& p.name@ == strings.subrange(nameoff, nameoff + p.name@.len())
            &&& strings[nameoff + p.name@.len()] == 0
        },
    }
}

/// Iterates over the structure block and performs minimal validation:
/// anything out of bounds or malformed ends the walk.
pub struct DeviceTreeStructureIterator<'dtb> {
    index: usize,
    depth: usize,
    strings: &'dtb [u8],
    bytes: &'dtb [u8],
}

impl<'dtb> DeviceTreeStructureIterator<'dtb> {
    /// The iterator's position in the structure block.
    pub closed spec fn spec_index(self) -> int {
        self.index as int
    }

    /// How deep in the node tree the iterator stands.
    pub closed spec fn spec_depth(self) -> int {
        self.depth as int
    }

    /// The structure bytes.
    pub closed spec fn spec_bytes(self) -> Seq<u8> {
        self.bytes@
    }

    /// The strings bytes.
    pub closed spec fn spec_strings(self) -> Seq<u8> {
        self.strings@
    }

    /// Structure bytes not yet consumed; the walk's termination
    /// measure.
    pub closed spec fn spec_remaining(self) -> int {
        self.bytes@.len() - self.index
    }

    /// The position stays near the block (it may pass the end by one
    /// padding step) and the depth never exceeds one level per token
    /// consumed.
    pub closed spec fn wf(self) -> bool {
        &&& self.index <= self.bytes@.len() + 8
        &&& 4 * self.depth <= self.index
    }

    /// Consume one big-endian token word; `None` at a truncated end,
    /// with the position unmoved.
    fn consume_u32(&mut self) -> (r: Option<u32>)
        requires
            old(self).wf(),
        ensures
            final(self).wf(),
            final(self).spec_bytes() == old(self).spec_bytes(),
            final(self).spec_strings() == old(self).spec_strings(),
            final(self).spec_depth() == old(self).spec_depth(),
            r is Some <==> old(self).spec_index() + 4 <= old(self).spec_bytes().len(),
            r is None ==> *final(self) == *old(self),
            r matches Some(v) ==> v == be32(old(self).spec_bytes(), old(self).spec_index())
                && final(self).spec_index() == old(self).spec_index() + 4,
    {
        let n = self.bytes.len();
        if n < 4 || self.index > n - 4 {
            return None;
        }
        let v = read_be_u32(self.bytes, self.index);
        self.index = self.index + 4;
        Some(v)
    }

    /// Advance to the next token boundary.
    fn consume_padding(&mut self)
        requires
            old(self).wf(),
            old(self).spec_index() <= old(self).spec_bytes().len() + 1,
        ensures
            final(self).wf(),
            final(self).spec_bytes() == old(self).spec_bytes(),
            final(self).spec_strings() == old(self).spec_strings(),
            final(self).spec_depth() == old(self).spec_depth(),
            old(self).spec_index() <= final(self).spec_index() <= old(self).spec_index() + 3,
            final(self).spec_index() % 4 == 0 || final(self).spec_index()
                == old(self).spec_index(),
    {
        let rem = self.index % 4;
        if rem != 0 && self.index - rem <= usize::MAX - 4 {
            self.index = self.index - rem + 4;
        }
    }

    /// Consume the NUL-terminated name at the position; `None` when no
    /// terminator follows, with the position unmoved.
    fn consume_str(&mut self) -> (r: Option<&'dtb [u8]>)
        requires
            old(self).wf(),
            old(self).spec_index() <= old(self).spec_bytes().len(),
        ensures
            final(self).wf(),
            final(self).spec_bytes() == old(self).spec_bytes(),
            final(self).spec_strings() == old(self).spec_strings(),
            final(self).spec_depth() == old(self).spec_depth(),
            r is None ==> *final(self) == *old(self),
            r matches Some(s) ==> final(self).spec_index() > old(self).spec_index()
                && final(self).spec_index() <= old(self).spec_bytes().len() + 4
                && (forall|k: int| 0 <= k < s@.len() ==> s@[k] != 0) && is_utf8(s@)
                && old(self).spec_index() + s@.len() < old(self).spec_bytes().len() && s@
                == old(self).spec_bytes().subrange(
                old(self).spec_index(),
                old(self).spec_index() + s@.len(),
            ) && old(self).spec_bytes()[old(self).spec_index() + s@.len()] == 0,
    {
        let d: &'dtb [u8] = self.bytes;
        let tail = slice_subrange(d, self.index, d.len());
        match str_from_bytes(tail) {
            None => None,
            Some(s) => {
                proof {
                    let i0 = self.index as int;
                    let dl = d@.len() as int;
                    let ln = s@.len() as int;
                    assert(nul_pos(tail@, 0) >= 0);
                    assert(s@ == tail@.subrange(0, nul_pos(tail@, 0)));
                    assert(nul_pos(tail@, 0) == ln);
                    assert(tail@ == d@.subrange(i0, dl));
                    assert forall|j: int| 0 <= j < ln implies tail@.subrange(0, ln)[j]
                        == d@.subrange(i0, i0 + ln)[j] by {
                        assert(tail@.subrange(0, ln)[j] == tail@[j]);
                        assert(d@.subrange(i0, dl)[j] == d@[i0 + j]);
                        assert(d@.subrange(i0, i0 + ln)[j] == d@[i0 + j]);
                    }
                    assert(tail@.subrange(0, ln) =~= d@.subrange(i0, i0 + ln));
                    assert(s@ == d@.subrange(i0, i0 + ln));
                    assert(tail@[ln] == 0);
                    assert(d@.subrange(i0, dl)[ln] == d@[i0 + ln]);
                    assert(d@[i0 + ln] == 0);
                }
                self.index = self.index + s.len() + 1;
                self.consume_padding();
                Some(s)
            },
        }
    }

    /// The next element of the structure, or `None` at the end of the
    /// block (or at anything corrupt: a bad token, a truncated record,
    /// unbalanced nodes, a name without terminator).
    pub fn next(&mut self) -> (r: Option<DeviceTreeStructure<'dtb>>)
        requires
            old(self).wf(),
        ensures
            final(self).wf(),
            final(self).spec_bytes() == old(self).spec_bytes(),
            final(self).spec_strings() == old(self).spec_strings(),
            r is Some ==> final(self).spec_remaining() < old(self).spec_remaining(),
            r matches Some(it) ==> (it matches DeviceTreeStructure::NodeBegin(n)
                ==> final(self).spec_depth() == old(self).spec_depth() + 1
                && (forall|k: int| 0 <= k < n@.len() ==> n@[k] != 0) && is_utf8(n@)),
            r matches Some(it) ==> (it is NodeEnd
                ==> final(self).spec_depth() == old(self).spec_depth() - 1),
            r matches Some(it) ==> (it matches DeviceTreeStructure::Property(p)
                ==> (forall|k: int| 0 <= k < p.name@.len() ==> p.name@[k] != 0) && is_utf8(
                    p.name@,
                )),
            r matches Some(it) ==> exists|t: int|
                #![trigger be32(old(self).spec_bytes(), t)]
                old(self).spec_index() <= t && t + 4 <= old(self).spec_bytes().len() && (t - old(
                    self,
                ).spec_index()) % 4 == 0 && nops_between(
                    old(self).spec_bytes(),
                    old(self).spec_index(),
                    t,
                ) && item_at(old(self).spec_bytes(), old(self).spec_strings(), t, it),
    {
        loop
            invariant
                self.wf(),
                self.spec_bytes() == old(self).spec_bytes(),
                self.spec_strings() == old(self).spec_strings(),
                self.spec_depth() == old(self).spec_depth(),
                self.spec_index() >= old(self).spec_index(),
                (self.spec_index() - old(self).spec_index()) % 4 == 0,
                nops_between(
                    old(self).spec_bytes(),
                    old(self).spec_index(),
                    self.spec_index(),
                ),
            decreases self.spec_remaining(),
        {
            if self.index >= self.bytes.len() {
                return None;
            }
            let ghost index_at_entry = self.spec_index();
            let token = match self.consume_u32() {
                Some(t) => t,
                None => {
                    return None;
                },
            };
            if token == FDT_NOP_NODE {
                // Nop tokens are skipped; scan the next token.
                proof {
                    assert forall|t: int|
                        old(self).spec_index() <= t < self.spec_index() && (t - old(
                            self,
                        ).spec_index()) % 4 == 0 implies #[trigger] be32(
                        old(self).spec_bytes(),
                        t,
                    ) == FDT_NOP_NODE as int by {
                        if t < index_at_entry {
                        } else {
                            assert(t == index_at_entry);
                        }
                    }
                }
                continue ;
            }
            if token == FDT_BEGIN_NODE {
                self.depth = self.depth + 1;
                let s = match self.consume_str() {
                    Some(s) => s,
                    None => {
                        self.depth = self.depth - 1;
                        return None;
                    },
                };
                proof {
                    assert(be32(old(self).spec_bytes(), index_at_entry) == FDT_BEGIN_NODE
                        as int);
                    assert(item_at(
                        old(self).spec_bytes(),
                        old(self).spec_strings(),
                        index_at_entry,
                        DeviceTreeStructure::NodeBegin(s),
                    ));
                }
                return Some(DeviceTreeStructure::NodeBegin(s));
            }
            if token == FDT_END_NODE {
                if self.depth == 0 {
                    // Unbalanced nodes.
                    return None;
                }
                self.depth = self.depth - 1;
                proof {
                    assert(be32(old(self).spec_bytes(), index_at_entry) == FDT_END_NODE as int);
                }
                return Some(DeviceTreeStructure::NodeEnd);
            }
            if token == FDT_PROP_NODE {
                let len = match self.consume_u32() {
                    Some(l) => l as usize,
                    None => {
                        return None;
                    },
                };
                let nameoff = match self.consume_u32() {
                    Some(o) => o as usize,
                    None => {
                        return None;
                    },
                };
                let start = self.index;
                let n = self.bytes.len();
                if start > n || len > n - start {
                    // Truncated payload.
                    return None;
                }
                // Consume the byte blob.
                self.index = start + len;
                self.consume_padding();
                let d: &'dtb [u8] = self.bytes;
                let slc = slice_subrange(d, start, start + len);
                // The name lives in the strings section and is not
                // consumed.
                if nameoff > self.strings.len() {
                    return None;
                }
                let sd: &'dtb [u8] = self.strings;
                let name_tail = slice_subrange(sd, nameoff, sd.len());
                let name = match str_from_bytes(name_tail) {
                    Some(nm) => nm,
                    None => {
                        return None;
                    },
                };
                proof {
                    let t = index_at_entry;
                    let bytes = old(self).spec_bytes();
                    let strings = old(self).spec_strings();
                    assert(be32(bytes, t) == FDT_PROP_NODE as int);
                    assert(start == t + 12);
                    assert(len == be32(bytes, t + 4));
                    assert(nameoff == be32(bytes, t + 8));
                    assert(slc@ == bytes.subrange(t + 12, t + 12 + len));
                    // The name is the NUL-terminated string at the name
                    // offset of the strings section.
                    let no = nameoff as int;
                    let sl = strings.len() as int;
                    let ln = name@.len() as int;
                    assert(name_tail@ == strings.subrange(no, sl));
                    assert forall|j: int| 0 <= j < ln implies name_tail@.subrange(0, ln)[j]
                        == strings.subrange(no, no + ln)[j] by {
                        assert(name_tail@.subrange(0, ln)[j] == name_tail@[j]);
                        assert(strings.subrange(no, sl)[j] == strings[no + j]);
                        assert(strings.subrange(no, no + ln)[j] == strings[no + j]);
                    }
                    assert(name_tail@.subrange(0, ln) =~= strings.subrange(no, no + ln));
                    assert(name@ == name_tail@.subrange(0, nul_pos(name_tail@, 0)));
                    assert(nul_pos(name_tail@, 0) == ln);
                    assert(name@ == strings.subrange(no, no + ln));
                    assert(name_tail@[ln] == 0);
                    assert(strings.subrange(no, sl)[ln] == strings[no + ln]);
                    assert(strings[no + ln] == 0);
                    assert(item_at(
                        bytes,
                        strings,
                        t,
                        DeviceTreeStructure::Property(
                            DeviceTreeNodeProperty { bytes: slc, name },
                        ),
                    ));
                }
                return Some(
                    DeviceTreeStructure::Property(DeviceTreeNodeProperty::new(slc, name)),
                );
            }
            if token == FDT_END {
                // The end of the structure block.
                return None;
            }
            // A corrupt token.
            return None;
        }
    }
}

} // verus!
