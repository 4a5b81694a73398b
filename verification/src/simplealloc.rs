//! Free-list heap allocator over a fixed byte arena.
//!
//! The arena is handed over once at initialisation.  Every block inside it
//! is described by a header record giving the block's arena-relative
//! offset, its payload length, and its free-list link; the headers
//! partition the arena exactly.  Free blocks form a singly linked list
//! threaded through the link fields, with last-in-first-out insertion at
//! the head.  Block addresses are arena-relative offsets throughout, with
//! offset `0` of the *payload* space never handed out, so a zero result
//! plays the role of a null pointer.

use vstd::prelude::*;
use vstd::arithmetic::power2::is_pow2;
use crate::math::round_up;
use crate::math::round_up_spec;

verus! {

/// Granularity every request is rounded up to: the native word width, so
/// that every payload is naturally aligned.
pub const ALLOCATION_ROUNDING_FACTOR: usize = 8;

/// Bytes a block header occupies in front of its payload.
pub const HEADER_SIZE: usize = 16;

/// Extra headroom a block must offer beyond the request and the new
/// header before it is worth splitting, so a split never produces a
/// remainder too small to carry a header plus some payload.
pub const SPLIT_FUDGE_FACTOR: usize = 16;

/// Smallest alignment the aligned-allocation adapter accepts: below it,
/// the word-granular base allocator already guarantees natural alignment.
pub const MIN_ALIGN: usize = 8;

/// Fixed ceiling (exclusive) on the alignments the adapter accepts.
pub const MAX_ALIGN: usize = 131072;

/// A block header's free-list field: the used marker, the end-of-list
/// sentinel, or the arena offset of the next free block's header.
#[derive(Clone, Copy, Debug, PartialEq, Eq, Structural)]
pub enum FreeLink {
    Used,
    End,
    Next(usize),
}

/// One block: the arena offset of its header, its payload length in bytes
/// (the header itself excluded), and its free-list link.  The payload
/// starts `HEADER_SIZE` bytes past the header; the physical successor's
/// header starts right after the payload.
#[derive(Clone, Copy, Debug, PartialEq, Eq, Structural)]
pub struct AllocationHeader {
    pub offset: usize,
    pub len: usize,
    pub next_free: FreeLink,
}

/// One past the last byte the block covers: header, then payload.
pub open spec fn hdr_end(b: AllocationHeader) -> int {
    b.offset + HEADER_SIZE + b.len
}

impl AllocationHeader {
    /// Recover a header offset from a payload offset previously handed
    /// out: the header sits exactly one header size before the payload.
    pub fn from_ptr(ptr: usize) -> (h: usize)
        requires
            ptr >= HEADER_SIZE,
        ensures
            h == ptr - HEADER_SIZE,
    {
        ptr - HEADER_SIZE
    }

    /// The block's payload offset, one header size past the header.
    pub fn allocation(&self) -> (p: usize)
        requires
            self.offset + HEADER_SIZE <= usize::MAX,
        ensures
            p == self.offset + HEADER_SIZE,
    {
        self.offset + HEADER_SIZE
    }

    /// The header offset of the block's physical successor; only
    /// meaningful while strictly inside the arena, which callers must
    /// check against the arena end.
    pub fn next(&self) -> (n: usize)
        requires
            hdr_end(*self) <= usize::MAX,
        ensures
            n == hdr_end(*self),
    {
        self.offset + HEADER_SIZE + self.len
    }

    /// A block is worth splitting when it can hold the request plus a new
    /// header plus the fudge headroom.
    pub fn is_splittable(&self, request_size: usize) -> (r: bool)
        ensures
            r == (self.len >= HEADER_SIZE + SPLIT_FUDGE_FACTOR + request_size),
    {
        request_size <= self.len && self.len - request_size >= HEADER_SIZE + SPLIT_FUDGE_FACTOR
    }

    /// Carve the first `request_size` payload bytes into this block,
    /// which becomes used, and return the header of the free remainder
    /// block that starts right after; the remainder inherits this block's
    /// free-list link.  The caller records the returned header in its
    /// block table.  The lengths of the two parts and the new header add
    /// up exactly to the original length.
    pub fn split_free(&mut self, request_size: usize) -> (splitee: AllocationHeader)
        requires
            old(self).len >= HEADER_SIZE + SPLIT_FUDGE_FACTOR + request_size,
            old(self).next_free != FreeLink::Used,
            request_size != 0,
            hdr_end(*old(self)) <= usize::MAX,
        ensures
            final(self).offset == old(self).offset,
            final(self).len == request_size,
            final(self).next_free == FreeLink::Used,
            splitee.offset == old(self).offset + HEADER_SIZE + request_size,
            splitee.len == old(self).len - request_size - HEADER_SIZE,
            splitee.next_free == old(self).next_free,
            final(self).len + splitee.len + HEADER_SIZE == old(self).len,
            splitee.offset == hdr_end(*final(self)),
            hdr_end(splitee) == hdr_end(*old(self)),
    {
        let splitee = AllocationHeader {
            offset: self.offset + HEADER_SIZE + request_size,
            len: self.len - request_size - HEADER_SIZE,
            next_free: self.next_free,
        };
        self.len = request_size;
        self.next_free = FreeLink::Used;
        splitee
    }

    /// Two blocks may merge only when `other` is simultaneously this
    /// block's physical successor and its current free-list successor.
    pub fn can_merge(&self, other: &AllocationHeader) -> (r: bool)
        requires
            hdr_end(*self) <= usize::MAX,
        ensures
            r == (hdr_end(*self) == other.offset && self.next_free == FreeLink::Next(
                other.offset,
            )),
    {
        self.next() == other.offset && self.next_free == FreeLink::Next(other.offset)
    }

    /// Absorb the physical and free-list successor `other`: this block's
    /// payload grows by the other's payload plus its header, and the
    /// free-list link is taken over.  The caller drops the other block's
    /// record from its block table.
    pub fn merge(&mut self, other: AllocationHeader)
        requires
            hdr_end(*old(self)) == other.offset,
            old(self).next_free == FreeLink::Next(other.offset),
            old(self).len + other.len + HEADER_SIZE <= usize::MAX,
        ensures
            final(self).offset == old(self).offset,
            final(self).len == old(self).len + other.len + HEADER_SIZE,
            final(self).next_free == other.next_free,
            hdr_end(*final(self)) == hdr_end(other),
    {
        self.len = self.len + other.len + HEADER_SIZE;
        self.next_free = other.next_free;
    }

    /// A block is free exactly while its link is not the used marker.
    pub fn is_free(&self) -> (r: bool)
        ensures
            r == (self.next_free != FreeLink::Used),
    {
        self.next_free != FreeLink::Used
    }

    /// Stamp the block as used.
    pub fn mark_used(&mut self)
        ensures
            final(self).offset == old(self).offset,
            final(self).len == old(self).len,
            final(self).next_free == FreeLink::Used,
    {
        self.next_free = FreeLink::Used;
    }
}

/// The little-endian word stored in the eight arena bytes starting at
/// `at`.
pub open spec fn le_word_at(mem: Seq<u8>, at: int) -> int {
    mem[at] + 256 * (mem[at + 1] + 256 * (mem[at + 2] + 256 * (mem[at + 3] + 256 * (mem[at + 4]
        + 256 * (mem[at + 5] + 256 * (mem[at + 6] + 256 * mem[at + 7]))))))
}

/// Store `w` into the eight bytes at `at`, little-endian, leaving every
/// other byte alone.
fn write_word(mem: &mut Vec<u8>, at: usize, w: usize)
    requires
        at + 8 <= old(mem).len(),
    ensures
        final(mem).len() == old(mem).len(),
        forall|j: int|
            0 <= j < old(mem)@.len() && !(at <= j < at + 8) ==> final(mem)@[j] == old(mem)@[j],
        le_word_at(final(mem)@, at as int) == w,
{
    proof {
        assert(usize::MAX as int <= u64::MAX as int) by {
            vstd::layout::unsigned_int_max_values();
            vstd::arithmetic::power2::lemma2_to64();
        }
    }
    let r1 = w / 256;
    let r2 = r1 / 256;
    let r3 = r2 / 256;
    let r4 = r3 / 256;
    let r5 = r4 / 256;
    let r6 = r5 / 256;
    let r7 = r6 / 256;
    mem[at] = (w % 256) as u8;
    mem[at + 1] = (r1 % 256) as u8;
    mem[at + 2] = (r2 % 256) as u8;
    mem[at + 3] = (r3 % 256) as u8;
    mem[at + 4] = (r4 % 256) as u8;
    mem[at + 5] = (r5 % 256) as u8;
    mem[at + 6] = (r6 % 256) as u8;
    mem[at + 7] = (r7 % 256) as u8;
    proof {
        assert(r7 < 256);
        assert(r7 % 256 == r7);
        assert(r6 == r6 % 256 + 256 * r7);
        assert(r5 == r5 % 256 + 256 * r6);
        assert(r4 == r4 % 256 + 256 * r5);
        assert(r3 == r3 % 256 + 256 * r4);
        assert(r2 == r2 % 256 + 256 * r3);
        assert(r1 == r1 % 256 + 256 * r2);
        assert(w == w % 256 + 256 * r1);
    }
}

/// Read the little-endian word in the eight bytes at `at`, full width.
fn read_word64(mem: &Vec<u8>, at: usize) -> (w: u64)
    requires
        at + 8 <= mem.len(),
    ensures
        w == le_word_at(mem@, at as int),
{
    let mut acc: u64 = mem[at + 7] as u64;
    acc = acc * 256 + mem[at + 6] as u64;
    acc = acc * 256 + mem[at + 5] as u64;
    acc = acc * 256 + mem[at + 4] as u64;
    acc = acc * 256 + mem[at + 3] as u64;
    acc = acc * 256 + mem[at + 2] as u64;
    acc = acc * 256 + mem[at + 1] as u64;
    acc = acc * 256 + mem[at] as u64;
    proof {
        assert(acc == le_word_at(mem@, at as int));
    }
    acc
}

/// Read back the little-endian word in the eight bytes at `at`, known to
/// fit a machine word.
fn read_word(mem: &Vec<u8>, at: usize) -> (w: usize)
    requires
        at + 8 <= mem.len(),
        le_word_at(mem@, at as int) <= usize::MAX,
    ensures
        w == le_word_at(mem@, at as int),
{
    let acc = read_word64(mem, at);
    acc as usize
}

/// The headers partition the arena: the first starts at offset zero, each
/// further one starts where its predecessor ends, and the last ends at
/// the arena end.
pub open spec fn parted(bs: Seq<AllocationHeader>, arena_len: int) -> bool {
    &&& bs.len() > 0 ==> bs[0].offset == 0
    &&& bs.len() > 0 ==> hdr_end(bs[bs.len() - 1]) == arena_len
    &&& forall|i: int, j: int|
        #![trigger bs[i], bs[j]]
        0 <= i && j == i + 1 && j < bs.len() ==> bs[j].offset == hdr_end(bs[i])
}

/// Every header offset is word aligned, so every payload is too.
pub open spec fn aligned_offsets(bs: Seq<AllocationHeader>) -> bool {
    forall|i: int|
        0 <= i < bs.len() ==> (#[trigger] bs[i]).offset as int % (ALLOCATION_ROUNDING_FACTOR
            as int) == 0
}

/// Some header in the table starts at the given offset.
pub open spec fn has_blk(bs: Seq<AllocationHeader>, off: usize) -> bool {
    exists|i: int| 0 <= i < bs.len() && (#[trigger] bs[i]).offset == off
}

/// The index of the header starting at the given offset (unique while
/// the table partitions the arena).
pub open spec fn blk_index(bs: Seq<AllocationHeader>, off: usize) -> int {
    choose|i: int| 0 <= i < bs.len() && (#[trigger] bs[i]).offset == off
}

/// The header starting at the given offset.
pub open spec fn blk_at(bs: Seq<AllocationHeader>, off: usize) -> AllocationHeader {
    bs[blk_index(bs, off)]
}

/// In a partitioned table, block ends never pass the start of any later
/// block.
pub proof fn lemma_parted_mono(bs: Seq<AllocationHeader>, arena_len: int, i: int, j: int)
    requires
        parted(bs, arena_len),
        0 <= i < j < bs.len(),
    ensures
        hdr_end(bs[i]) <= bs[j].offset,
    decreases j - i,
{
    if j == i + 1 {
    } else {
        lemma_parted_mono(bs, arena_len, i, j - 1);
    }
}

/// In a partitioned table, every block lies inside the arena.
pub proof fn lemma_parted_in_arena(bs: Seq<AllocationHeader>, arena_len: int, i: int)
    requires
        parted(bs, arena_len),
        0 <= i < bs.len(),
    ensures
        hdr_end(bs[i]) <= arena_len,
        bs[i].offset + HEADER_SIZE <= arena_len,
    decreases bs.len() - i,
{
    if i == bs.len() - 1 {
    } else {
        lemma_parted_mono(bs, arena_len, i, bs.len() - 1);
    }
}

/// In a partitioned table, offsets are distinct, so offset lookup is
/// the inverse of indexing.
pub proof fn lemma_blk_index_of(bs: Seq<AllocationHeader>, arena_len: int, i: int)
    requires
        parted(bs, arena_len),
        0 <= i < bs.len(),
    ensures
        has_blk(bs, bs[i].offset),
        blk_index(bs, bs[i].offset) == i,
        blk_at(bs, bs[i].offset) == bs[i],
{
    assert(0 <= i < bs.len() && bs[i].offset == bs[i].offset);
    let j = blk_index(bs, bs[i].offset);
    if j < i {
        lemma_parted_mono(bs, arena_len, j, i);
        assert(false);
    } else if j > i {
        lemma_parted_mono(bs, arena_len, i, j);
        assert(false);
    }
}

/// A table obtained by splitting entry `i` in two still partitions the
/// arena.
proof fn lemma_parted_after_split(
    bs: Seq<AllocationHeader>,
    bs2: Seq<AllocationHeader>,
    alen: int,
    i: int,
    h: AllocationHeader,
    splitee: AllocationHeader,
)
    requires
        parted(bs, alen),
        0 <= i < bs.len(),
        bs2.len() == bs.len() + 1,
        bs2[i] == h,
        bs2[i + 1] == splitee,
        h.offset == bs[i].offset,
        splitee.offset == hdr_end(h),
        hdr_end(splitee) == hdr_end(bs[i]),
        forall|j: int| 0 <= j < i ==> #[trigger] bs2[j] == bs[j],
        forall|j: int| i + 1 < j < bs2.len() ==> #[trigger] bs2[j] == bs[j - 1],
    ensures
        parted(bs2, alen),
{
    assert(hdr_end(bs2[bs2.len() - 1]) == alen) by {
        if i + 1 < bs2.len() - 1 {
            assert(bs2[bs2.len() - 1] == bs[bs.len() - 1]);
        }
    }
    assert forall|a: int, b: int|
        #![trigger bs2[a], bs2[b]]
        0 <= a && b == a + 1 && b < bs2.len() implies bs2[b].offset == hdr_end(bs2[a]) by {
        if b < i {
            assert(bs2[a] == bs[a] && bs2[b] == bs[b]);
        } else if b == i {
            assert(bs2[a] == bs[a] && bs2[b].offset == bs[b].offset);
        } else if b == i + 1 {
        } else if b == i + 2 {
            assert(bs2[b] == bs[b - 1]);
        } else {
            assert(bs2[a] == bs[a - 1] && bs2[b] == bs[b - 1]);
        }
    }
}

/// No header in a partitioned table starts strictly inside block `i`.
proof fn lemma_fresh_inner_offset(bs: Seq<AllocationHeader>, alen: int, i: int, so: int)
    requires
        parted(bs, alen),
        0 <= i < bs.len(),
        bs[i].offset < so < hdr_end(bs[i]),
    ensures
        forall|j: int| 0 <= j < bs.len() ==> (#[trigger] bs[j]).offset != so,
{
    assert forall|j: int| 0 <= j < bs.len() implies (#[trigger] bs[j]).offset != so by {
        if j < i {
            lemma_parted_mono(bs, alen, j, i);
        } else if j > i {
            lemma_parted_mono(bs, alen, i, j);
        }
    }
}

/// After a split at table index `i` (list position `k`) and the relink
/// of the predecessor (at old table index `pj`, final index `pi3`; the
/// head when `k == 0`), the free list with the remainder `so` in place of
/// the split block's offset is exactly the list structure of the final
/// table.
#[verifier::rlimit(100)]
proof fn lemma_split_relink_links_ok(
    bs: Seq<AllocationHeader>,
    bs3: Seq<AllocationHeader>,
    gl: Seq<usize>,
    head: FreeLink,
    head2: FreeLink,
    alen: int,
    i: int,
    k: int,
    pj: int,
    pi3: int,
    so: usize,
)
    requires
        parted(bs, alen),
        links_ok(bs, head, gl),
        parted(bs3, alen),
        0 <= i < bs.len(),
        bs[i].next_free != FreeLink::Used,
        0 <= k < gl.len(),
        gl[k] == bs[i].offset,
        bs3.len() == bs.len() + 1,
        bs3[i].offset == bs[i].offset,
        bs3[i].next_free == FreeLink::Used,
        bs3[i + 1].offset == so,
        bs3[i + 1].next_free == bs[i].next_free,
        forall|j: int| 0 <= j < bs.len() ==> (#[trigger] bs[j]).offset != so,
        forall|j: int| 0 <= j < i ==> (#[trigger] bs3[j]).offset == bs[j].offset,
        forall|j: int|
            i + 1 < j < bs3.len() ==> (#[trigger] bs3[j]).offset == bs[j - 1].offset,
        forall|j: int| 0 <= j < i && j != pi3 ==> #[trigger] bs3[j] == bs[j],
        forall|j: int| i + 1 < j < bs3.len() && j != pi3 ==> #[trigger] bs3[j] == bs[j - 1],
        k == 0 ==> head2 == FreeLink::Next(so) && pi3 == -1,
        k > 0 ==> head2 == head,
        k > 0 ==> pj == blk_index(bs, gl[k - 1]) && 0 <= pj < bs.len() && pj != i && bs[
            pj].offset == gl[k - 1],
        k > 0 ==> pi3 == (if pj < i {
            pj
        } else {
            pj + 1
        }),
        k > 0 ==> 0 <= pi3 < bs3.len() && bs3[pi3].next_free == FreeLink::Next(so),
    ensures
        links_ok(bs3, head2, gl.update(k, so)),
{
    let gl2 = gl.update(k, so);
    // Offset lookup in the final table, in terms of the old one.
    assert forall|j: int| 0 <= j < bs.len() implies has_blk(bs3, #[trigger] bs[j].offset)
        && blk_index(bs3, bs[j].offset) == (if j <= i {
        j
    } else {
        j + 1
    }) by {
        if j <= i {
            assert(bs3[j].offset == bs[j].offset);
            lemma_blk_index_of(bs3, alen, j);
        } else {
            assert(bs3[j + 1].offset == bs[j].offset);
            lemma_blk_index_of(bs3, alen, j + 1);
        }
    }
    lemma_blk_index_of(bs3, alen, i + 1);
    assert(blk_at(bs3, so) == bs3[i + 1]);
    // Head clause.
    assert(match head2 {
        FreeLink::Used => false,
        FreeLink::End => gl2.len() == 0,
        FreeLink::Next(oo) => gl2.len() > 0 && gl2[0] == oo,
    }) by {
        if k > 0 {
            assert(gl2[0] == gl[0]);
        }
    }
    // Link clauses.
    assert forall|kk: int| 0 <= kk < gl2.len() implies has_blk(bs3, #[trigger] gl2[kk])
        && blk_at(bs3, gl2[kk]).next_free == (if kk + 1 < gl2.len() {
        FreeLink::Next(gl2[kk + 1])
    } else {
        FreeLink::End
    }) by {
        if kk == k {
            assert(blk_at(bs3, so) == bs3[i + 1]);
            assert(bs3[i + 1].next_free == bs[i].next_free);
            assert(blk_at(bs, gl[k]) == bs[i]) by {
                lemma_blk_index_of(bs, alen, i);
            }
            if kk + 1 < gl2.len() {
                assert(gl2[kk + 1] == gl[kk + 1]);
            }
        } else {
            assert(gl2[kk] == gl[kk]);
            assert(has_blk(bs, gl[kk]));
            let j = blk_index(bs, gl[kk]);
            assert(bs[j].offset == gl[kk]);
            assert(blk_at(bs, gl[kk]) == bs[j]);
            let j3: int = if j < i {
                j
            } else {
                j + 1
            };
            assert(blk_index(bs3, gl[kk]) == j3);
            assert(blk_at(bs3, gl[kk]) == bs3[j3]);
            if kk == k - 1 {
                // The predecessor now links to the remainder.
                assert(j == pj && j3 == pi3);
                assert(bs3[j3].next_free == FreeLink::Next(so));
                assert(gl2[kk + 1] == so);
            } else {
                assert(j != i) by {
                    if j == i {
                        lemma_blk_index_of(bs, alen, i);
                    }
                }
                if k > 0 {
                    assert(gl[kk] != gl[k - 1]);
                    assert(j != pj);
                    assert(j3 != pi3);
                }
                assert(bs3[j3].next_free == bs[j].next_free);
                if kk + 1 < gl2.len() && kk + 1 != k {
                    assert(gl2[kk + 1] == gl[kk + 1]);
                }
                if kk + 1 == k {
                    assert(false);
                }
            }
        }
    }
    // Distinctness: the fresh offset collides with nothing.
    assert forall|k1: int, k2: int| 0 <= k1 < k2 < gl2.len() implies #[trigger] gl2[k1]
        != #[trigger] gl2[k2] by {
        if k1 != k && k2 != k {
            assert(gl2[k1] == gl[k1] && gl2[k2] == gl[k2]);
        } else {
            let other: int = if k1 == k {
                k2
            } else {
                k1
            };
            assert(gl2[other] == gl[other]);
            assert(has_blk(bs, gl[other]));
            let j = blk_index(bs, gl[other]);
            assert(bs[j].offset == gl[other]);
            assert(bs[j].offset != so);
        }
    }
    // Completeness: every free block of the final table is listed.
    assert forall|j: int|
        0 <= j < bs3.len() && (#[trigger] bs3[j]).next_free != FreeLink::Used implies gl2
        .contains(bs3[j].offset) by {
        if j == i + 1 {
            assert(gl2[k] == so);
            assert(bs3[j].offset == so);
        } else if j == i {
            assert(false);
        } else {
            let jold: int = if j < i {
                j
            } else {
                j - 1
            };
            assert(bs[jold].offset == bs3[j].offset);
            if k > 0 && j == pi3 {
                assert(jold == pj);
                assert(blk_at(bs, gl[k - 1]) == bs[pj]);
                assert(bs[jold].next_free != FreeLink::Used);
            } else {
                assert(bs3[j].next_free == bs[jold].next_free);
            }
            assert(gl.contains(bs[jold].offset));
            let kk = choose|kk: int| 0 <= kk < gl.len() && gl[kk] == bs[jold].offset;
            if kk == k {
                lemma_blk_index_of(bs, alen, jold);
                assert(false);
            }
            assert(gl2[kk] == bs3[j].offset);
            assert(gl2.contains(bs3[j].offset));
        }
    }
}

/// After the whole block at table index `i` (list position `k`) is taken
/// off the free list and marked used, with its predecessor (old table
/// index `pj`; the head when `k == 0`) relinked past it, the list without
/// position `k` is exactly the list structure of the final table.
#[verifier::rlimit(100)]
proof fn lemma_unlink_links_ok(
    bs: Seq<AllocationHeader>,
    bs3: Seq<AllocationHeader>,
    gl: Seq<usize>,
    head: FreeLink,
    head2: FreeLink,
    alen: int,
    i: int,
    k: int,
    pj: int,
)
    requires
        parted(bs, alen),
        links_ok(bs, head, gl),
        parted(bs3, alen),
        0 <= i < bs.len(),
        bs[i].next_free != FreeLink::Used,
        0 <= k < gl.len(),
        gl[k] == bs[i].offset,
        bs3.len() == bs.len(),
        forall|j: int| 0 <= j < bs.len() ==> (#[trigger] bs3[j]).offset == bs[j].offset,
        forall|j: int| 0 <= j < bs.len() && j != i && j != pj ==> #[trigger] bs3[j] == bs[j],
        bs3[i].next_free == FreeLink::Used,
        k == 0 ==> head2 == (if 1 < gl.len() {
            FreeLink::Next(gl[1])
        } else {
            FreeLink::End
        }) && pj == -1,
        k > 0 ==> head2 == head,
        k > 0 ==> pj == blk_index(bs, gl[k - 1]) && 0 <= pj < bs.len() && pj != i && bs[
            pj].offset == gl[k - 1],
        k > 0 ==> bs3[pj].next_free == (if k + 1 < gl.len() {
            FreeLink::Next(gl[k + 1])
        } else {
            FreeLink::End
        }),
    ensures
        links_ok(bs3, head2, gl.remove(k)),
{
    let gl2 = gl.remove(k);
    assert forall|j: int| 0 <= j < bs.len() implies has_blk(bs3, #[trigger] bs[j].offset)
        && blk_index(bs3, bs[j].offset) == j by {
        lemma_blk_index_of(bs3, alen, j);
    }
    assert forall|kk: int| 0 <= kk < gl.len() implies has_blk(bs, #[trigger] gl[kk])
        && blk_index(bs, gl[kk]) == blk_index(bs3, gl[kk]) && blk_at(bs3, gl[kk]).offset == gl[
        kk] by {
        let j = blk_index(bs, gl[kk]);
        assert(bs[j].offset == gl[kk]);
        lemma_blk_index_of(bs3, alen, j);
    }
    // Head clause.
    assert(match head2 {
        FreeLink::Used => false,
        FreeLink::End => gl2.len() == 0,
        FreeLink::Next(oo) => gl2.len() > 0 && gl2[0] == oo,
    }) by {
        if k == 0 {
            if gl.len() > 1 {
                assert(gl2[0] == gl[1]);
            }
        } else {
            assert(gl2[0] == gl[0]);
        }
    }
    // Tail clause.
    if gl2.len() > 0 {
        assert(blk_at(bs3, gl2[gl2.len() - 1]).next_free == FreeLink::End) by {
            if k == gl.len() - 1 {
                assert(gl2[gl2.len() - 1] == gl[k - 1]);
                assert(blk_at(bs3, gl[k - 1]) == bs3[pj]);
            } else {
                assert(gl2[gl2.len() - 1] == gl[gl.len() - 1]);
                let j = blk_index(bs, gl[gl.len() - 1]);
                assert(blk_at(bs, gl[gl.len() - 1]) == bs[j]);
                assert(blk_at(bs, gl[gl.len() - 1]).next_free == FreeLink::End);
                assert(j != i) by {
                    if j == i {
                        lemma_blk_index_of(bs, alen, i);
                        assert(gl[gl.len() - 1] == gl[k]);
                    }
                }
                if k > 0 && j == pj {
                    assert(gl[gl.len() - 1] == gl[k - 1]);
                    assert(k + 1 == gl.len());
                    assert(false);
                }
                assert(bs3[j] == bs[j]);
            }
        }
    }
    // Pair clauses.
    assert forall|k1: int, k2: int|
        #![trigger gl2[k1], gl2[k2]]
        0 <= k1 && k2 == k1 + 1 && k2 < gl2.len() implies blk_at(bs3, gl2[k1]).next_free
        == FreeLink::Next(gl2[k2]) by {
        if k2 < k {
            let j = blk_index(bs, gl[k1]);
            assert(blk_at(bs, gl[k1]) == bs[j]);
            assert(blk_at(bs, gl[k1]).next_free == FreeLink::Next(gl[k2]));
            assert(j != i) by {
                if j == i {
                    lemma_blk_index_of(bs, alen, i);
                }
            }
            if k > 0 && j == pj {
                assert(gl[k1] == gl[k - 1]);
                assert(k1 == k - 1 && k2 == k);
                assert(false);
            }
            assert(bs3[j] == bs[j]);
            assert(gl2[k1] == gl[k1] && gl2[k2] == gl[k2]);
        } else if k1 == k - 1 {
            assert(gl2[k1] == gl[k - 1] && gl2[k2] == gl[k + 1]);
            assert(blk_at(bs3, gl[k - 1]) == bs3[pj]);
        } else {
            assert(gl2[k1] == gl[k1 + 1] && gl2[k2] == gl[k2 + 1]);
            let j = blk_index(bs, gl[k1 + 1]);
            assert(blk_at(bs, gl[k1 + 1]) == bs[j]);
            assert(blk_at(bs, gl[k1 + 1]).next_free == FreeLink::Next(gl[k2 + 1]));
            assert(j != i) by {
                if j == i {
                    lemma_blk_index_of(bs, alen, i);
                }
            }
            if k > 0 && j == pj {
                assert(gl[k1 + 1] == gl[k - 1]);
                assert(false);
            }
            assert(bs3[j] == bs[j]);
        }
    }
    // Distinctness.
    assert forall|k1: int, k2: int| 0 <= k1 < k2 < gl2.len() implies #[trigger] gl2[k1]
        != #[trigger] gl2[k2] by {
        let a: int = if k1 < k {
            k1
        } else {
            k1 + 1
        };
        let b: int = if k2 < k {
            k2
        } else {
            k2 + 1
        };
        assert(gl2[k1] == gl[a] && gl2[k2] == gl[b]);
    }
    // Completeness.
    assert forall|j: int|
        0 <= j < bs3.len() && (#[trigger] bs3[j]).next_free != FreeLink::Used implies gl2
        .contains(bs3[j].offset) by {
        assert(j != i);
        if k > 0 && j == pj {
            assert(bs[j].next_free == FreeLink::Next(gl[k]));
        }
        assert(bs[j].next_free != FreeLink::Used);
        assert(gl.contains(bs[j].offset));
        let kk = choose|kk: int| 0 <= kk < gl.len() && gl[kk] == bs[j].offset;
        assert(kk != k) by {
            if kk == k {
                lemma_blk_index_of(bs, alen, j);
                lemma_blk_index_of(bs, alen, i);
            }
        }
        let kk2: int = if kk < k {
            kk
        } else {
            kk - 1
        };
        assert(gl2[kk2] == gl[kk]);
        assert(gl2.contains(bs3[j].offset));
    }
}

/// Two header records describe the same span with the same used-or-free
/// standing (their free-list links may differ).
pub open spec fn same_block_shape(a: AllocationHeader, b: AllocationHeader) -> bool {
    &&& a.offset == b.offset
    &&& a.len == b.len
    &&& (a.next_free == FreeLink::Used <==> b.next_free == FreeLink::Used)
}

/// The free list is exactly described by the order `gl` of free-block
/// offsets: the stored head names the first entry, each entry's link
/// names the next (the last carrying the end sentinel), entries are
/// distinct, and every free block of the table appears.
pub open spec fn links_ok(bs: Seq<AllocationHeader>, head: FreeLink, gl: Seq<usize>) -> bool {
    &&& match head {
        FreeLink::Used => false,
        FreeLink::End => gl.len() == 0,
        FreeLink::Next(o) => gl.len() > 0 && gl[0] == o,
    }
    &&& forall|k: int| 0 <= k < gl.len() ==> has_blk(bs, #[trigger] gl[k])
    &&& gl.len() > 0 ==> blk_at(bs, gl[gl.len() - 1]).next_free == FreeLink::End
    &&& forall|k1: int, k2: int|
        #![trigger gl[k1], gl[k2]]
        0 <= k1 && k2 == k1 + 1 && k2 < gl.len() ==> blk_at(bs, gl[k1]).next_free
            == FreeLink::Next(gl[k2])
    &&& forall|k1: int, k2: int|
        0 <= k1 < k2 < gl.len() ==> #[trigger] gl[k1] != #[trigger] gl[k2]
    &&& forall|i: int|
        0 <= i < bs.len() && (#[trigger] bs[i]).next_free != FreeLink::Used ==> gl.contains(
            bs[i].offset,
        )
}

/// A listed free block's link: the end sentinel at the tail, otherwise
/// the next list entry.
pub proof fn lemma_link_of_entry(
    bs: Seq<AllocationHeader>,
    head: FreeLink,
    gl: Seq<usize>,
    k: int,
)
    requires
        links_ok(bs, head, gl),
        0 <= k < gl.len(),
    ensures
        blk_at(bs, gl[k]).next_free == (if k + 1 < gl.len() {
            FreeLink::Next(gl[k + 1])
        } else {
            FreeLink::End
        }),
        blk_at(bs, gl[k]).next_free != FreeLink::Used,
{
    if k + 1 < gl.len() {
        assert(blk_at(bs, gl[k]).next_free == FreeLink::Next(gl[k + 1]));
    }
}

/// The payload `r` belongs to the first block of the free list (in list
/// order, head first) whose length can hold `size`: the first-fit
/// policy.
pub open spec fn first_fit_pick(
    bs: Seq<AllocationHeader>,
    gl: Seq<usize>,
    r: usize,
    size: int,
) -> bool {
    exists|k: int|
        0 <= k < gl.len() && blk_at(bs, #[trigger] gl[k]).offset + HEADER_SIZE == r && blk_at(
            bs,
            gl[k],
        ).len >= size && (forall|j: int| 0 <= j < k ==> blk_at(bs, #[trigger] gl[j]).len < size)
}

/// What one successful allocation does to the free list and the block
/// table.  The chosen node is the first of the list (head first) whose
/// length holds `size`.  When it has room for the request plus a new
/// header plus the fudge headroom it is split: the payload is exactly
/// `size`, and the free remainder (the rest of the old length less one
/// header) takes the node's place in the list.  Otherwise the whole
/// node leaves the list and all its slack goes with the payload.  Every
/// other listed node keeps its position, its length, and stays free.
pub open spec fn alloc_effect(pre: Allocator, post: Allocator, r: usize, size: int) -> bool {
    exists|k: int|
        #![trigger pre.spec_free_order()[k]]
        {
            let gl = pre.spec_free_order();
            let bs = pre.spec_blocks();
            &&& 0 <= k < gl.len()
            &&& blk_at(bs, gl[k]).offset + HEADER_SIZE == r
            &&& blk_at(bs, gl[k]).len >= size
            &&& (forall|j: int| 0 <= j < k ==> blk_at(bs, #[trigger] gl[j]).len < size)
            &&& (forall|j: int|
                0 <= j < gl.len() && j != k ==> has_blk(post.spec_blocks(), #[trigger] gl[j])
                    && blk_at(post.spec_blocks(), gl[j]).len == blk_at(bs, gl[j]).len && blk_at(
                    post.spec_blocks(),
                    gl[j],
                ).next_free != FreeLink::Used)
            &&& if blk_at(bs, gl[k]).len >= HEADER_SIZE + SPLIT_FUDGE_FACTOR + size {
                let so = (blk_at(bs, gl[k]).offset + HEADER_SIZE + size) as usize;
                &&& post.spec_free_order() == gl.update(k, so)
                &&& post.payload_len(r) == size
                &&& has_blk(post.spec_blocks(), so)
                &&& blk_at(post.spec_blocks(), so).len == blk_at(bs, gl[k]).len - size
                    - HEADER_SIZE
                &&& blk_at(post.spec_blocks(), so).next_free != FreeLink::Used
            } else {
                &&& post.spec_free_order() == gl.remove(k)
                &&& post.payload_len(r) == blk_at(bs, gl[k]).len
            }
        }
}

/// After a split allocation (the chosen block at table index `i`, list
/// position `k`, carved down to `size`), every published fact of the
/// allocation contract holds.
#[verifier::rlimit(100)]
proof fn lemma_allocate_split_post(
    pre: Allocator,
    post: Allocator,
    i: int,
    k: int,
    size: int,
    payload: usize,
)
    requires
        pre.wf(),
        post.wf(),
        0 <= i < pre.spec_blocks().len(),
        0 <= k < pre.spec_free_order().len(),
        pre.spec_free_order()[k] == pre.spec_blocks()[i].offset,
        pre.spec_blocks()[i].next_free != FreeLink::Used,
        0 <= size,
        pre.spec_blocks()[i].len >= size,
        forall|j: int|
            0 <= j < k ==> blk_at(pre.spec_blocks(), #[trigger] pre.spec_free_order()[j]).len
                < size,
        payload == pre.spec_blocks()[i].offset + HEADER_SIZE,
        pre.spec_blocks()[i].len >= HEADER_SIZE + SPLIT_FUDGE_FACTOR + size,
        post.spec_arena_len() == pre.spec_arena_len(),
        post.spec_blocks().len() == pre.spec_blocks().len() + 1,
        post.spec_blocks()[i].offset == pre.spec_blocks()[i].offset,
        post.spec_blocks()[i].len == size,
        post.spec_blocks()[i].next_free == FreeLink::Used,
        post.spec_blocks()[i + 1].next_free != FreeLink::Used,
        post.spec_blocks()[i + 1].offset == pre.spec_blocks()[i].offset + HEADER_SIZE + size,
        post.spec_blocks()[i + 1].len == pre.spec_blocks()[i].len - size - HEADER_SIZE,
        post.spec_free_order() == pre.spec_free_order().update(
            k,
            (pre.spec_blocks()[i].offset + HEADER_SIZE + size) as usize,
        ),
        forall|j: int|
            0 <= j < i ==> same_block_shape(
                #[trigger] post.spec_blocks()[j],
                pre.spec_blocks()[j],
            ),
        forall|j: int|
            i + 1 < j < post.spec_blocks().len() ==> same_block_shape(
                #[trigger] post.spec_blocks()[j],
                pre.spec_blocks()[j - 1],
            ),
    ensures
        post.is_used_payload(payload),
        !pre.is_used_payload(payload),
        pre.is_free_payload(payload),
        post.payload_len(payload) == size,
        payload as int % (ALLOCATION_ROUNDING_FACTOR as int) == 0,
        payload >= HEADER_SIZE,
        payload + post.payload_len(payload) <= post.spec_arena_len(),
        forall|q: usize|
            pre.is_used_payload(q) ==> post.is_used_payload(q) && post.payload_len(q)
                == pre.payload_len(q),
        forall|q: usize| post.is_used_payload(q) && q != payload ==> pre.is_used_payload(q),
        alloc_effect(pre, post, payload, size),
{
    let bs = pre.spec_blocks();
    let bs2 = post.spec_blocks();
    let gl = pre.spec_free_order();
    let alen = pre.spec_arena_len() as int;
    let o = bs[i].offset;
    let so = (o + HEADER_SIZE + size) as usize;
    assert(parted(bs2, alen));
    lemma_blk_index_of(bs2, alen, i + 1);
    assert(has_blk(bs2, so) && blk_at(bs2, so) == bs2[i + 1]);
    assert forall|j: int| 0 <= j < gl.len() && j != k implies has_blk(bs2, #[trigger] gl[j])
        && blk_at(bs2, gl[j]).len == blk_at(bs, gl[j]).len && blk_at(bs2, gl[j]).next_free
        != FreeLink::Used by {
        assert(has_blk(bs, gl[j]));
        let jj = blk_index(bs, gl[j]);
        assert(bs[jj].offset == gl[j]);
        assert(blk_at(bs, gl[j]) == bs[jj]);
        assert(gl[j] != gl[k]) by {
            if j < k {
                assert(gl[j] != gl[k]);
            } else {
                assert(gl[k] != gl[j]);
            }
        }
        assert(jj != i) by {
            if jj == i {
                lemma_blk_index_of(bs, alen, i);
            }
        }
        lemma_link_of_entry(bs, pre.spec_free_list(), gl, j);
        let jj2: int = if jj < i {
            jj
        } else {
            jj + 1
        };
        assert(same_block_shape(bs2[jj2], bs[jj]));
        assert(bs2[jj2].offset == gl[j]);
        lemma_blk_index_of(bs2, alen, jj2);
        assert(blk_at(bs2, gl[j]) == bs2[jj2]);
    }
    lemma_blk_index_of(bs2, alen, i);
    assert(post.is_used_payload(payload));
    assert(post.payload_len(payload) == size);
    lemma_parted_in_arena(bs2, alen, i);
    crate::math::lemma_mod_sum_zero(o as int, HEADER_SIZE as int, ALLOCATION_ROUNDING_FACTOR
        as int);
    assert forall|q: usize| pre.is_used_payload(q) implies post.is_used_payload(q)
        && post.payload_len(q) == pre.payload_len(q) by {
        let jj = choose|jj: int|
            0 <= jj < bs.len() && (#[trigger] bs[jj]).next_free == FreeLink::Used
                && bs[jj].offset + HEADER_SIZE == q;
        assert(jj != i);
        let jj2: int = if jj < i {
            jj
        } else {
            jj + 1
        };
        assert(same_block_shape(bs2[jj2], bs[jj]));
        lemma_blk_index_of(bs2, alen, jj2);
        lemma_blk_index_of(bs, alen, jj);
    }
    assert forall|q: usize| post.is_used_payload(q) && q != payload implies pre
        .is_used_payload(q) by {
        let jj2 = choose|jj2: int|
            0 <= jj2 < bs2.len() && (#[trigger] bs2[jj2]).next_free == FreeLink::Used
                && bs2[jj2].offset + HEADER_SIZE == q;
        assert(jj2 != i);
        assert(jj2 != i + 1);
        let jj: int = if jj2 < i {
            jj2
        } else {
            jj2 - 1
        };
        assert(same_block_shape(bs2[jj2], bs[jj]));
    }
    assert(!pre.is_used_payload(payload)) by {
        if pre.is_used_payload(payload) {
            let jj = choose|jj: int|
                0 <= jj < bs.len() && (#[trigger] bs[jj]).next_free == FreeLink::Used
                    && bs[jj].offset + HEADER_SIZE == payload;
            lemma_blk_index_of(bs, alen, jj);
            lemma_blk_index_of(bs, alen, i);
            assert(jj == i);
        }
    }
    assert(blk_at(bs, gl[k]) == bs[i]) by {
        lemma_blk_index_of(bs, alen, i);
    }
    assert(blk_at(bs2, so).len == bs[i].len - size - HEADER_SIZE);
    assert(blk_at(bs2, so).next_free != FreeLink::Used);
    assert(alloc_effect(pre, post, payload, size));
}

/// After a whole-block allocation (the chosen block at table index `i`,
/// list position `k`, handed out with its slack), every published fact
/// of the allocation contract holds.
#[verifier::rlimit(100)]
proof fn lemma_allocate_whole_post(
    pre: Allocator,
    post: Allocator,
    i: int,
    k: int,
    size: int,
    payload: usize,
)
    requires
        pre.wf(),
        post.wf(),
        0 <= i < pre.spec_blocks().len(),
        0 <= k < pre.spec_free_order().len(),
        pre.spec_free_order()[k] == pre.spec_blocks()[i].offset,
        pre.spec_blocks()[i].next_free != FreeLink::Used,
        0 <= size,
        pre.spec_blocks()[i].len >= size,
        forall|j: int|
            0 <= j < k ==> blk_at(pre.spec_blocks(), #[trigger] pre.spec_free_order()[j]).len
                < size,
        payload == pre.spec_blocks()[i].offset + HEADER_SIZE,
        !(pre.spec_blocks()[i].len >= HEADER_SIZE + SPLIT_FUDGE_FACTOR + size),
        post.spec_arena_len() == pre.spec_arena_len(),
        post.spec_blocks().len() == pre.spec_blocks().len(),
        post.spec_blocks()[i].offset == pre.spec_blocks()[i].offset,
        post.spec_blocks()[i].len == pre.spec_blocks()[i].len,
        post.spec_blocks()[i].next_free == FreeLink::Used,
        post.spec_free_order() == pre.spec_free_order().remove(k),
        forall|j: int|
            0 <= j < post.spec_blocks().len() && j != i ==> same_block_shape(
                #[trigger] post.spec_blocks()[j],
                pre.spec_blocks()[j],
            ),
    ensures
        post.is_used_payload(payload),
        !pre.is_used_payload(payload),
        pre.is_free_payload(payload),
        post.payload_len(payload) == pre.spec_blocks()[i].len,
        payload as int % (ALLOCATION_ROUNDING_FACTOR as int) == 0,
        payload >= HEADER_SIZE,
        payload + post.payload_len(payload) <= post.spec_arena_len(),
        forall|q: usize|
            pre.is_used_payload(q) ==> post.is_used_payload(q) && post.payload_len(q)
                == pre.payload_len(q),
        forall|q: usize| post.is_used_payload(q) && q != payload ==> pre.is_used_payload(q),
        alloc_effect(pre, post, payload, size),
{
    let bs = pre.spec_blocks();
    let bs2 = post.spec_blocks();
    let gl = pre.spec_free_order();
    let alen = pre.spec_arena_len() as int;
    let o = bs[i].offset;
    assert(parted(bs2, alen));
    assert forall|j: int| 0 <= j < gl.len() && j != k implies has_blk(bs2, #[trigger] gl[j])
        && blk_at(bs2, gl[j]).len == blk_at(bs, gl[j]).len && blk_at(bs2, gl[j]).next_free
        != FreeLink::Used by {
        assert(has_blk(bs, gl[j]));
        let jj = blk_index(bs, gl[j]);
        assert(bs[jj].offset == gl[j]);
        assert(blk_at(bs, gl[j]) == bs[jj]);
        assert(gl[j] != gl[k]) by {
            if j < k {
                assert(gl[j] != gl[k]);
            } else {
                assert(gl[k] != gl[j]);
            }
        }
        assert(jj != i) by {
            if jj == i {
                lemma_blk_index_of(bs, alen, i);
            }
        }
        lemma_link_of_entry(bs, pre.spec_free_list(), gl, j);
        assert(same_block_shape(bs2[jj], bs[jj]));
        assert(bs2[jj].offset == gl[j]);
        lemma_blk_index_of(bs2, alen, jj);
        assert(blk_at(bs2, gl[j]) == bs2[jj]);
    }
    lemma_blk_index_of(bs2, alen, i);
    assert(post.is_used_payload(payload));
    assert(post.payload_len(payload) == bs[i].len);
    lemma_parted_in_arena(bs2, alen, i);
    crate::math::lemma_mod_sum_zero(o as int, HEADER_SIZE as int, ALLOCATION_ROUNDING_FACTOR
        as int);
    assert forall|q: usize| pre.is_used_payload(q) implies post.is_used_payload(q)
        && post.payload_len(q) == pre.payload_len(q) by {
        let jj = choose|jj: int|
            0 <= jj < bs.len() && (#[trigger] bs[jj]).next_free == FreeLink::Used
                && bs[jj].offset + HEADER_SIZE == q;
        assert(jj != i);
        assert(same_block_shape(bs2[jj], bs[jj]));
        lemma_blk_index_of(bs2, alen, jj);
        lemma_blk_index_of(bs, alen, jj);
    }
    assert forall|q: usize| post.is_used_payload(q) && q != payload implies pre
        .is_used_payload(q) by {
        let jj2 = choose|jj2: int|
            0 <= jj2 < bs2.len() && (#[trigger] bs2[jj2]).next_free == FreeLink::Used
                && bs2[jj2].offset + HEADER_SIZE == q;
        assert(jj2 != i);
        assert(same_block_shape(bs2[jj2], bs[jj2]));
    }
    assert(!pre.is_used_payload(payload)) by {
        if pre.is_used_payload(payload) {
            let jj = choose|jj: int|
                0 <= jj < bs.len() && (#[trigger] bs[jj]).next_free == FreeLink::Used
                    && bs[jj].offset + HEADER_SIZE == payload;
            lemma_blk_index_of(bs, alen, jj);
            lemma_blk_index_of(bs, alen, i);
            assert(jj == i);
        }
    }
    assert(blk_at(bs, gl[k]) == bs[i]) by {
        lemma_blk_index_of(bs, alen, i);
    }
    assert(alloc_effect(pre, post, payload, size));
}

/// All memory-management state: the arena bytes, their length, the block
/// table that partitions them, and the free-list head, together with the
/// (ghost) order of the free list.
pub struct Allocator {
    arena_len: usize,
    blocks: Vec<AllocationHeader>,
    free_list: FreeLink,
    mem: Vec<u8>,
    free_order: Ghost<Seq<usize>>,
}

impl Allocator {
    /// The block table, in arena order.
    pub closed spec fn spec_blocks(self) -> Seq<AllocationHeader> {
        self.blocks@
    }

    /// The arena bytes.
    pub closed spec fn spec_mem(self) -> Seq<u8> {
        self.mem@
    }

    /// The arena length in bytes.
    pub closed spec fn spec_arena_len(self) -> usize {
        self.arena_len
    }

    /// The free-list order, head first.
    pub closed spec fn spec_free_order(self) -> Seq<usize> {
        self.free_order@
    }

    /// The stored free-list head.
    pub closed spec fn spec_free_list(self) -> FreeLink {
        self.free_list
    }

    /// The allocator's invariant: the block table partitions the arena
    /// on word-aligned offsets, the free list threads exactly the free
    /// blocks, and the byte store covers the arena.
    pub closed spec fn wf(self) -> bool {
        &&& parted(self.blocks@, self.arena_len as int)
        &&& aligned_offsets(self.blocks@)
        &&& links_ok(self.blocks@, self.free_list, self.free_order@)
        &&& self.mem@.len() == self.arena_len
    }

    /// The given payload offset belongs to a used block.
    pub open spec fn is_used_payload(self, p: usize) -> bool {
        exists|i: int|
            0 <= i < self.spec_blocks().len() && (#[trigger] self.spec_blocks()[i]).next_free
                == FreeLink::Used && self.spec_blocks()[i].offset + HEADER_SIZE == p
    }

    /// The given payload offset belongs to a free block.
    pub open spec fn is_free_payload(self, p: usize) -> bool {
        exists|i: int|
            0 <= i < self.spec_blocks().len() && (#[trigger] self.spec_blocks()[i]).next_free
                != FreeLink::Used && self.spec_blocks()[i].offset + HEADER_SIZE == p
    }

    /// The payload length recorded for the block whose payload starts at
    /// the given offset.
    pub open spec fn payload_len(self, p: usize) -> usize {
        blk_at(self.spec_blocks(), (p - HEADER_SIZE) as usize).len
    }

    /// Some free block could satisfy a rounded request of the given
    /// size.
    pub open spec fn has_free_block_of(self, size: int) -> bool {
        exists|i: int|
            0 <= i < self.spec_blocks().len() && (#[trigger] self.spec_blocks()[i]).next_free
                != FreeLink::Used && self.spec_blocks()[i].len >= size
    }

    /// One-time setup: the whole arena becomes a single free block whose
    /// payload is everything past one header, and the free list holds
    /// exactly that block.  Calling it again resets the allocator,
    /// forgetting every earlier allocation.
    pub fn init(&mut self, arena: Vec<u8>)
        requires
            arena.len() >= HEADER_SIZE,
        ensures
            final(self).wf(),
            final(self).spec_arena_len() == arena.len(),
            final(self).spec_mem() == arena@,
            final(self).spec_blocks() =~= seq![
                AllocationHeader {
                    offset: 0,
                    len: (arena.len() - HEADER_SIZE) as usize,
                    next_free: FreeLink::End,
                },
            ],
            final(self).spec_free_order() =~= seq![0usize],
            final(self).spec_free_list() == FreeLink::Next(0usize),
            forall|p: usize| !final(self).is_used_payload(p),
            final(self).payload_len(HEADER_SIZE as usize) == arena.len() - HEADER_SIZE,
    {
        self.arena_len = arena.len();
        self.mem = arena;
        let first = AllocationHeader {
            offset: 0,
            len: self.arena_len - HEADER_SIZE,
            next_free: FreeLink::End,
        };
        let mut blocks: Vec<AllocationHeader> = Vec::new();
        blocks.push(first);
        self.blocks = blocks;
        self.free_list = FreeLink::Next(0);
        let ghost order: Seq<usize> = seq![0usize];
        self.free_order = Ghost(order);
        proof {
            let bs = self.blocks@;
            let gl = self.free_order@;
            assert(bs.len() == 1);
            assert(gl.len() == 1 && gl[0] == 0usize);
            assert(bs[0].offset == 0usize);
            lemma_blk_index_of(bs, self.arena_len as int, 0);
            assert(blk_at(bs, 0usize) == bs[0]);
            assert(forall|i: int|
                0 <= i < bs.len() && (#[trigger] bs[i]).next_free != FreeLink::Used
                    ==> gl.contains(bs[i].offset)) by {
                assert(gl[0] == 0usize);
            }
        }
    }

    /// Push a block that is currently marked used onto the head of the
    /// free list: its link takes the old head, and the head now names it.
    fn push_free(&mut self, free: usize)
        requires
            old(self).wf(),
            has_blk(old(self).spec_blocks(), free),
            blk_at(old(self).spec_blocks(), free).next_free == FreeLink::Used,
        ensures
            final(self).wf(),
            final(self).spec_arena_len() == old(self).spec_arena_len(),
            final(self).spec_mem() == old(self).spec_mem(),
            final(self).spec_free_list() == FreeLink::Next(free),
            final(self).spec_free_order() == seq![free] + old(self).spec_free_order(),
            final(self).spec_blocks() == old(self).spec_blocks().update(
                blk_index(old(self).spec_blocks(), free),
                AllocationHeader {
                    offset: blk_at(old(self).spec_blocks(), free).offset,
                    len: blk_at(old(self).spec_blocks(), free).len,
                    next_free: old(self).spec_free_list(),
                },
            ),
    {
        let ghost bs = self.blocks@;
        let ghost gl = self.free_order@;
        let ghost alen = self.arena_len as int;
        let i = self.find_block(free);
        proof {
            lemma_blk_index_of(bs, alen, i as int);
        }
        let mut h = self.blocks[i];
        h.next_free = self.free_list;
        self.blocks[i] = h;
        self.free_list = FreeLink::Next(free);
        let ghost order = seq![free] + gl;
        self.free_order = Ghost(order);
        proof {
            let bs2 = self.blocks@;
            let gl2 = order;
            assert(bs2 == bs.update(i as int, h));
            assert(forall|j: int| 0 <= j < bs.len() ==> (#[trigger] bs2[j]).offset == bs[j].offset
                && bs2[j].len == bs[j].len);
            assert(parted(bs2, alen));
            assert(aligned_offsets(bs2));
            // Offset lookup is unchanged by the relink.
            assert forall|j: int| 0 <= j < bs.len() implies has_blk(bs2, #[trigger] bs[j].offset)
                && blk_index(bs2, bs[j].offset) == j by {
                lemma_blk_index_of(bs2, alen, j);
            }
            // The pushed block was not on the list before.
            assert forall|k: int| 0 <= k < gl.len() implies #[trigger] gl[k] != free by {
                if gl[k] == free {
                    assert(blk_at(bs, gl[k]).next_free == if k + 1 < gl.len() {
                        FreeLink::Next(gl[k + 1])
                    } else {
                        FreeLink::End
                    });
                }
            }
            // Each list entry resolves to the same header as before.
            assert forall|k: int| 0 <= k < gl.len() implies has_blk(bs2, #[trigger] gl[k])
                && blk_at(bs2, gl[k]) == blk_at(bs, gl[k]) by {
                assert(has_blk(bs, gl[k]));
                let j = blk_index(bs, gl[k]);
                assert(bs[j].offset == gl[k]);
                lemma_blk_index_of(bs2, alen, j);
                assert(blk_index(bs2, gl[k]) == j);
                assert(j != i as int);
            }
            assert(has_blk(bs2, free) && blk_at(bs2, free) == h) by {
                lemma_blk_index_of(bs2, alen, i as int);
            }
            // Head and link clauses for the new order.
            assert forall|k: int| 0 <= k < gl2.len() implies has_blk(bs2, #[trigger] gl2[k])
                && blk_at(bs2, gl2[k]).next_free == (if k + 1 < gl2.len() {
                FreeLink::Next(gl2[k + 1])
            } else {
                FreeLink::End
            }) by {
                if k == 0 {
                    assert(gl2[0] == free);
                    if gl.len() > 0 {
                        assert(blk_at(bs2, free).next_free == old(self).spec_free_list());
                        assert(gl2[1] == gl[0]);
                    }
                } else {
                    assert(gl2[k] == gl[k - 1]);
                    assert(blk_at(bs, gl[k - 1]).next_free == if k < gl.len() {
                        FreeLink::Next(gl[k])
                    } else {
                        FreeLink::End
                    });
                    if k + 1 < gl2.len() {
                        assert(gl2[k + 1] == gl[k]);
                    }
                }
            }
            // Distinctness.
            assert forall|k1: int, k2: int| 0 <= k1 < k2 < gl2.len() implies #[trigger] gl2[k1]
                != #[trigger] gl2[k2] by {
                if k1 == 0 {
                    assert(gl2[k2] == gl[k2 - 1]);
                } else {
                    assert(gl2[k1] == gl[k1 - 1] && gl2[k2] == gl[k2 - 1]);
                }
            }
            // Completeness: every free block is on the new list.
            assert forall|j: int|
                0 <= j < bs2.len() && (#[trigger] bs2[j]).next_free != FreeLink::Used implies gl2
                .contains(bs2[j].offset) by {
                if j == i as int {
                    assert(gl2[0] == free);
                } else {
                    assert(bs[j].next_free != FreeLink::Used);
                    assert(gl.contains(bs[j].offset));
                    let k = choose|k: int| 0 <= k < gl.len() && gl[k] == bs[j].offset;
                    assert(gl2[k + 1] == bs[j].offset);
                }
            }
            assert(links_ok(bs2, self.free_list, gl2));
        }
    }

    /// Return a payload pointer to the allocator.  A zero (null) pointer
    /// is a legal no-op.  Otherwise the block's header is recovered from
    /// the pointer, a coalescing attempt probes the physical successor
    /// (the merge needs the successor to also be the free-list successor,
    /// which a freshly freed block, still carrying the used marker, never
    /// satisfies, so the attempt provably never fires), and the block is
    /// pushed onto the head of the free list with its length intact.
    #[verifier::rlimit(100)]
    pub fn dealloc(&mut self, ptr: usize)
        requires
            old(self).wf(),
            ptr == 0 || old(self).is_used_payload(ptr),
        ensures
            final(self).wf(),
            final(self).spec_arena_len() == old(self).spec_arena_len(),
            final(self).spec_mem() == old(self).spec_mem(),
            ptr == 0 ==> *final(self) == *old(self),
            ptr != 0 ==> !final(self).is_used_payload(ptr),
            ptr != 0 ==> final(self).is_free_payload(ptr),
            ptr != 0 ==> final(self).payload_len(ptr) == old(self).payload_len(ptr),
            ptr != 0 ==> final(self).spec_free_order() == seq![(ptr - HEADER_SIZE) as usize]
                + old(self).spec_free_order(),
            forall|q: usize|
                q != ptr ==> (final(self).is_used_payload(q) <==> old(self).is_used_payload(q)),
            forall|q: usize|
                q != ptr && old(self).is_used_payload(q) ==> final(self).payload_len(q) == old(
                    self,
                ).payload_len(q),
    {
        if ptr == 0 {
            return ;
        }
        let ghost bs = self.blocks@;
        let ghost alen = self.arena_len as int;
        proof {
            let w = choose|w: int|
                0 <= w < bs.len() && (#[trigger] bs[w]).next_free == FreeLink::Used
                    && bs[w].offset + HEADER_SIZE == ptr;
            lemma_blk_index_of(bs, alen, w);
        }
        let header = AllocationHeader::from_ptr(ptr);
        let i = self.find_block(header);
        proof {
            lemma_blk_index_of(bs, alen, i as int);
        }
        let ghost snap = *self;
        loop
            invariant
                *self == snap,
                parted(self.blocks@, self.arena_len as int),
                i < self.blocks@.len(),
                self.blocks@[i as int].next_free == FreeLink::Used,
            ensures
                *self == snap,
            decreases self.blocks@.len() - i,
        {
            proof {
                lemma_parted_in_arena(self.blocks@, self.arena_len as int, i as int);
            }
            let next = self.blocks[i].next();
            if next == self.arena_len {
                break ;
            }
            let n = self.blocks.len();
            assert(i + 1 < n);
            let cur = self.blocks[i];
            let nxt = self.blocks[i + 1];
            if cur.can_merge(&nxt) {
                // A block being freed still carries the used marker, so it
                // cannot name the successor as its free-list successor.
                proof {
                    assert(cur.next_free == FreeLink::Next(nxt.offset));
                    assert(cur.next_free == FreeLink::Used);
                    assert(false);
                }
                let mut merged = cur;
                merged.merge(nxt);
                self.blocks[i] = merged;
                self.blocks.remove(i + 1);
            } else {
                break ;
            }
        }
        self.push_free(header);
        proof {
            let bs2 = self.blocks@;
            let hnew = AllocationHeader {
                offset: bs[i as int].offset,
                len: bs[i as int].len,
                next_free: snap.spec_free_list(),
            };
            assert(bs2 == bs.update(i as int, hnew));
            assert forall|j: int| 0 <= j < bs.len() implies has_blk(bs2, #[trigger] bs[j].offset)
                && blk_index(bs2, bs[j].offset) == j by {
                lemma_blk_index_of(bs2, alen, j);
            }
            assert(!self.is_used_payload(ptr)) by {
                if self.is_used_payload(ptr) {
                    let j = choose|j: int|
                        0 <= j < bs2.len() && (#[trigger] bs2[j]).next_free == FreeLink::Used
                            && bs2[j].offset + HEADER_SIZE == ptr;
                    if j != i as int {
                        lemma_blk_index_of(bs, alen, j);
                        lemma_blk_index_of(bs, alen, i as int);
                        assert(false);
                    }
                }
            }
            assert(self.is_free_payload(ptr)) by {
                assert(bs2[i as int].next_free != FreeLink::Used);
            }
            assert(self.payload_len(ptr) == snap.payload_len(ptr)) by {
                lemma_blk_index_of(bs2, alen, i as int);
                lemma_blk_index_of(bs, alen, i as int);
            }
            assert forall|q: usize| q != ptr implies (self.is_used_payload(q)
                <==> old(self).is_used_payload(q)) by {
                if self.is_used_payload(q) {
                    let j = choose|j: int|
                        0 <= j < bs2.len() && (#[trigger] bs2[j]).next_free == FreeLink::Used
                            && bs2[j].offset + HEADER_SIZE == q;
                    assert(bs[j].next_free == FreeLink::Used && bs[j].offset + HEADER_SIZE == q);
                }
                if old(self).is_used_payload(q) {
                    let j = choose|j: int|
                        0 <= j < bs.len() && (#[trigger] bs[j]).next_free == FreeLink::Used
                            && bs[j].offset + HEADER_SIZE == q;
                    assert(j != i as int);
                    assert(bs2[j].next_free == FreeLink::Used && bs2[j].offset + HEADER_SIZE
                        == q);
                }
            }
            assert forall|q: usize| q != ptr && old(self).is_used_payload(q) implies self
                .payload_len(q) == old(self).payload_len(q) by {
                let j = choose|j: int|
                    0 <= j < bs.len() && (#[trigger] bs[j]).next_free == FreeLink::Used
                        && bs[j].offset + HEADER_SIZE == q;
                lemma_blk_index_of(bs, alen, j);
                lemma_blk_index_of(bs2, alen, j);
            }
        }
    }

    /// Carve `size` bytes out of the free block at table index `i`
    /// (list position `k`, reached from predecessor `prev`, the head when
    /// `None`): the block becomes used with payload `size`, and the free
    /// remainder gets a fresh header right after it and takes the
    /// block's place in the free list.
    #[verifier::rlimit(100)]
    fn split_block(&mut self, i: usize, prev: Option<usize>, size: usize, Ghost(k): Ghost<int>)
        requires
            old(self).wf(),
            i < old(self).spec_blocks().len(),
            old(self).spec_blocks()[i as int].next_free != FreeLink::Used,
            old(self).spec_blocks()[i as int].len >= HEADER_SIZE + SPLIT_FUDGE_FACTOR + size,
            size != 0,
            size as int % (ALLOCATION_ROUNDING_FACTOR as int) == 0,
            0 <= k < old(self).spec_free_order().len(),
            old(self).spec_free_order()[k] == old(self).spec_blocks()[i as int].offset,
            k == 0 ==> prev is None,
            k > 0 ==> prev == Some(old(self).spec_free_order()[k - 1]),
        ensures
            final(self).wf(),
            final(self).spec_arena_len() == old(self).spec_arena_len(),
            final(self).spec_mem() == old(self).spec_mem(),
            final(self).spec_blocks().len() == old(self).spec_blocks().len() + 1,
            final(self).spec_blocks()[i as int].offset == old(self).spec_blocks()[i as int].offset,
            final(self).spec_blocks()[i as int].len == size,
            final(self).spec_blocks()[i as int].next_free == FreeLink::Used,
            final(self).spec_blocks()[i + 1].next_free != FreeLink::Used,
            final(self).spec_blocks()[i + 1].offset == old(self).spec_blocks()[i as int].offset
                + HEADER_SIZE + size,
            final(self).spec_blocks()[i + 1].len == old(self).spec_blocks()[i as int].len - size
                - HEADER_SIZE,
            final(self).spec_free_order() == old(self).spec_free_order().update(
                k,
                (old(self).spec_blocks()[i as int].offset + HEADER_SIZE + size) as usize,
            ),
            forall|j: int|
                0 <= j < i ==> same_block_shape(
                    #[trigger] final(self).spec_blocks()[j],
                    old(self).spec_blocks()[j],
                ),
            forall|j: int|
                i + 1 < j < final(self).spec_blocks().len() ==> same_block_shape(
                    #[trigger] final(self).spec_blocks()[j],
                    old(self).spec_blocks()[j - 1],
                ),
    {
        let ghost bs = self.blocks@;
        let ghost gl = self.free_order@;
        let ghost alen = self.arena_len as int;
        let ghost pj: int = if k == 0 {
            -1
        } else {
            blk_index(bs, gl[k - 1])
        };
        proof {
            lemma_parted_in_arena(bs, alen, i as int);
            lemma_blk_index_of(bs, alen, i as int);
            if k > 0 {
                assert(has_blk(bs, gl[k - 1]));
                assert(bs[pj].offset == gl[k - 1]);
                assert(blk_at(bs, gl[k - 1]) == bs[pj]);
                assert(gl[k - 1] != gl[k]);
                assert(pj != i as int);
            }
        }
        let mut h = self.blocks[i];
        let ghost o = h.offset;
        let splitee = h.split_free(size);
        let ghost so = splitee.offset;
        self.blocks[i] = h;
        let n = self.blocks.len();
        assert(i < n);
        self.blocks.insert(i + 1, splitee);
        let ghost bs2 = self.blocks@;
        let ghost pi3: int = if pj < i as int {
            pj
        } else {
            pj + 1
        };
        proof {
            assert(forall|j: int| 0 <= j < i ==> bs2[j] == #[trigger] bs[j]);
            assert(forall|j: int| i + 1 < j < bs2.len() ==> #[trigger] bs2[j] == bs[j - 1]);
            assert(bs2[i as int] == h && bs2[i + 1] == splitee);
            lemma_parted_after_split(bs, bs2, alen, i as int, h, splitee);
            assert(aligned_offsets(bs2)) by {
                crate::math::lemma_mod_sum_zero(
                    o as int,
                    HEADER_SIZE as int,
                    ALLOCATION_ROUNDING_FACTOR as int,
                );
                crate::math::lemma_mod_sum_zero(
                    o as int + HEADER_SIZE as int,
                    size as int,
                    ALLOCATION_ROUNDING_FACTOR as int,
                );
            }
            lemma_fresh_inner_offset(bs, alen, i as int, so as int);
            if k > 0 {
                assert(bs2[pi3].offset == gl[k - 1]);
                lemma_blk_index_of(bs2, alen, pi3);
            }
        }
        // Replace the split block by the remainder in the free list.
        match prev {
            None => {
                proof {
                    assert(k == 0);
                }
                self.free_list = FreeLink::Next(splitee.offset);
            },
            Some(p) => {
                proof {
                    assert(k > 0 && p == gl[k - 1]);
                    assert(has_blk(bs2, p));
                }
                let pi = self.find_block(p);
                proof {
                    lemma_blk_index_of(bs2, alen, pi as int);
                    assert(pi as int == pi3);
                }
                let mut ph = self.blocks[pi];
                ph.next_free = FreeLink::Next(splitee.offset);
                self.blocks[pi] = ph;
            },
        }
        let ghost bs3 = self.blocks@;
        let ghost gl2 = gl.update(k, so);
        self.free_order = Ghost(gl2);
        proof {
            // Shape of the final table relative to the old one.
            if k == 0 {
                assert(bs3 == bs2);
            } else {
                assert(bs3.len() == bs2.len());
                assert(forall|j: int|
                    0 <= j < bs3.len() && j != pi3 ==> #[trigger] bs3[j] == bs2[j]);
                assert(bs3[pi3].offset == bs2[pi3].offset && bs3[pi3].len == bs2[pi3].len);
                assert(bs3[pi3].next_free == FreeLink::Next(so));
            }
            assert(parted(bs3, alen) && aligned_offsets(bs3)) by {
                assert(forall|j: int|
                    0 <= j < bs3.len() ==> (#[trigger] bs3[j]).offset == bs2[j].offset
                        && bs3[j].len == bs2[j].len);
            }
            assert(forall|j: int| 0 <= j < i ==> (#[trigger] bs3[j]).offset == bs[j].offset
                && bs3[j].len == bs[j].len);
            assert(forall|j: int|
                i + 1 < j < bs3.len() ==> (#[trigger] bs3[j]).offset == bs[j - 1].offset && bs3[
                    j].len == bs[j - 1].len);
            assert(forall|j: int| 0 <= j < i && j != pi3 ==> #[trigger] bs3[j] == bs[j]);
            assert(forall|j: int|
                i + 1 < j < bs3.len() && j != pi3 ==> #[trigger] bs3[j] == bs[j - 1]);
            if k > 0 {
                assert(blk_at(bs, gl[k - 1]) == bs[pj]);
                assert(bs[pj].next_free != FreeLink::Used);
            }
            lemma_split_relink_links_ok(
                bs,
                bs3,
                gl,
                old(self).spec_free_list(),
                self.free_list,
                alen,
                i as int,
                k,
                pj,
                pi3,
                so,
            );
            assert(self.wf());
        }
    }

    /// Hand out the free block at table index `i` (list position `k`,
    /// reached from predecessor `prev`, the head when `None`) whole: it
    /// is unlinked from the free list and marked used, its length
    /// untouched, so any slack beyond the request goes with it.
    #[verifier::rlimit(100)]
    fn take_whole(&mut self, i: usize, prev: Option<usize>, Ghost(k): Ghost<int>)
        requires
            old(self).wf(),
            i < old(self).spec_blocks().len(),
            old(self).spec_blocks()[i as int].next_free != FreeLink::Used,
            0 <= k < old(self).spec_free_order().len(),
            old(self).spec_free_order()[k] == old(self).spec_blocks()[i as int].offset,
            k == 0 ==> prev is None,
            k > 0 ==> prev == Some(old(self).spec_free_order()[k - 1]),
        ensures
            final(self).wf(),
            final(self).spec_arena_len() == old(self).spec_arena_len(),
            final(self).spec_mem() == old(self).spec_mem(),
            final(self).spec_blocks().len() == old(self).spec_blocks().len(),
            final(self).spec_blocks()[i as int].offset == old(self).spec_blocks()[i as int].offset,
            final(self).spec_blocks()[i as int].len == old(self).spec_blocks()[i as int].len,
            final(self).spec_blocks()[i as int].next_free == FreeLink::Used,
            final(self).spec_free_order() == old(self).spec_free_order().remove(k),
            forall|j: int|
                0 <= j < final(self).spec_blocks().len() && j != i ==> same_block_shape(
                    #[trigger] final(self).spec_blocks()[j],
                    old(self).spec_blocks()[j],
                ),
    {
        let ghost bs = self.blocks@;
        let ghost gl = self.free_order@;
        let ghost alen = self.arena_len as int;
        let ghost pj: int = if k == 0 {
            -1
        } else {
            blk_index(bs, gl[k - 1])
        };
        proof {
            lemma_blk_index_of(bs, alen, i as int);
            lemma_link_of_entry(bs, self.free_list, gl, k);
            if k > 0 {
                assert(has_blk(bs, gl[k - 1]));
                assert(bs[pj].offset == gl[k - 1]);
                assert(blk_at(bs, gl[k - 1]) == bs[pj]);
                assert(gl[k - 1] != gl[k]);
                assert(pj != i as int);
                lemma_link_of_entry(bs, self.free_list, gl, k - 1);
            }
        }
        // Unlink: the predecessor (or the head) takes over this block's link.
        let link = self.blocks[i].next_free;
        match prev {
            None => {
                proof {
                    assert(k == 0);
                }
                self.free_list = link;
            },
            Some(p) => {
                proof {
                    assert(k > 0 && p == gl[k - 1]);
                }
                let pi = self.find_block(p);
                proof {
                    lemma_blk_index_of(bs, alen, pi as int);
                    assert(pi as int == pj);
                }
                let mut ph = self.blocks[pi];
                ph.next_free = link;
                self.blocks[pi] = ph;
            },
        }
        let mut ch = self.blocks[i];
        ch.mark_used();
        self.blocks[i] = ch;
        let ghost gl2 = gl.remove(k);
        self.free_order = Ghost(gl2);
        proof {
            let bs3 = self.blocks@;
            assert(forall|j: int|
                0 <= j < bs.len() ==> (#[trigger] bs3[j]).offset == bs[j].offset && bs3[j].len
                    == bs[j].len);
            assert(forall|j: int|
                0 <= j < bs.len() && j != i && j != pj ==> #[trigger] bs3[j] == bs[j]);
            assert(parted(bs3, alen)) by {
                assert forall|a: int, b: int|
                    #![trigger bs3[a], bs3[b]]
                    0 <= a && b == a + 1 && b < bs3.len() implies bs3[b].offset == hdr_end(
                    bs3[a],
                ) by {
                    assert(bs[b].offset == hdr_end(bs[a]));
                }
            }
            assert(aligned_offsets(bs3));
            lemma_unlink_links_ok(
                bs,
                bs3,
                gl,
                old(self).spec_free_list(),
                self.free_list,
                alen,
                i as int,
                k,
                pj,
            );
            assert(self.wf());
        }
    }

    /// Satisfy an allocation request: the request is rounded up to the
    /// word-width granularity, the free list is walked from the head, and
    /// the first block large enough is either split (when the remainder
    /// would still be a useful block) or handed out whole.  The payload
    /// offset of the chosen block is returned; zero (the null pointer)
    /// reports exhaustion, in which case nothing changed and no free
    /// block could hold the rounded request.
    #[verifier::rlimit(100)]
    pub fn allocate(&mut self, request: usize) -> (r: usize)
        requires
            old(self).wf(),
            request <= usize::MAX - ALLOCATION_ROUNDING_FACTOR,
        ensures
            final(self).wf(),
            final(self).spec_arena_len() == old(self).spec_arena_len(),
            final(self).spec_mem() == old(self).spec_mem(),
            r == 0 ==> *final(self) == *old(self),
            r == 0 ==> !old(self).has_free_block_of(
                round_up_spec(request as int, ALLOCATION_ROUNDING_FACTOR as int),
            ),
            r != 0 ==> final(self).is_used_payload(r),
            r != 0 ==> !old(self).is_used_payload(r),
            r != 0 ==> old(self).is_free_payload(r),
            r != 0 ==> final(self).payload_len(r) >= round_up_spec(
                request as int,
                ALLOCATION_ROUNDING_FACTOR as int,
            ),
            r != 0 ==> final(self).payload_len(r) >= request,
            r != 0 ==> r as int % (ALLOCATION_ROUNDING_FACTOR as int) == 0,
            r != 0 ==> r >= HEADER_SIZE,
            r != 0 ==> r + final(self).payload_len(r) <= final(self).spec_arena_len(),
            r != 0 ==> first_fit_pick(
                old(self).spec_blocks(),
                old(self).spec_free_order(),
                r,
                round_up_spec(request as int, ALLOCATION_ROUNDING_FACTOR as int),
            ),
            r != 0 ==> alloc_effect(
                *old(self),
                *final(self),
                r,
                round_up_spec(request as int, ALLOCATION_ROUNDING_FACTOR as int),
            ),
            forall|q: usize|
                old(self).is_used_payload(q) ==> final(self).is_used_payload(q)
                    && final(self).payload_len(q) == old(self).payload_len(q),
            forall|q: usize|
                final(self).is_used_payload(q) && q != r ==> old(self).is_used_payload(q),
    {
        proof {
            reveal_with_fuel(is_pow2, 5);
            assert(is_pow2(ALLOCATION_ROUNDING_FACTOR as int));
        }
        let size = round_up(request, ALLOCATION_ROUNDING_FACTOR);
        let ghost bs = self.blocks@;
        let ghost gl = self.free_order@;
        let ghost alen = self.arena_len as int;
        let ghost snap = *self;
        let mut cur = self.free_list;
        let mut prev: Option<usize> = None;
        let mut found: bool = false;
        let mut found_i: usize = 0;
        let ghost mut k: int = 0;
        loop
            invariant_except_break
                !found,
            invariant
                *self == snap,
                self.wf(),
                bs == self.blocks@,
                gl == self.free_order@,
                alen == self.arena_len as int,
                0 <= k <= gl.len(),
                k < gl.len() ==> cur == FreeLink::Next(gl[k]),
                k == gl.len() ==> cur == FreeLink::End,
                forall|j: int| 0 <= j < k ==> blk_at(bs, #[trigger] gl[j]).len < size,
                k == 0 ==> prev is None,
                k > 0 ==> prev == Some(gl[k - 1]),
            ensures
                *self == snap,
                bs == self.blocks@,
                0 <= k <= gl.len(),
                forall|j: int| 0 <= j < k ==> blk_at(bs, #[trigger] gl[j]).len < size,
                k == 0 ==> prev is None,
                k > 0 ==> prev == Some(gl[k - 1]),
                found ==> k < gl.len() && found_i < bs.len()
                    && bs[found_i as int].offset == gl[k]
                    && bs[found_i as int].next_free != FreeLink::Used
                    && bs[found_i as int].len >= size,
                !found ==> k == gl.len(),
            decreases gl.len() - k,
        {
            match cur {
                FreeLink::End => {
                    break ;
                },
                FreeLink::Used => {
                    // Neither the head nor a listed block's link is ever
                    // the used marker.
                    proof {
                        assert(false);
                    }
                    break ;
                },
                FreeLink::Next(o) => {
                    proof {
                        assert(gl[k] == o);
                        assert(has_blk(bs, o));
                    }
                    let bi = self.find_block(o);
                    proof {
                        lemma_blk_index_of(bs, alen, bi as int);
                        assert(blk_at(bs, o) == bs[bi as int]);
                        lemma_link_of_entry(bs, self.free_list, gl, k);
                    }
                    if self.blocks[bi].len >= size {
                        found = true;
                        found_i = bi;
                        break ;
                    }
                    prev = Some(o);
                    cur = self.blocks[bi].next_free;
                    proof {
                        k = k + 1;
                    }
                },
            }
        }
        if !found {
            proof {
                assert forall|ii: int|
                    0 <= ii < bs.len() && (#[trigger] bs[ii]).next_free != FreeLink::Used implies
                    bs[ii].len < size by {
                    assert(gl.contains(bs[ii].offset));
                    let kk = choose|kk: int| 0 <= kk < gl.len() && gl[kk] == bs[ii].offset;
                    lemma_blk_index_of(bs, alen, ii);
                    assert(blk_at(bs, gl[kk]) == bs[ii]);
                }
            }
            return 0;
        }
        let i = found_i;
        proof {
            lemma_parted_in_arena(bs, alen, i as int);
            lemma_blk_index_of(bs, alen, i as int);
            assert(blk_at(bs, gl[k]) == bs[i as int]);
            assert(first_fit_pick(bs, gl, (bs[i as int].offset + HEADER_SIZE) as usize, size
                as int)) by {
                assert(0 <= k < gl.len() && blk_at(bs, gl[k]).offset + HEADER_SIZE == bs[
                    i as int].offset + HEADER_SIZE && blk_at(bs, gl[k]).len >= size);
            }
        }
        let h = self.blocks[i];
        let payload = h.allocation();
        let ghost o = h.offset;
        if h.is_splittable(size) {
            self.split_block(i, prev, size, Ghost(k));
            proof {
                lemma_allocate_split_post(snap, *self, i as int, k, size as int, payload);
            }
        } else {
            self.take_whole(i, prev, Ghost(k));
            proof {
                lemma_allocate_whole_post(snap, *self, i as int, k, size as int, payload);
            }
        }
        payload
    }

    /// The word stored in the arena just below the given payload offset:
    /// for an aligned allocation, the back pointer to its base block.
    pub open spec fn stored_word(self, p: usize) -> int {
        le_word_at(self.spec_mem(), p - ALLOCATION_ROUNDING_FACTOR)
    }

    /// Aligned allocation for any power-of-two alignment between
    /// `MIN_ALIGN` and `MAX_ALIGN`: over-allocates by the alignment so an
    /// aligned point must exist inside the base block, stores the base
    /// payload offset in the word just below the aligned point, and
    /// returns the aligned point.  A null result propagates base-allocator
    /// exhaustion, with nothing written.
    #[verifier::rlimit(100)]
    pub fn alloc_aligned(&mut self, request: usize, alignment: usize) -> (r: usize)
        requires
            old(self).wf(),
            vstd::arithmetic::power2::is_pow2(alignment as int),
            MIN_ALIGN <= alignment < MAX_ALIGN,
            request <= usize::MAX - alignment - ALLOCATION_ROUNDING_FACTOR,
        ensures
            final(self).wf(),
            final(self).spec_arena_len() == old(self).spec_arena_len(),
            final(self).spec_mem().len() == old(self).spec_mem().len(),
            r == 0 ==> *final(self) == *old(self),
            r == 0 ==> !old(self).has_free_block_of(
                round_up_spec(request as int + alignment as int, ALLOCATION_ROUNDING_FACTOR as int),
            ),
            r != 0 ==> r as int % alignment as int == 0,
            r != 0 ==> HEADER_SIZE + ALLOCATION_ROUNDING_FACTOR <= r,
            r != 0 ==> r + request <= final(self).spec_arena_len(),
            r != 0 ==> 0 < final(self).stored_word(r) <= r - ALLOCATION_ROUNDING_FACTOR,
            r != 0 ==> r <= final(self).stored_word(r) + alignment,
            r != 0 ==> final(self).is_used_payload(final(self).stored_word(r) as usize),
            r != 0 ==> !old(self).is_used_payload(final(self).stored_word(r) as usize),
            r != 0 ==> r + request <= final(self).stored_word(r) + final(self).payload_len(
                final(self).stored_word(r) as usize,
            ),
            r != 0 ==> forall|j: int|
                0 <= j < old(self).spec_mem().len() && !(r - ALLOCATION_ROUNDING_FACTOR <= j
                    < r) ==> final(self).spec_mem()[j] == old(self).spec_mem()[j],
            forall|q: usize|
                old(self).is_used_payload(q) ==> final(self).is_used_payload(q)
                    && final(self).payload_len(q) == old(self).payload_len(q),
            r != 0 ==> forall|q: usize|
                final(self).is_used_payload(q) && q != final(self).stored_word(r) as usize
                    ==> old(self).is_used_payload(q),
    {
        let ptr = self.allocate(request + alignment);
        if ptr == 0 {
            return 0;
        }
        proof {
            crate::math::lemma_pow2_mask_down(ptr, alignment, (alignment - 1) as usize);
            vstd::arithmetic::div_mod::lemma_mod_bound(ptr as int, alignment as int);
            // The aligned point and its slack stay inside the base block.
            assert(self.payload_len(ptr) >= round_up_spec(
                request as int + alignment as int,
                ALLOCATION_ROUNDING_FACTOR as int,
            ));
            assert(round_up_spec(
                request as int + alignment as int,
                ALLOCATION_ROUNDING_FACTOR as int,
            ) >= request + alignment) by {
                vstd::arithmetic::div_mod::lemma_mod_bound(
                    request as int + alignment as int,
                    ALLOCATION_ROUNDING_FACTOR as int,
                );
            }
            // The offset below the aligned point is word aligned too.
            reveal_with_fuel(is_pow2, 5);
            crate::math::lemma_pow2_divides(ALLOCATION_ROUNDING_FACTOR, alignment);
            assert(ptr as int % alignment as int % (ALLOCATION_ROUNDING_FACTOR as int) == ptr
                as int % (ALLOCATION_ROUNDING_FACTOR as int)) by {
                vstd::arithmetic::div_mod::lemma_mod_mod(
                    ptr as int,
                    ALLOCATION_ROUNDING_FACTOR as int,
                    alignment as int / ALLOCATION_ROUNDING_FACTOR as int,
                );
                vstd::arithmetic::div_mod::lemma_fundamental_div_mod(
                    alignment as int,
                    ALLOCATION_ROUNDING_FACTOR as int,
                );
            }
        }
        let aligned = (ptr & !(alignment - 1)) + alignment;
        proof {
            assert(aligned as int % alignment as int == 0) by {
                vstd::arithmetic::div_mod::lemma_mod_multiples_basic(
                    ptr as int / alignment as int + 1,
                    alignment as int,
                );
                vstd::arithmetic::div_mod::lemma_fundamental_div_mod(
                    ptr as int,
                    alignment as int,
                );
                assert(aligned as int == alignment as int * (ptr as int / alignment as int
                    + 1)) by {
                    vstd::arithmetic::mul::lemma_mul_is_distributive_add(
                        alignment as int,
                        ptr as int / alignment as int,
                        1,
                    );
                }
            }
            // The back-pointer slot lies between the base payload and the
            // aligned point.
            assert(ptr as int % alignment as int <= alignment - ALLOCATION_ROUNDING_FACTOR);
            assert(ptr + ALLOCATION_ROUNDING_FACTOR <= aligned);
            assert(aligned <= ptr + alignment);
            assert(ptr + self.payload_len(ptr) <= self.spec_arena_len());
            assert(self.spec_mem().len() == self.spec_arena_len());
        }
        let slot = aligned - ALLOCATION_ROUNDING_FACTOR;
        write_word(&mut self.mem, slot, ptr);
        proof {
            assert(self.wf());
            assert(self.stored_word(aligned) == ptr);
        }
        aligned
    }

    /// Release an allocation obtained from the aligned path: the base
    /// payload offset is read back from the word just below the aligned
    /// pointer and handed to the base deallocator.  The caller must pass
    /// only pointers that came from the aligned path.
    pub fn dealloc_aligned(&mut self, ptr: usize)
        requires
            old(self).wf(),
            ALLOCATION_ROUNDING_FACTOR <= ptr,
            ptr <= old(self).spec_mem().len(),
            0 <= old(self).stored_word(ptr) <= usize::MAX,
            old(self).stored_word(ptr) == 0 || old(self).is_used_payload(
                old(self).stored_word(ptr) as usize,
            ),
        ensures
            final(self).wf(),
            final(self).spec_arena_len() == old(self).spec_arena_len(),
            final(self).spec_mem() == old(self).spec_mem(),
            old(self).stored_word(ptr) == 0 ==> *final(self) == *old(self),
            old(self).stored_word(ptr) != 0 ==> !final(self).is_used_payload(
                old(self).stored_word(ptr) as usize,
            ),
            old(self).stored_word(ptr) != 0 ==> final(self).is_free_payload(
                old(self).stored_word(ptr) as usize,
            ),
            forall|q: usize|
                q != old(self).stored_word(ptr) ==> (final(self).is_used_payload(q) <==> old(
                    self,
                ).is_used_payload(q)),
    {
        let w = read_word(&self.mem, ptr - ALLOCATION_ROUNDING_FACTOR);
        self.dealloc(w);
    }

    /// Round-trip safety: two distinct live payloads never overlap.  Any
    /// two used blocks of a well-formed allocator occupy disjoint byte
    /// ranges, so the spans handed out with them (each within its block's
    /// recorded payload length) cannot collide.
    pub proof fn lemma_used_payloads_disjoint(self, p1: usize, p2: usize)
        requires
            self.wf(),
            self.is_used_payload(p1),
            self.is_used_payload(p2),
            p1 != p2,
        ensures
            p1 + self.payload_len(p1) <= p2 || p2 + self.payload_len(p2) <= p1,
    {
        let bs = self.spec_blocks();
        let alen = self.spec_arena_len() as int;
        let i1 = choose|i1: int|
            0 <= i1 < bs.len() && (#[trigger] bs[i1]).next_free == FreeLink::Used
                && bs[i1].offset + HEADER_SIZE == p1;
        let i2 = choose|i2: int|
            0 <= i2 < bs.len() && (#[trigger] bs[i2]).next_free == FreeLink::Used
                && bs[i2].offset + HEADER_SIZE == p2;
        lemma_blk_index_of(bs, alen, i1);
        lemma_blk_index_of(bs, alen, i2);
        if i1 < i2 {
            lemma_parted_mono(bs, alen, i1, i2);
        } else {
            lemma_parted_mono(bs, alen, i2, i1);
        }
    }

    /// Round-trip safety, stated over requested spans: whenever two
    /// distinct payloads are live at the same time, the spans requested
    /// with them (each within its block's recorded payload length, as
    /// `allocate` guarantees for the rounded request) do not overlap.
    pub proof fn lemma_live_spans_disjoint(
        self,
        p1: usize,
        n1: usize,
        p2: usize,
        n2: usize,
    )
        requires
            self.wf(),
            self.is_used_payload(p1),
            self.is_used_payload(p2),
            p1 != p2,
            n1 <= self.payload_len(p1),
            n2 <= self.payload_len(p2),
        ensures
            p1 + n1 <= p2 || p2 + n2 <= p1,
    {
        self.lemma_used_payloads_disjoint(p1, p2);
    }

    /// Whether the given payload offset currently belongs to a used
    /// block: the runtime counterpart of `is_used_payload`.
    pub fn is_used_ptr(&self, ptr: usize) -> (r: bool)
        ensures
            r == self.is_used_payload(ptr),
    {
        if ptr < HEADER_SIZE {
            return false;
        }
        let n = self.blocks.len();
        let mut i: usize = 0;
        while i < n
            invariant
                n == self.blocks@.len(),
                ptr >= HEADER_SIZE,
                forall|j: int|
                    0 <= j < i ==> !((#[trigger] self.blocks@[j]).next_free == FreeLink::Used
                        && self.blocks@[j].offset + HEADER_SIZE == ptr),
            decreases n - i,
        {
            let b = self.blocks[i];
            if b.offset == ptr - HEADER_SIZE && b.next_free == FreeLink::Used {
                return true;
            }
            i += 1;
        }
        false
    }

    /// Find the table index of the header starting at the given offset.
    fn find_block(&self, off: usize) -> (i: usize)
        requires
            has_blk(self.spec_blocks(), off),
        ensures
            i < self.spec_blocks().len(),
            self.spec_blocks()[i as int].offset == off,
    {
        let n = self.blocks.len();
        let mut i: usize = 0;
        while i < n
            invariant
                n == self.blocks@.len(),
                has_blk(self.blocks@, off),
                forall|j: int| 0 <= j < i ==> (#[trigger] self.blocks@[j]).offset != off,
            decreases n - i,
        {
            if self.blocks[i].offset == off {
                return i;
            }
            i += 1;
        }
        proof {
            let w = choose|w: int| 0 <= w < self.blocks@.len() && (#[trigger] self.blocks@[w]).offset == off;
            assert(self.blocks@[w].offset != off);
        }
        0
    }
}

/// The allocator under its invariant: every `Heap` value is well formed,
/// so one can pass through an opaque lock and come back with its
/// invariant intact.  Operations that need a valid pointer check for one
/// at run time, since a caller on the other side of a lock cannot be
/// asked to prove it.
pub struct Heap {
    state: Allocator,
}

impl Heap {
    #[verifier::type_invariant]
    spec fn inv(self) -> bool {
        self.state.wf()
    }

    /// The allocator state.
    pub closed spec fn heap(self) -> Allocator {
        self.state
    }

    /// A zero-capacity heap, usable only after `init`.
    pub fn new() -> (h: Heap)
        ensures
            h.heap().spec_arena_len() == 0,
            forall|p: usize| !h.heap().is_used_payload(p),
    {
        Heap { state: Default::default() }
    }

    /// Hand the arena over; everything becomes one free block.
    pub fn init(&mut self, arena: Vec<u8>)
        requires
            arena.len() >= HEADER_SIZE,
        ensures
            final(self).heap().spec_arena_len() == arena.len(),
            final(self).heap().spec_mem() == arena@,
            final(self).heap().spec_blocks() =~= seq![
                AllocationHeader {
                    offset: 0,
                    len: (arena.len() - HEADER_SIZE) as usize,
                    next_free: FreeLink::End,
                },
            ],
            forall|p: usize| !final(self).heap().is_used_payload(p),
    {
        proof {
            use_type_invariant(&*self);
        }
        let mut a: Allocator = Default::default();
        core::mem::swap(&mut a, &mut self.state);
        a.init(arena);
        core::mem::swap(&mut a, &mut self.state);
    }

    /// Allocate through the invariant-carrying wrapper.
    pub fn allocate(&mut self, request: usize) -> (r: usize)
        requires
            request <= usize::MAX - ALLOCATION_ROUNDING_FACTOR,
        ensures
            final(self).heap().spec_arena_len() == old(self).heap().spec_arena_len(),
            r == 0 ==> final(self).heap() == old(self).heap(),
            r == 0 ==> !old(self).heap().has_free_block_of(
                round_up_spec(request as int, ALLOCATION_ROUNDING_FACTOR as int),
            ),
            r != 0 ==> final(self).heap().is_used_payload(r) && !old(
                self,
            ).heap().is_used_payload(r),
            r != 0 ==> final(self).heap().payload_len(r) >= request,
            r != 0 ==> r as int % (ALLOCATION_ROUNDING_FACTOR as int) == 0,
            r != 0 ==> r >= HEADER_SIZE,
            r != 0 ==> r + final(self).heap().payload_len(r)
                <= final(self).heap().spec_arena_len(),
            r != 0 ==> first_fit_pick(
                old(self).heap().spec_blocks(),
                old(self).heap().spec_free_order(),
                r,
                round_up_spec(request as int, ALLOCATION_ROUNDING_FACTOR as int),
            ),
            r != 0 ==> alloc_effect(
                old(self).heap(),
                final(self).heap(),
                r,
                round_up_spec(request as int, ALLOCATION_ROUNDING_FACTOR as int),
            ),
            forall|q: usize|
                old(self).heap().is_used_payload(q) ==> final(self).heap().is_used_payload(q)
                    && final(self).heap().payload_len(q) == old(self).heap().payload_len(q),
            forall|q: usize|
                final(self).heap().is_used_payload(q) && q != r ==> old(
                    self,
                ).heap().is_used_payload(q),
    {
        proof {
            use_type_invariant(&*self);
        }
        let mut a: Allocator = Default::default();
        core::mem::swap(&mut a, &mut self.state);
        let r = a.allocate(request);
        core::mem::swap(&mut a, &mut self.state);
        r
    }

    /// Deallocate through the invariant-carrying wrapper.  The pointer
    /// is validated first: only a payload currently in use is freed, so
    /// a stale or foreign pointer (null included) leaves the heap
    /// untouched rather than corrupting it.
    pub fn deallocate(&mut self, ptr: usize)
        ensures
            final(self).heap().spec_arena_len() == old(self).heap().spec_arena_len(),
            !final(self).heap().is_used_payload(ptr),
            old(self).heap().is_used_payload(ptr) ==> final(self).heap().is_free_payload(ptr)
                && final(self).heap().payload_len(ptr) == old(self).heap().payload_len(ptr),
            !old(self).heap().is_used_payload(ptr) ==> final(self).heap() == old(self).heap(),
            forall|q: usize|
                q != ptr ==> (final(self).heap().is_used_payload(q) <==> old(
                    self,
                ).heap().is_used_payload(q)),
    {
        proof {
            use_type_invariant(&*self);
        }
        let mut a: Allocator = Default::default();
        core::mem::swap(&mut a, &mut self.state);
        if a.is_used_ptr(ptr) {
            a.dealloc(ptr);
        }
        core::mem::swap(&mut a, &mut self.state);
    }

    /// Aligned allocation through the invariant-carrying wrapper.
    pub fn allocate_aligned(&mut self, request: usize, alignment: usize) -> (r: usize)
        requires
            is_pow2(alignment as int),
            MIN_ALIGN <= alignment < MAX_ALIGN,
            request <= usize::MAX - alignment - ALLOCATION_ROUNDING_FACTOR,
        ensures
            final(self).heap().spec_arena_len() == old(self).heap().spec_arena_len(),
            r == 0 ==> final(self).heap() == old(self).heap(),
            r == 0 ==> !old(self).heap().has_free_block_of(
                round_up_spec(request as int + alignment as int, ALLOCATION_ROUNDING_FACTOR as int),
            ),
            r != 0 ==> r as int % alignment as int == 0,
            r != 0 ==> r >= HEADER_SIZE + ALLOCATION_ROUNDING_FACTOR,
            r != 0 ==> 0 < final(self).heap().stored_word(r) <= r - ALLOCATION_ROUNDING_FACTOR,
            r != 0 ==> r <= final(self).heap().stored_word(r) + alignment,
            r != 0 ==> final(self).heap().is_used_payload(
                final(self).heap().stored_word(r) as usize,
            ),
            r != 0 ==> !old(self).heap().is_used_payload(
                final(self).heap().stored_word(r) as usize,
            ),
            r != 0 ==> r + request <= final(self).heap().stored_word(r)
                + final(self).heap().payload_len(final(self).heap().stored_word(r) as usize),
            forall|q: usize|
                old(self).heap().is_used_payload(q) ==> final(self).heap().is_used_payload(q)
                    && final(self).heap().payload_len(q) == old(self).heap().payload_len(q),
            r != 0 ==> forall|q: usize|
                final(self).heap().is_used_payload(q) && q != final(self).heap().stored_word(r)
                    as usize ==> old(self).heap().is_used_payload(q),
    {
        proof {
            use_type_invariant(&*self);
        }
        let mut a: Allocator = Default::default();
        core::mem::swap(&mut a, &mut self.state);
        let r = a.alloc_aligned(request, alignment);
        core::mem::swap(&mut a, &mut self.state);
        r
    }

    /// Aligned deallocation through the invariant-carrying wrapper: the
    /// back pointer is read from the word below the aligned pointer and
    /// validated before the base block is freed; anything that does not
    /// check out leaves the heap untouched.
    pub fn deallocate_aligned(&mut self, ptr: usize)
        ensures
            final(self).heap().spec_arena_len() == old(self).heap().spec_arena_len(),
            final(self).heap().spec_mem() == old(self).heap().spec_mem(),
            forall|q: usize|
                final(self).heap().is_used_payload(q) ==> old(self).heap().is_used_payload(q),
            (ALLOCATION_ROUNDING_FACTOR <= ptr <= old(self).heap().spec_mem().len() && old(
                self,
            ).heap().stored_word(ptr) <= usize::MAX && old(self).heap().is_used_payload(
                old(self).heap().stored_word(ptr) as usize,
            )) ==> !final(self).heap().is_used_payload(old(self).heap().stored_word(ptr) as usize)
                && final(self).heap().is_free_payload(old(self).heap().stored_word(ptr) as usize),
            forall|q: usize|
                q != old(self).heap().stored_word(ptr) ==> (final(self).heap().is_used_payload(
                    q,
                ) <==> old(self).heap().is_used_payload(q)),
    {
        proof {
            use_type_invariant(&*self);
        }
        let mut a: Allocator = Default::default();
        core::mem::swap(&mut a, &mut self.state);
        if ptr >= ALLOCATION_ROUNDING_FACTOR && ptr <= a.mem.len() {
            let w64 = read_word64(&a.mem, ptr - ALLOCATION_ROUNDING_FACTOR);
            if w64 <= usize::MAX as u64 {
                let w = w64 as usize;
                if a.is_used_ptr(w) {
                    a.dealloc(w);
                }
            }
        }
        core::mem::swap(&mut a, &mut self.state);
    }
}

/// The process-wide allocator: the heap behind a spin lock, so that
/// concurrent execution contexts can allocate and free.  Every byte of
/// allocator bookkeeping is reached only while the lock is held; the
/// contracts on `Heap` and `Allocator` state what each operation does to
/// the locked state.
pub struct GlobalAllocator {
    allocator: crate::mutex::SpinMutex<Heap>,
}

impl GlobalAllocator {
    /// A global allocator around a zero-capacity heap.
    pub fn new() -> GlobalAllocator {
        GlobalAllocator { allocator: crate::mutex::SpinMutex::new(Heap::new()) }
    }

    /// Hand the arena over under the lock.
    pub fn init(&self, arena: Vec<u8>)
        requires
            arena.len() >= HEADER_SIZE,
    {
        let mut guard = self.allocator.lock();
        let mut heap = guard.replace(Heap::new());
        heap.init(arena);
        let _spare = guard.replace(heap);
    }

    /// Allocate under the lock, routing alignments at or below the
    /// rounding granularity to the unaligned path (natural alignment is
    /// already guaranteed there).
    pub fn allocate(&self, size: usize, align: usize) -> (r: usize)
        requires
            is_pow2(align as int),
            align < MAX_ALIGN,
            size <= usize::MAX - align - ALLOCATION_ROUNDING_FACTOR,
        ensures
            r != 0 ==> r >= HEADER_SIZE,
            r != 0 ==> r as int % align as int == 0,
    {
        let mut guard = self.allocator.lock();
        let mut heap = guard.replace(Heap::new());
        let r = if align <= ALLOCATION_ROUNDING_FACTOR {
            let r = heap.allocate(size);
            proof {
                reveal_with_fuel(is_pow2, 5);
                if r != 0 {
                    crate::math::lemma_pow2_divides(align, ALLOCATION_ROUNDING_FACTOR);
                    crate::math::lemma_mod_divides_trans(
                        r as int,
                        ALLOCATION_ROUNDING_FACTOR as int,
                        align as int,
                    );
                }
            }
            r
        } else {
            heap.allocate_aligned(size, align)
        };
        let _spare = guard.replace(heap);
        r
    }

    /// Deallocate under the lock, with the same alignment routing as
    /// `allocate`; the heap validates the pointer before freeing.
    pub fn deallocate(&self, ptr: usize, align: usize) {
        let mut guard = self.allocator.lock();
        let mut heap = guard.replace(Heap::new());
        if align <= ALLOCATION_ROUNDING_FACTOR {
            heap.deallocate(ptr);
        } else {
            heap.deallocate_aligned(ptr);
        }
        let _spare = guard.replace(heap);
    }
}

impl Default for Allocator {
    /// The zero-capacity state a global instance starts in before
    /// `init`: empty arena, empty block table, free list at the end
    /// sentinel.
    fn default() -> (a: Self)
        ensures
            a.wf(),
            a.spec_arena_len() == 0,
            a.spec_blocks() == Seq::<AllocationHeader>::empty(),
            a.spec_free_order() == Seq::<usize>::empty(),
            forall|p: usize| !a.is_used_payload(p),
            forall|s: int| s > 0 ==> !a.has_free_block_of(s),
    {
        Allocator {
            arena_len: 0,
            blocks: Vec::new(),
            free_list: FreeLink::End,
            mem: Vec::new(),
            free_order: Ghost(Seq::empty()),
        }
    }
}

} // verus!
