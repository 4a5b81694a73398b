//! Sets of disjoint address ranges, kept sorted by start, backing the
//! coarse physical-memory range allocator.

use vstd::prelude::*;
use vstd::arithmetic::power2::is_pow2;
use crate::constants::PAGE_SIZE;

verus! {

/// True when the given length needs no adjustment for the given
/// power-of-two alignment.
fn is_aligned_by(n: usize, alignment: usize) -> (r: bool)
    requires
        is_pow2(alignment as int),
    ensures
        r == (n as int % alignment as int == 0),
{
    proof {
        reveal(is_pow2);
        crate::math::lemma_pow2_mask_is_mod(n, alignment, (alignment - 1) as usize);
    }
    (n & (alignment - 1)) == 0
}

/// A half-open address range `[start, end)`.
#[derive(Clone, Copy, Debug, Default, PartialEq, Eq, Structural)]
pub struct Range {
    pub start: usize,
    pub end: usize,
}

impl Range {
    /// The range is properly ordered.
    pub open spec fn wf(self) -> bool {
        self.start <= self.end
    }

    /// The range covers the address `x`.
    pub open spec fn covers(self, x: int) -> bool {
        self.start <= x < self.end
    }

    /// The two ranges touch end to start, one way or the other.
    pub open spec fn can_merge_spec(self, other: Range) -> bool {
        self.start == other.end || self.end == other.start
    }

    /// The two ranges share an endpoint-or-interior point, as the
    /// executable check `overlaps` reports it.
    pub open spec fn overlaps_spec(self, other: Range) -> bool {
        (other.start <= self.start && self.start < other.end) || (self.start <= other.start
            && other.start < self.end)
    }

    /// The other range lies entirely within this one.
    pub open spec fn contains_spec(self, other: Range) -> bool {
        self.start <= other.start && other.end <= self.end
    }

    pub fn new(start: usize, end: usize) -> (r: Range)
        ensures
            r.start == start,
            r.end == end,
    {
        Range { start, end }
    }

    /// The number of addresses the range covers.
    pub fn len(&self) -> (r: usize)
        requires
            self.wf(),
        ensures
            r == self.end - self.start,
    {
        self.end - self.start
    }

    /// The two ranges touch end to start, one way or the other.
    pub fn can_merge(&self, other: &Range) -> (r: bool)
        ensures
            r == self.can_merge_spec(*other),
    {
        self.start == other.end || self.end == other.start
    }

    /// Extend this range over a touching one.
    pub fn merge(&mut self, other: Range)
        requires
            old(self).can_merge_spec(other),
        ensures
            final(self).start == (if old(self).start <= other.start {
                old(self).start
            } else {
                other.start
            }),
            final(self).end == (if old(self).end >= other.end {
                old(self).end
            } else {
                other.end
            }),
    {
        self.start = if self.start <= other.start {
            self.start
        } else {
            other.start
        };
        self.end = if self.end >= other.end {
            self.end
        } else {
            other.end
        };
    }

    /// The other range lies entirely within this one.
    pub fn contains(&self, other: &Range) -> (r: bool)
        ensures
            r == self.contains_spec(*other),
    {
        self.start <= other.start && other.end <= self.end
    }

    pub fn starts_before(&self, other: &Range) -> (r: bool)
        ensures
            r == (self.start <= other.start),
    {
        self.start <= other.start
    }

    /// The two ranges share at least one covered address (for ranges
    /// that are properly ordered).
    pub fn overlaps(&self, other: &Range) -> (r: bool)
        ensures
            r == self.overlaps_spec(*other),
    {
        (other.start <= self.start && self.start < other.end) || (self.start <= other.start
            && other.start < self.end)
    }

    /// A strictly longer range can give up `len` addresses.
    pub fn can_split(&self, len: usize) -> (r: bool)
        requires
            self.wf(),
        ensures
            r == (self.end - self.start > len),
    {
        self.len() > len
    }

    /// Give up the top `len` addresses (a whole number of pages) as a
    /// range of their own.
    pub fn split(&mut self, len: usize) -> (r: Range)
        requires
            old(self).wf(),
            old(self).end - old(self).start > len,
            len as int % (PAGE_SIZE as int) == 0,
        ensures
            r.start == final(self).end,
            r.end == old(self).end,
            r.end - r.start == len,
            final(self).start == old(self).start,
            final(self).end == old(self).end - len,
    {
        proof {
            reveal_with_fuel(is_pow2, 14);
            assert(is_pow2(PAGE_SIZE as int));
        }
        let ok = is_aligned_by(len, PAGE_SIZE);
        assert(ok);
        let r = Range { start: self.end - len, end: self.end };
        self.end -= len;
        r
    }
}

/// Every range properly ordered.
pub open spec fn ranges_wf(s: Seq<Range>) -> bool {
    forall|i: int| 0 <= i < s.len() ==> (#[trigger] s[i]).wf()
}

/// Consecutive ranges in order and disjoint (they may touch).
pub open spec fn ranges_sorted(s: Seq<Range>) -> bool {
    forall|i: int, j: int|
        #![trigger s[i], s[j]]
        0 <= i && j == i + 1 && j < s.len() ==> s[i].end <= s[j].start
}

/// The candidate range overlaps or sits inside none of the ranges.
pub open spec fn fits_outside(s: Seq<Range>, value: Range) -> bool {
    forall|i: int|
        0 <= i < s.len() ==> !(#[trigger] s[i]).overlaps_spec(value) && !s[i].contains_spec(
            value,
        )
}

/// The union of a touching pair.
pub open spec fn merged_range(a: Range, b: Range) -> Range {
    Range {
        start: if a.start <= b.start {
            a.start
        } else {
            b.start
        },
        end: if a.end >= b.end {
            a.end
        } else {
            b.end
        },
    }
}

/// What `insert` does to the stored sequence: the first touching range
/// (if any touches) absorbs the value in place; otherwise the value
/// lands at its sorted position.
pub open spec fn insert_effect(pre: Seq<Range>, post: Seq<Range>, value: Range) -> bool {
    if exists|i: int| 0 <= i < pre.len() && (#[trigger] pre[i]).can_merge_spec(value) {
        exists|i: int|
            0 <= i < pre.len() && (#[trigger] pre[i]).can_merge_spec(value) && (forall|j: int|
                0 <= j < i ==> !(#[trigger] pre[j]).can_merge_spec(value)) && post == pre.update(
                i,
                merged_range(pre[i], value),
            )
    } else {
        exists|at: int|
            #![trigger pre.insert(at, value)]
            0 <= at <= pre.len() && post == pre.insert(at, value) && (forall|j: int|
                0 <= j < at ==> (#[trigger] pre[j]).start <= value.start) && (at < pre.len()
                ==> pre[at].start > value.start)
    }
}

/// The first range of at least `sz` addresses has exactly `sz`: then a
/// take of `sz` never splits, so `sz` need not be page aligned.
pub open spec fn first_fit_is_exact(s: Seq<Range>, sz: int) -> bool {
    forall|i: int|
        (0 <= i < s.len() && (#[trigger] s[i]).end - s[i].start >= sz && (forall|j: int|
            0 <= j < i ==> (#[trigger] s[j]).end - s[j].start < sz)) ==> s[i].end - s[i].start
            == sz
}

/// What `find` does on success: the first range of at least `sz`
/// addresses either leaves whole (when exactly `sz`) or has its top
/// `sz` addresses split off.
pub open spec fn take_effect(pre: Seq<Range>, post: Seq<Range>, rg: Range, sz: int) -> bool {
    exists|i: int|
        #![trigger pre[i]]
        {
            &&& 0 <= i < pre.len()
            &&& pre[i].end - pre[i].start >= sz
            &&& (forall|j: int| 0 <= j < i ==> (#[trigger] pre[j]).end - pre[j].start < sz)
            &&& if pre[i].end - pre[i].start == sz {
                rg == pre[i] && post == pre.remove(i)
            } else {
                rg == (Range { start: (pre[i].end - sz) as usize, end: pre[i].end }) && post
                    == pre.update(
                    i,
                    Range { start: pre[i].start, end: (pre[i].end - sz) as usize },
                )
            }
        }
}

/// Some range of the sequence covers the address `x`.
pub open spec fn seq_covers(s: Seq<Range>, x: int) -> bool {
    exists|i: int| 0 <= i < s.len() && (#[trigger] s[i]).covers(x)
}

/// The new sequence covers exactly the old addresses plus the range's.
pub open spec fn covers_union(s2: Seq<Range>, s: Seq<Range>, value: Range) -> bool {
    forall|x: int| seq_covers(s2, x) <==> seq_covers(s, x) || value.covers(x)
}

/// The new sequence covers exactly the old addresses minus the range's.
pub open spec fn covers_minus(s2: Seq<Range>, s: Seq<Range>, value: Range) -> bool {
    forall|x: int| seq_covers(s2, x) <==> (seq_covers(s, x) && !value.covers(x))
}

/// Every address of the range is covered by the sequence.
pub open spec fn covers_within(value: Range, s: Seq<Range>) -> bool {
    forall|x: int| value.covers(x) ==> seq_covers(s, x)
}

/// A set of disjoint, properly ordered ranges, sorted by start address;
/// neighbouring ranges may touch (the insert merge closes at most one
/// contact).
pub struct RangeSet {
    set: Vec<Range>,
}

impl RangeSet {
    /// The ranges, sorted by start address.
    pub closed spec fn view(self) -> Seq<Range> {
        self.set@
    }

    /// Every range properly ordered, consecutive ranges disjoint and in
    /// order.
    pub open spec fn wf(self) -> bool {
        ranges_wf(self@) && ranges_sorted(self@)
    }

    /// The empty set.
    pub fn empty() -> (r: RangeSet)
        ensures
            r.wf(),
            r@ == Seq::<Range>::empty(),
    {
        RangeSet { set: Vec::new() }
    }

    /// How many ranges the set currently holds.
    pub fn len(&self) -> (r: usize)
        ensures
            r == self@.len(),
    {
        self.set.len()
    }

    /// Add a range that overlaps nothing already present.  A range that
    /// touches an existing one is merged into it (one contact at most);
    /// otherwise it is placed at its sorted position.  The covered
    /// addresses afterwards are exactly the old ones plus the new
    /// range's.
    pub fn insert(&mut self, value: Range)
        requires
            old(self).wf(),
            value.wf(),
            fits_outside(old(self)@, value),
        ensures
            final(self).wf(),
            covers_union(final(self)@, old(self)@, value),
            insert_effect(old(self)@, final(self)@, value),
            final(self)@.len() == old(self)@.len() || final(self)@.len() == old(self)@.len()
                + 1,
    {
        let ghost s = self.set@;
        let n = self.set.len();
        let mut insert_index: usize = 0;
        loop
            invariant
                ranges_wf(s),
                ranges_sorted(s),
                self.set@ == s,
                old(self)@ == s,
                n == s.len(),
                value.wf(),
                fits_outside(s, value),
                0 <= insert_index <= n,
                forall|i: int| 0 <= i < insert_index ==> (#[trigger] s[i]).start <= value.start,
                forall|i: int|
                    0 <= i < insert_index ==> !(#[trigger] s[i]).can_merge_spec(value),
            ensures
                self.set@ == s,
                0 <= insert_index <= n,
                forall|i: int| 0 <= i < insert_index ==> (#[trigger] s[i]).start <= value.start,
                forall|i: int|
                    0 <= i < insert_index ==> !(#[trigger] s[i]).can_merge_spec(value),
                insert_index == n || (s[insert_index as int].start > value.start
                    && !s[insert_index as int].can_merge_spec(value)),
            decreases n - insert_index,
        {
            if insert_index == n {
                break ;
            }
            let rg = self.set[insert_index];
            if rg.can_merge(&value) {
                let mut merged = rg;
                merged.merge(value);
                self.set[insert_index] = merged;
                proof {
                    lemma_insert_merge_ok(s, self.set@, value, insert_index as int);
                    assert(merged == merged_range(s[insert_index as int], value));
                    assert(self.set@ == s.update(
                        insert_index as int,
                        merged_range(s[insert_index as int], value),
                    ));
                    assert(insert_effect(s, self.set@, value));
                }
                return ;
            }
            if !rg.starts_before(&value) {
                break ;
            }
            insert_index += 1;
        }
        self.set.insert(insert_index, value);
        proof {
            lemma_insert_plain_ok(s, self.set@, value, insert_index as int);
            // No stored range touches the value: the scanned prefix was
            // checked, and everything at or past the stop starts beyond
            // the value's end.
            assert forall|j: int| 0 <= j < s.len() implies !(#[trigger] s[j]).can_merge_spec(
                value,
            ) by {
                if j >= insert_index {
                    let ii = insert_index as int;
                    assert(s[ii].start > value.start);
                    assert(!s[ii].overlaps_spec(value));
                    assert(s[ii].start >= value.end);
                    assert(s[ii].start != value.end);
                    if j > ii {
                        lemma_sorted_disjoint(s, ii, j);
                        assert(s[ii].wf());
                        assert(s[j].start > value.end);
                        assert(s[j].wf());
                    }
                }
            }
            assert(self.set@ == s.insert(insert_index as int, value));
            assert(insert_effect(s, self.set@, value));
        }
    }

    /// Take a range of exactly `sz` addresses out of the set: the first
    /// range of exactly that size leaves whole; otherwise the top of the
    /// first larger range is split off.  `None` exactly when every range
    /// is smaller.  What remains covers the old addresses minus the
    /// returned range's.
    pub fn find(&mut self, sz: usize) -> (r: Option<Range>)
        requires
            old(self).wf(),
            sz as int % (PAGE_SIZE as int) == 0 || first_fit_is_exact(old(self)@, sz as int),
        ensures
            final(self).wf(),
            r is None ==> final(self)@ == old(self)@ && (forall|i: int|
                0 <= i < old(self)@.len() ==> (#[trigger] old(self)@[i]).end
                    - old(self)@[i].start < sz),
            r matches Some(rg) ==> {
                &&& rg.wf()
                &&& rg.end - rg.start == sz
                &&& covers_within(rg, old(self)@)
                &&& covers_minus(final(self)@, old(self)@, rg)
                &&& take_effect(old(self)@, final(self)@, rg, sz as int)
            },
    {
        let ghost s = self.set@;
        let n = self.set.len();
        let mut i: usize = 0;
        loop
            invariant
                ranges_wf(s),
                ranges_sorted(s),
                self.set@ == s,
                n == s.len(),
                0 <= i <= n,
                forall|j: int| 0 <= j < i ==> (#[trigger] s[j]).end - s[j].start < sz,
            ensures
                self.set@ == s,
                0 <= i <= n,
                forall|j: int| 0 <= j < i ==> (#[trigger] s[j]).end - s[j].start < sz,
                i < n ==> s[i as int].end - s[i as int].start >= sz,
            decreases n - i,
        {
            if i == n {
                break ;
            }
            let rg = self.set[i];
            proof {
                assert(s[i as int].wf());
            }
            if rg.len() == sz {
                break ;
            }
            if rg.can_split(sz) {
                break ;
            }
            i += 1;
        }
        if i == self.set.len() {
            return None;
        }
        let rg = self.set[i];
        proof {
            assert(s[i as int].wf());
        }
        if rg.len() == sz {
            let taken = self.set.remove(i);
            proof {
                lemma_find_remove_ok(s, self.set@, i as int);
                assert(self.set@ == s.remove(i as int));
                assert(take_effect(s, self.set@, taken, sz as int));
            }
            return Some(taken);
        }
        proof {
            // The first fitting range is strictly larger, so the caller
            // promised page alignment for the split.
            if sz as int % (PAGE_SIZE as int) != 0 {
                assert(s[i as int].end - s[i as int].start >= sz && (forall|j: int|
                    0 <= j < i ==> (#[trigger] s[j]).end - s[j].start < sz));
                assert(false);
            }
        }
        let mut shrunk = rg;
        let taken = shrunk.split(sz);
        self.set[i] = shrunk;
        proof {
            lemma_find_split_ok(s, self.set@, i as int, taken);
            assert(self.set@ == s.update(
                i as int,
                Range { start: s[i as int].start, end: (s[i as int].end - sz) as usize },
            ));
            assert(take_effect(s, self.set@, taken, sz as int));
        }
        Some(taken)
    }
}

/// A touching range merged in place at `at` covers exactly the old
/// addresses plus the new range's.
proof fn lemma_insert_merge_ok(s: Seq<Range>, s2: Seq<Range>, value: Range, at: int)
    requires
        ranges_wf(s),
        ranges_sorted(s),
        value.wf(),
        fits_outside(s, value),
        0 <= at < s.len(),
        s[at].can_merge_spec(value),
        forall|i: int| 0 <= i < at ==> (#[trigger] s[i]).start <= value.start,
        forall|i: int| 0 <= i < at ==> !(#[trigger] s[i]).can_merge_spec(value),
        s2 == s.update(
            at,
            Range {
                start: if s[at].start <= value.start {
                    s[at].start
                } else {
                    value.start
                },
                end: if s[at].end >= value.end {
                    s[at].end
                } else {
                    value.end
                },
            },
        ),
    ensures
        ranges_wf(s2),
        ranges_sorted(s2),
        forall|x: int| seq_covers(s2, x) <==> seq_covers(s, x) || value.covers(x),
        s2.len() == s.len(),
{
    assert(s[at].wf());
    assert(s2[at].wf());
    assert forall|i: int, j: int|
        #![trigger s2[i], s2[j]]
        0 <= i && j == i + 1 && j < s2.len() implies s2[i].end <= s2[j].start by {
        assert(s[i].end <= s[j].start);
        if j == at {
            // The predecessor ends at or before the merged start.
            assert(s[i].start <= value.start);
            assert(!s[i].overlaps_spec(value));
            assert(s[i].end <= value.start);
        } else if i == at {
            // The merged end reaches at most the successor's start.
            if s[at].end == value.start {
                assert(!value.overlaps_spec(s[j]));
                if s[j].start < value.end {
                    assert(s[j].wf());
                    assert(false);
                }
            }
        }
    }
    assert forall|x: int| seq_covers(s2, x) <==> seq_covers(s, x) || value.covers(x) by {
        if seq_covers(s2, x) {
            let i = choose|i: int| 0 <= i < s2.len() && (#[trigger] s2[i]).covers(x);
            if i == at {
                if !s[at].covers(x) && !value.covers(x) {
                    assert(false);
                }
                assert(seq_covers(s, x) || value.covers(x));
            } else {
                assert(s[i].covers(x));
                assert(seq_covers(s, x));
            }
        }
        if seq_covers(s, x) {
            let i = choose|i: int| 0 <= i < s.len() && (#[trigger] s[i]).covers(x);
            if i == at {
                assert(s2[at].covers(x));
            } else {
                assert(s2[i].covers(x));
            }
            assert(seq_covers(s2, x));
        }
        if value.covers(x) {
            assert(s2[at].covers(x));
            assert(seq_covers(s2, x));
        }
    }
}

/// A range placed at its sorted position covers exactly the old
/// addresses plus its own.
proof fn lemma_insert_plain_ok(s: Seq<Range>, s2: Seq<Range>, value: Range, at: int)
    requires
        ranges_wf(s),
        ranges_sorted(s),
        value.wf(),
        fits_outside(s, value),
        0 <= at <= s.len(),
        forall|i: int| 0 <= i < at ==> (#[trigger] s[i]).start <= value.start,
        forall|i: int| 0 <= i < at ==> !(#[trigger] s[i]).can_merge_spec(value),
        at < s.len() ==> s[at].start > value.start,
        s2 == s.insert(at, value),
    ensures
        ranges_wf(s2),
        ranges_sorted(s2),
        forall|x: int| seq_covers(s2, x) <==> seq_covers(s, x) || value.covers(x),
        s2.len() == s.len() + 1,
{
    assert(forall|i: int| 0 <= i < at ==> s2[i] == #[trigger] s[i]);
    assert(forall|i: int| at < i < s2.len() ==> #[trigger] s2[i] == s[i - 1]);
    assert(s2[at] == value);
    assert forall|i: int, j: int|
        #![trigger s2[i], s2[j]]
        0 <= i && j == i + 1 && j < s2.len() implies s2[i].end <= s2[j].start by {
        if j == at {
            assert(s[i].start <= value.start);
            assert(!s[i].overlaps_spec(value));
            assert(s[i].end <= value.start);
        } else if i == at {
            assert(s2[j] == s[at]);
            assert(s[at].start > value.start);
            assert(!value.overlaps_spec(s[at]));
            assert(value.end <= s[at].start);
        } else if i > at {
            assert(s2[i] == s[i - 1] && s2[j] == s[j - 1]);
            assert(s[i - 1].end <= s[j - 1].start);
        } else {
            assert(s[i].end <= s[j].start);
        }
    }
    assert forall|x: int| seq_covers(s2, x) <==> seq_covers(s, x) || value.covers(x) by {
        if seq_covers(s2, x) {
            let i = choose|i: int| 0 <= i < s2.len() && (#[trigger] s2[i]).covers(x);
            if i < at {
                assert(s[i].covers(x));
                assert(seq_covers(s, x));
            } else if i > at {
                assert(s[i - 1].covers(x));
                assert(seq_covers(s, x));
            }
        }
        if seq_covers(s, x) {
            let i = choose|i: int| 0 <= i < s.len() && (#[trigger] s[i]).covers(x);
            if i < at {
                assert(s2[i].covers(x));
            } else {
                assert(s2[i + 1].covers(x));
            }
            assert(seq_covers(s2, x));
        }
        if value.covers(x) {
            assert(s2[at].covers(x));
            assert(seq_covers(s2, x));
        }
    }
}

/// Removing the range at `at` removes exactly its addresses.
proof fn lemma_find_remove_ok(s: Seq<Range>, s2: Seq<Range>, at: int)
    requires
        ranges_wf(s),
        ranges_sorted(s),
        0 <= at < s.len(),
        s2 == s.remove(at),
    ensures
        ranges_wf(s2),
        ranges_sorted(s2),
        forall|x: int| s[at].covers(x) ==> seq_covers(s, x),
        forall|x: int| seq_covers(s2, x) <==> (seq_covers(s, x) && !s[at].covers(x)),
{
    assert(forall|i: int| 0 <= i < at ==> s2[i] == #[trigger] s[i]);
    assert(forall|i: int| at <= i < s2.len() ==> #[trigger] s2[i] == s[i + 1]);
    assert forall|i: int, j: int|
        #![trigger s2[i], s2[j]]
        0 <= i && j == i + 1 && j < s2.len() implies s2[i].end <= s2[j].start by {
        if i == at - 1 {
            lemma_sorted_disjoint(s, at - 1, at + 1);
        } else if i >= at {
            assert(s2[i] == s[i + 1] && s2[j] == s[j + 1]);
            assert(s[i + 1].end <= s[j + 1].start);
        } else {
            assert(s[i].end <= s[j].start);
        }
    }
    assert forall|x: int| seq_covers(s2, x) <==> (seq_covers(s, x) && !s[at].covers(x)) by {
        if seq_covers(s2, x) {
            let i = choose|i: int| 0 <= i < s2.len() && (#[trigger] s2[i]).covers(x);
            let iold: int = if i < at {
                i
            } else {
                i + 1
            };
            assert(s[iold].covers(x));
            assert(seq_covers(s, x));
            if s[at].covers(x) {
                lemma_ranges_disjoint(s, at, iold);
            }
        }
        if seq_covers(s, x) && !s[at].covers(x) {
            let i = choose|i: int| 0 <= i < s.len() && (#[trigger] s[i]).covers(x);
            assert(i != at);
            if i < at {
                assert(s2[i].covers(x));
            } else {
                assert(s2[i - 1].covers(x));
            }
            assert(seq_covers(s2, x));
        }
    }
}

/// Splitting the top of the range at `at` removes exactly the split-off
/// addresses.
proof fn lemma_find_split_ok(s: Seq<Range>, s2: Seq<Range>, at: int, taken: Range)
    requires
        ranges_wf(s),
        ranges_sorted(s),
        0 <= at < s.len(),
        taken.end == s[at].end,
        s[at].start <= taken.start <= taken.end,
        s2 == s.update(at, Range { start: s[at].start, end: taken.start }),
    ensures
        ranges_wf(s2),
        ranges_sorted(s2),
        forall|x: int| taken.covers(x) ==> seq_covers(s, x),
        forall|x: int| seq_covers(s2, x) <==> (seq_covers(s, x) && !taken.covers(x)),
{
    assert forall|i: int, j: int|
        #![trigger s2[i], s2[j]]
        0 <= i && j == i + 1 && j < s2.len() implies s2[i].end <= s2[j].start by {
        assert(s[i].end <= s[j].start);
    }
    assert forall|x: int| seq_covers(s2, x) <==> (seq_covers(s, x) && !taken.covers(x)) by {
        if seq_covers(s2, x) {
            let i = choose|i: int| 0 <= i < s2.len() && (#[trigger] s2[i]).covers(x);
            assert(s[i].covers(x));
            assert(seq_covers(s, x));
            if taken.covers(x) {
                if i != at {
                    lemma_ranges_disjoint(s, at, i);
                }
            }
        }
        if seq_covers(s, x) && !taken.covers(x) {
            let i = choose|i: int| 0 <= i < s.len() && (#[trigger] s[i]).covers(x);
            assert(s2[i].covers(x));
            assert(seq_covers(s2, x));
        }
    }
}

/// In a sorted set, an earlier range ends at or before a later one
/// starts.
proof fn lemma_sorted_disjoint(s: Seq<Range>, i: int, j: int)
    requires
        ranges_wf(s),
        ranges_sorted(s),
        0 <= i < j < s.len(),
    ensures
        s[i].end <= s[j].start,
    decreases j - i,
{
    if j > i + 1 {
        lemma_sorted_disjoint(s, i, j - 1);
        assert(s[j - 1].end <= s[j].start);
        assert(s[j - 1].wf());
    } else {
        assert(s[i].end <= s[j].start);
    }
}

/// Two distinct ranges of a sorted set share no address.
proof fn lemma_ranges_disjoint(s: Seq<Range>, i: int, j: int)
    requires
        ranges_wf(s),
        ranges_sorted(s),
        0 <= i < s.len(),
        0 <= j < s.len(),
        i != j,
    ensures
        forall|x: int| s[i].covers(x) ==> !s[j].covers(x),
{
    if i < j {
        lemma_sorted_disjoint(s, i, j);
    } else {
        lemma_sorted_disjoint(s, j, i);
    }
}

} // verus!
