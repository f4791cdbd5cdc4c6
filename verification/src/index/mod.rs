//! The UCSC binning scheme and the merging of chunk lists.
//!
//! Positions below 2^29 are covered by a tree of bins with six levels.  The
//! single bin of level 0 spans the whole range; each bin of a level is split
//! into eight bins of the next, down to bins of 16 kb at level 5.  Bins are
//! numbered level by level, so coarser bins have smaller numbers.

pub mod region;
pub mod tbi;

pub use region::RegionSimplify;

use vstd::prelude::*;

verus! {

/// The number of bits that a position is shifted by to find its finest bin.
pub const DEFAULT_MIN_SHIFT: u32 = 14;

/// The number of levels below the root of the bin tree.
pub const DEFAULT_DEPTH: u32 = 5;

/// The first position that the bin tree does not cover, 2^29.
pub const MAX_POSITION: u64 = 0x2000_0000;

/// The number of positions that one bin of `level` spans.
pub open spec fn level_span(level: int) -> int {
    if level <= 0 {
        0x2000_0000
    } else if level == 1 {
        0x400_0000
    } else if level == 2 {
        0x80_0000
    } else if level == 3 {
        0x10_0000
    } else if level == 4 {
        0x2_0000
    } else {
        0x4000
    }
}

/// The number of the first bin of `level`: the number of bins of all coarser
/// levels together.
pub open spec fn level_first_bin(level: int) -> int {
    if level <= 0 {
        0
    } else if level == 1 {
        1
    } else if level == 2 {
        9
    } else if level == 3 {
        73
    } else if level == 4 {
        585
    } else {
        4681
    }
}

/// The bin of `level` that holds position `pos`.
pub open spec fn bin_of(level: int, pos: int) -> int {
    level_first_bin(level) + pos / level_span(level)
}

/// Whether one bin of `level` holds both positions.
pub open spec fn same_bin(level: int, first: int, last: int) -> bool {
    first / level_span(level) == last / level_span(level)
}

/// The smallest bin that holds the half-open range from `beg` to `end`: the
/// bin of the finest level in which the first and the last position of the
/// range fall together, and the root bin 0 where no finer bin holds both.
pub open spec fn reg2bin_spec(beg: int, end: int) -> int {
    let last = end - 1;
    if same_bin(5, beg, last) {
        bin_of(5, beg)
    } else if same_bin(4, beg, last) {
        bin_of(4, beg)
    } else if same_bin(3, beg, last) {
        bin_of(3, beg)
    } else if same_bin(2, beg, last) {
        bin_of(2, beg)
    } else if same_bin(1, beg, last) {
        bin_of(1, beg)
    } else {
        0
    }
}

/// The bins from `lo` to `hi`, both included, in ascending order.
pub open spec fn bin_range(lo: int, hi: int) -> Seq<u32> {
    if lo <= hi {
        Seq::new((hi - lo + 1) as nat, |i: int| (lo + i) as u32)
    } else {
        Seq::empty()
    }
}

/// The bins of `level` that meet the half-open range from `beg` to `end`,
/// in ascending order.
pub open spec fn level_bins(level: int, beg: int, end: int) -> Seq<u32> {
    bin_range(bin_of(level, beg), bin_of(level, end - 1))
}

/// The bins of the levels from the root down to `level` that meet the
/// half-open range from `beg` to `end`: level by level, and in ascending
/// order within a level.
pub open spec fn bins_through(level: int, beg: int, end: int) -> Seq<u32>
    decreases level + 1,
{
    if level < 0 {
        Seq::empty()
    } else {
        bins_through(level - 1, beg, end) + level_bins(level, beg, end)
    }
}

/// Every bin that meets the half-open range from `beg` to `end`: level by
/// level from the root, and in ascending order within a level.
pub open spec fn reg2bins_spec(beg: int, end: int) -> Seq<u32> {
    bins_through(5, beg, end)
}

/// Computes the smallest bin that holds the range from `beg` to `end`.
pub fn reg2bin(beg: u64, end: u64) -> (bin: u32)
    requires
        0 < end <= MAX_POSITION,
    ensures
        bin == reg2bin_spec(beg as int, end as int),
        bin <= 37448,
{
    let last: u64 = end - 1;
    assert(beg >> 14 == beg / 0x4000 && beg >> 17 == beg / 0x2_0000 && beg >> 20 == beg / 0x10_0000
        && beg >> 23 == beg / 0x80_0000 && beg >> 26 == beg / 0x400_0000) by (bit_vector);
    assert(last >> 14 == last / 0x4000 && last >> 17 == last / 0x2_0000 && last >> 20 == last
        / 0x10_0000 && last >> 23 == last / 0x80_0000 && last >> 26 == last / 0x400_0000)
        by (bit_vector);
    if beg >> 14 == last >> 14 {
        (4681 + (beg >> 14)) as u32
    } else if beg >> 17 == last >> 17 {
        (585 + (beg >> 17)) as u32
    } else if beg >> 20 == last >> 20 {
        (73 + (beg >> 20)) as u32
    } else if beg >> 23 == last >> 23 {
        (9 + (beg >> 23)) as u32
    } else if beg >> 26 == last >> 26 {
        (1 + (beg >> 26)) as u32
    } else {
        0
    }
}

/// Appends the bins from `lo` to `hi`, both included, to `out`.
fn push_bin_range(lo: u64, hi: u64, out: &mut Vec<u32>)
    requires
        hi <= 37448,
    ensures
        final(out)@ == old(out)@ + bin_range(lo as int, hi as int),
{
    let ghost range = bin_range(lo as int, hi as int);
    let mut bin: u64 = lo;
    while bin <= hi
        invariant
            hi <= 37448,
            lo <= bin,
            lo <= hi ==> bin <= hi + 1,
            lo > hi ==> bin == lo,
            range == bin_range(lo as int, hi as int),
            out@ == old(out)@ + range.take(bin - lo),
        decreases hi + 1 - bin,
    {
        assert(range.take(bin - lo).push(bin as u32) =~= range.take(bin + 1 - lo));
        out.push(bin as u32);
        bin += 1;
    }
    assert(range.take(bin - lo) =~= range);
}

/// Computes the bin of `level` that holds position `pos`.
fn bin_at(level: u32, pos: u64) -> (bin: u64)
    requires
        level <= DEFAULT_DEPTH,
    ensures
        bin == bin_of(level as int, pos as int),
        pos < MAX_POSITION ==> bin <= 37448,
{
    assert(pos >> 14 == pos / 0x4000 && pos >> 17 == pos / 0x2_0000 && pos >> 20 == pos / 0x10_0000
        && pos >> 23 == pos / 0x80_0000 && pos >> 26 == pos / 0x400_0000 && pos >> 29 == pos
        / 0x2000_0000) by (bit_vector);
    if level == 0 {
        pos >> 29
    } else if level == 1 {
        1 + (pos >> 26)
    } else if level == 2 {
        9 + (pos >> 23)
    } else if level == 3 {
        73 + (pos >> 20)
    } else if level == 4 {
        585 + (pos >> 17)
    } else {
        4681 + (pos >> 14)
    }
}

/// Appends to `out` every bin that meets the range from `beg` to `end`.
pub fn reg2bins(beg: u64, end: u64, out: &mut Vec<u32>)
    requires
        0 < end <= MAX_POSITION,
    ensures
        final(out)@ == old(out)@ + reg2bins_spec(beg as int, end as int),
{
    let last: u64 = end - 1;
    let mut level: u32 = 0;
    while level <= DEFAULT_DEPTH
        invariant
            level <= DEFAULT_DEPTH + 1,
            last == end - 1,
            0 < end <= MAX_POSITION,
            out@ == old(out)@ + bins_through(level - 1, beg as int, end as int),
        decreases DEFAULT_DEPTH + 1 - level,
    {
        let lo = bin_at(level, beg);
        let hi = bin_at(level, last);
        push_bin_range(lo, hi, out);
        assert(out@ =~= old(out)@ + bins_through(level as int, beg as int, end as int));
        level += 1;
    }
}

/// A bin is in the ascending run from `lo` to `hi` exactly if it lies
/// between the two.
proof fn lemma_bin_range_members(lo: int, hi: int, bin: u32)
    requires
        0 <= lo,
        hi <= u32::MAX,
    ensures
        bin_range(lo, hi).contains(bin) <==> lo <= bin <= hi,
{
    let range = bin_range(lo, hi);
    if lo <= bin <= hi {
        assert(range[bin - lo] == bin);
    }
}

/// Each bin among those of the levels down to `level` is a bin of one of
/// these levels that holds a position of the range, and each such bin is
/// among them.
proof fn lemma_bins_through_members(level: int, beg: int, end: int, bin: u32)
    requires
        -1 <= level <= 5,
        0 <= beg < end <= MAX_POSITION,
    ensures
        bins_through(level, beg, end).contains(bin) <==> exists|l: int|
            0 <= l <= level && #[trigger] bin_of(l, beg) <= bin <= bin_of(l, end - 1),
    decreases level + 1,
{
    if level >= 0 {
        let upper = bins_through(level - 1, beg, end);
        let here = level_bins(level, beg, end);
        lemma_bins_through_members(level - 1, beg, end, bin);
        lemma_bin_range_members(bin_of(level, beg), bin_of(level, end - 1), bin);
        if upper.contains(bin) {
            let i = choose|i: int| 0 <= i < upper.len() && upper[i] == bin;
            assert((upper + here)[i] == bin);
        }
        if here.contains(bin) {
            let i = choose|i: int| 0 <= i < here.len() && here[i] == bin;
            assert((upper + here)[upper.len() + i] == bin);
        }
        if (upper + here).contains(bin) {
            let i = choose|i: int| 0 <= i < (upper + here).len() && (upper + here)[i] == bin;
            if i < upper.len() {
                assert(upper[i] == bin);
            } else {
                assert(here[i - upper.len()] == bin);
            }
        }
        if exists|l: int| 0 <= l <= level && #[trigger] bin_of(l, beg) <= bin <= bin_of(l, end - 1) {
            let l = choose|l: int|
                0 <= l <= level && #[trigger] bin_of(l, beg) <= bin <= bin_of(l, end - 1);
            if l < level {
                assert(0 <= l <= level - 1 && bin_of(l, beg) <= bin <= bin_of(l, end - 1));
            }
        }
    }
}

/// Each bin that `reg2bins` lists is a bin of one level that holds a
/// position of the range, and each such bin is listed.
pub proof fn lemma_reg2bins_members(beg: u64, end: u64, bin: u32)
    requires
        beg < end <= MAX_POSITION,
    ensures
        reg2bins_spec(beg as int, end as int).contains(bin) <==> exists|level: int|
            0 <= level <= 5 && #[trigger] bin_of(level, beg as int) <= bin <= bin_of(
                level,
                end - 1,
            ),
{
    lemma_bins_through_members(5, beg as int, end as int, bin);
}

/// The smallest bin that holds a range is among the bins that meet it.
pub proof fn lemma_reg2bin_in_reg2bins(beg: u64, end: u64)
    requires
        beg < end <= MAX_POSITION,
    ensures
        reg2bins_spec(beg as int, end as int).contains(reg2bin_spec(beg as int, end as int) as u32),
{
    let b = beg as int;
    let last = end - 1;
    let bin = reg2bin_spec(b, end as int);
    let level: int = if same_bin(5, b, last) {
        5
    } else if same_bin(4, b, last) {
        4
    } else if same_bin(3, b, last) {
        3
    } else if same_bin(2, b, last) {
        2
    } else if same_bin(1, b, last) {
        1
    } else {
        0
    };
    assert(bin_of(level, b) <= bin <= bin_of(level, last));
    lemma_reg2bins_members(beg, end, bin as u32);
}

} // verus!
