//! Merging the chunks of a query into a short list of ranges to read.
//!
//! A query may meet many bins whose chunks overlap.  Reading each chunk by
//! itself would decompress the same blocks again and again, so overlapping
//! and touching chunks are joined first.

use vstd::prelude::*;

verus! {

/// Whether the ranges are in ascending order of their first component.
pub open spec fn sorted_by_beg(s: Seq<(u64, u64)>) -> bool {
    forall|i: int, j: int| 0 <= i <= j < s.len() ==> s[i].0 <= s[j].0
}

/// Whether each range ends before every later range begins.
pub open spec fn separated(s: Seq<(u64, u64)>) -> bool {
    forall|i: int, j: int| 0 <= i < j < s.len() ==> s[i].1 < s[j].0
}

/// Whether `x` lies in one of the half-open ranges.
pub open spec fn covers(s: Seq<(u64, u64)>, x: u64) -> bool {
    exists|i: int| 0 <= i < s.len() && (#[trigger] s[i]).0 <= x < s[i].1
}

/// The number of ranges at the front of `s` that begin at or before `beg`.
pub open spec fn insert_index(s: Seq<(u64, u64)>, beg: u64) -> nat
    decreases s.len(),
{
    if s.len() == 0 || s[0].0 > beg {
        0
    } else {
        1 + insert_index(s.skip(1), beg)
    }
}

/// The ranges of `s`, taken in order, with each range that begins at or
/// before the end of the merged range before it joined to that range.
pub open spec fn merged(s: Seq<(u64, u64)>) -> Seq<(u64, u64)>
    decreases s.len(),
{
    if s.len() == 0 {
        Seq::empty()
    } else {
        let before = merged(s.drop_last());
        let next = s.last();
        if before.len() > 0 && next.0 <= before.last().1 {
            let joined = (
                before.last().0,
                if before.last().1 < next.1 {
                    next.1
                } else {
                    before.last().1
                },
            );
            before.drop_last().push(joined)
        } else {
            before.push(next)
        }
    }
}

/// A collector of ranges of virtual file offsets that hands them back merged.
pub struct RegionSimplify {
    regions: Vec<(u64, u64)>,
}

impl View for RegionSimplify {
    type V = Seq<(u64, u64)>;

    /// The ranges inserted so far, in ascending order of their beginnings;
    /// ranges that begin together stand in the order of their insertion.
    closed spec fn view(&self) -> Seq<(u64, u64)> {
        self.regions@
    }
}

impl RegionSimplify {
    /// The invariant of the collector: its ranges are kept in order.
    pub open spec fn wf(&self) -> bool {
        sorted_by_beg(self@)
    }

    /// Makes a collector that holds no range.
    pub fn new() -> (simplify: RegionSimplify)
        ensures
            simplify.wf(),
            simplify@ == Seq::<(u64, u64)>::empty(),
    {
        RegionSimplify { regions: Vec::new() }
    }

    /// Adds the range from `beg` to `end`.
    pub fn insert(&mut self, beg: u64, end: u64)
        requires
            old(self).wf(),
        ensures
            final(self).wf(),
            final(self)@ == old(self)@.insert(insert_index(old(self)@, beg) as int, (beg, end)),
    {
        let ghost s = self.regions@;
        let mut at: usize = 0;
        assert(s.skip(0) =~= s);
        while at < self.regions.len() && self.regions[at].0 <= beg
            invariant
                s == self.regions@,
                at <= s.len(),
                forall|i: int| 0 <= i < at ==> s[i].0 <= beg,
                insert_index(s, beg) == at + insert_index(s.skip(at as int), beg),
            decreases s.len() - at,
        {
            assert(s.skip(at as int).skip(1) =~= s.skip(at + 1));
            at += 1;
        }
        self.regions.insert(at, (beg, end));
    }

    /// The merged ranges: in ascending order, and none overlapping or
    /// touching another.
    pub fn regions(&self) -> (out: Vec<(u64, u64)>)
        requires
            self.wf(),
        ensures
            out@ == merged(self@),
    {
        let mut out: Vec<(u64, u64)> = Vec::new();
        let mut i: usize = 0;
        while i < self.regions.len()
            invariant
                i <= self.regions.len(),
                out@ == merged(self.regions@.take(i as int)),
            decreases self.regions.len() - i,
        {
            let next = self.regions[i];
            assert(self.regions@.take(i + 1).drop_last() =~= self.regions@.take(i as int));
            let n = out.len();
            if n > 0 && next.0 <= out[n - 1].1 {
                let last = out[n - 1];
                let end = if last.1 < next.1 {
                    next.1
                } else {
                    last.1
                };
                out.set(n - 1, (last.0, end));
                assert(out@ =~= merged(self.regions@.take(i + 1)));
            } else {
                out.push(next);
            }
            i += 1;
        }
        assert(self.regions@.take(i as int) =~= self.regions@);
        out
    }
}

/// What merging keeps of a list in ascending order of beginnings, proved
/// together by induction over the list.
proof fn lemma_merged_induction(s: Seq<(u64, u64)>)
    requires
        sorted_by_beg(s),
    ensures
        sorted_by_beg(merged(s)),
        separated(merged(s)),
        s.len() > 0 ==> merged(s).len() > 0,
        forall|i: int| 0 <= i < merged(s).len() ==> (#[trigger] merged(s)[i]).0 <= s.last().0,
        forall|x: u64| #[trigger] covers(merged(s), x) <==> covers(s, x),
    decreases s.len(),
{
    if s.len() > 0 {
        let front = s.drop_last();
        let next = s.last();
        let before = merged(front);
        let after = merged(s);
        lemma_merged_induction(front);
        assert forall|i: int| 0 <= i < before.len() implies (#[trigger] before[i]).0 <= next.0 by {
            assert(front.len() > 0);
            assert(front.last() == s[s.len() - 2]);
        }
        assert forall|x: u64| covers(after, x) <==> covers(s, x) by {
            if covers(s, x) {
                let i = choose|i: int| 0 <= i < s.len() && (#[trigger] s[i]).0 <= x < s[i].1;
                if i < s.len() - 1 {
                    assert(front[i] == s[i]);
                    assert(covers(front, x));
                    assert(covers(before, x));
                    let j = choose|j: int|
                        0 <= j < before.len() && (#[trigger] before[j]).0 <= x < before[j].1;
                    if j < after.len() - 1 {
                        assert(after[j] == before[j]);
                    } else {
                        assert(after.last().0 <= x < after.last().1);
                    }
                } else {
                    if before.len() > 0 {
                        assert(before[before.len() - 1].0 <= next.0);
                    }
                    assert(after.last().0 <= x < after.last().1);
                }
            }
            if covers(after, x) {
                let j = choose|j: int|
                    0 <= j < after.len() && (#[trigger] after[j]).0 <= x < after[j].1;
                if j < after.len() - 1 {
                    assert(before[j] == after[j]);
                    assert(covers(before, x));
                    assert(covers(front, x));
                    let i = choose|i: int|
                        0 <= i < front.len() && (#[trigger] front[i]).0 <= x < front[i].1;
                    assert(s[i] == front[i]);
                } else if before.len() > 0 && next.0 <= before.last().1 {
                    if x < before.last().1 {
                        assert(before.last().0 <= x < before.last().1);
                        assert(covers(before, x));
                        assert(covers(front, x));
                        let i = choose|i: int|
                            0 <= i < front.len() && (#[trigger] front[i]).0 <= x < front[i].1;
                        assert(s[i] == front[i]);
                    } else {
                        assert(s.last().0 <= x < s.last().1);
                    }
                } else {
                    assert(s.last().0 <= x < s.last().1);
                }
            }
        }
    }
}

/// The merged list is in ascending order and its ranges neither overlap nor
/// touch: each ends before the next begins.
pub proof fn lemma_merged_sorted_separated(s: Seq<(u64, u64)>)
    requires
        sorted_by_beg(s),
    ensures
        sorted_by_beg(merged(s)),
        separated(merged(s)),
{
    lemma_merged_induction(s);
}

/// The merged ranges cover exactly the positions that the given ranges
/// cover.
pub proof fn lemma_merged_covers(s: Seq<(u64, u64)>, x: u64)
    requires
        sorted_by_beg(s),
    ensures
        covers(merged(s), x) <==> covers(s, x),
{
    lemma_merged_induction(s);
}

/// Inserting a range adds what it covers to what was covered before.
pub proof fn lemma_insert_covers(s: Seq<(u64, u64)>, beg: u64, end: u64, x: u64)
    ensures
        covers(s.insert(insert_index(s, beg) as int, (beg, end)), x) <==> (covers(s, x) || beg <= x
            < end),
{
    lemma_insert_index_bound(s, beg);
    let at = insert_index(s, beg) as int;
    let t = s.insert(at, (beg, end));
    if covers(s, x) {
        let i = choose|i: int| 0 <= i < s.len() && (#[trigger] s[i]).0 <= x < s[i].1;
        if i < at {
            assert(t[i] == s[i]);
        } else {
            assert(t[i + 1] == s[i]);
        }
    }
    if beg <= x < end {
        assert(t[at] == (beg, end));
    }
    if covers(t, x) {
        let i = choose|i: int| 0 <= i < t.len() && (#[trigger] t[i]).0 <= x < t[i].1;
        if i < at {
            assert(t[i] == s[i]);
        } else if i > at {
            assert(t[i] == s[i - 1]);
        }
    }
}

/// The place at which a range is inserted lies within the list; the ranges
/// before it begin at or before `beg`, and the range at it begins later.
pub proof fn lemma_insert_index_bound(s: Seq<(u64, u64)>, beg: u64)
    ensures
        insert_index(s, beg) <= s.len(),
        forall|i: int| 0 <= i < insert_index(s, beg) ==> (#[trigger] s[i]).0 <= beg,
        insert_index(s, beg) < s.len() ==> s[insert_index(s, beg) as int].0 > beg,
    decreases s.len(),
{
    if s.len() > 0 && s[0].0 <= beg {
        lemma_insert_index_bound(s.skip(1), beg);
        assert forall|i: int| 0 <= i < insert_index(s, beg) implies (#[trigger] s[i]).0 <= beg by {
            if i > 0 {
                assert(s.skip(1)[i - 1] == s[i]);
            }
        }
    }
}

} // verus!
