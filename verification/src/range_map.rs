//! An ordered map from half-open `u64` ranges to values.
//!
//! The map keeps a sorted list of disjoint, non-empty ranges.  Inserting a
//! value over a range that partially overlaps stored ranges first splits the
//! stored ranges at the overlap boundaries, so that the covered portion can be
//! replaced while the uncovered portions keep their prior values.  One map
//! instance tracks one resource; absence of a point means "untracked".
//!
//! The mathematical model is the point function [`RangeMap::at`]: the value
//! stored at each point, if any.  Every operation's contract is stated against
//! it, together with the well-formedness invariant [`RangeMap::wf`].

use vstd::prelude::*;
use vstd::pervasive::VecAdditionalExecFns;

verus! {

/// One stored entry: a non-empty half-open range `[start, end)` and its value.
#[derive(Clone, Copy, Debug)]
pub struct RangeEntry<V> {
    pub start: u64,
    pub end: u64,
    pub value: V,
}

impl<V> RangeEntry<V> {
    /// True if `k` lies inside the entry's range.
    pub open spec fn spec_contains(self, k: int) -> bool {
        self.start <= k < self.end
    }
}

/// An ordered collection of disjoint ranges, each mapped to a value.
pub struct RangeMap<V> {
    items: Vec<RangeEntry<V>>,
}

impl<V: Copy> RangeMap<V> {
    /// The stored entries, in ascending range order.
    pub closed spec fn entries(&self) -> Seq<RangeEntry<V>> {
        self.items@
    }

    /// Invariant: every range is non-empty, and the ranges are disjoint and
    /// sorted by start.
    pub open spec fn wf(&self) -> bool {
        &&& forall|i: int|
            0 <= i < self.entries().len() ==> (#[trigger] self.entries()[i]).start
                < self.entries()[i].end
        &&& forall|i: int, j: int|
            0 <= i < j < self.entries().len() ==> (#[trigger] self.entries()[i]).end <= (
            #[trigger] self.entries()[j]).start
    }

    /// True if some entry covers the point `k`.
    pub open spec fn covers(&self, k: int) -> bool {
        exists|i: int| 0 <= i < self.entries().len() && (#[trigger] self.entries()[i]).spec_contains(k)
    }

    /// The index of the entry covering `k` (meaningful only when `covers(k)`).
    pub open spec fn index_of(&self, k: int) -> int {
        choose|i: int| 0 <= i < self.entries().len() && (#[trigger] self.entries()[i]).spec_contains(k)
    }

    /// The point model: the value stored at `k`, if any.
    pub open spec fn at(&self, k: int) -> Option<V> {
        if self.covers(k) {
            Some(self.entries()[self.index_of(k)].value)
        } else {
            None
        }
    }

    /// In a well-formed map, the entry covering a point is unique, so knowing
    /// that entry `i` contains `k` determines `at(k)`.
    pub proof fn lemma_at_entry(&self, i: int, k: int)
        requires
            self.wf(),
            0 <= i < self.entries().len(),
            self.entries()[i].spec_contains(k),
        ensures
            self.covers(k),
            self.index_of(k) == i,
            self.at(k) == Some(self.entries()[i].value),
    {
        assert(self.covers(k));
        let j = self.index_of(k);
        if j < i {
            assert(self.entries()[j].end <= self.entries()[i].start);
        } else if i < j {
            assert(self.entries()[i].end <= self.entries()[j].start);
        }
    }

    /// An empty map: no point is covered.
    pub fn new() -> (r: Self)
        ensures
            r.wf(),
            r.entries().len() == 0,
            forall|k: int| r.at(k) is None,
    {
        RangeMap { items: Vec::new() }
    }

    /// The number of stored entries.
    pub fn num_entries(&self) -> (n: usize)
        ensures
            n == self.entries().len(),
    {
        self.items.len()
    }

    /// The entry at position `i`, in ascending range order.
    pub fn entry(&self, i: usize) -> (e: RangeEntry<V>)
        requires
            i < self.entries().len(),
        ensures
            e == self.entries()[i as int],
    {
        self.items[i]
    }

    /// The first index whose entry ends after `k`: entries before it lie
    /// entirely at or below `k`, entries from it on reach beyond `k`.
    pub fn lower_bound(&self, k: u64) -> (i: usize)
        requires
            self.wf(),
        ensures
            i <= self.entries().len(),
            forall|j: int| 0 <= j < i ==> (#[trigger] self.entries()[j]).end <= k,
            forall|j: int| i <= j < self.entries().len() ==> (#[trigger] self.entries()[j]).end > k,
    {
        let mut lo: usize = 0;
        let mut hi: usize = self.items.len();
        while lo < hi
            invariant
                lo <= hi <= self.entries().len(),
                forall|j: int| 0 <= j < lo ==> (#[trigger] self.entries()[j]).end <= k,
                forall|j: int|
                    hi <= j < self.entries().len() ==> (#[trigger] self.entries()[j]).end > k,
                self.wf(),
            decreases hi - lo,
        {
            let mid = lo + (hi - lo) / 2;
            if self.items[mid].end <= k {
                assert(forall|j: int|
                    0 <= j < mid ==> (#[trigger] self.entries()[j]).end
                        <= self.entries()[mid as int].start);
                lo = mid + 1;
            } else {
                assert(forall|j: int|
                    mid < j < self.entries().len() ==> self.entries()[mid as int].end <= (
                    #[trigger] self.entries()[j]).start);
                hi = mid;
            }
        }
        lo
    }

    /// Replaces the value of the entry at position `i`, keeping its range.
    pub fn set_value(&mut self, i: usize, v: V)
        requires
            old(self).wf(),
            i < old(self).entries().len(),
        ensures
            final(self).wf(),
            final(self).entries().len() == old(self).entries().len(),
            final(self).entries()[i as int].start == old(self).entries()[i as int].start,
            final(self).entries()[i as int].end == old(self).entries()[i as int].end,
            final(self).entries()[i as int].value == v,
            forall|j: int|
                0 <= j < final(self).entries().len() && j != i ==> #[trigger] final(self).entries()[j] == old(self).entries()[j],
            forall|k: int|
                old(self).entries()[i as int].spec_contains(k) ==> final(self).at(k) == Some(v),
            forall|k: int|
                !old(self).entries()[i as int].spec_contains(k) ==> final(self).at(k) == old(self).at(k),
    {
        let e = self.items[i];
        self.items.set(i, RangeEntry { start: e.start, end: e.end, value: v });
        proof {
            assert forall|k: int| old(self).entries()[i as int].spec_contains(k) implies self.at(k)
                == Some(v) by {
                self.lemma_at_entry(i as int, k);
            }
            assert forall|k: int| !old(self).entries()[i as int].spec_contains(k) implies self.at(
                k,
            ) == old(self).at(k) by {
                if old(self).covers(k) {
                    let j = old(self).index_of(k);
                    old(self).lemma_at_entry(j, k);
                    self.lemma_at_entry(j, k);
                } else {
                    assert(!self.covers(k));
                }
            }
        }
    }

    /// Splits any entry that strictly contains `k` into two entries with the
    /// same value, one ending and one starting at `k`.  The point model is
    /// unchanged; afterwards no stored range strictly contains `k`.
    #[verifier::rlimit(50)]
    pub fn split_at(&mut self, k: u64)
        requires
            old(self).wf(),
        ensures
            final(self).wf(),
            forall|j: int| final(self).at(j) == old(self).at(j),
            forall|i: int|
                0 <= i < final(self).entries().len() ==> !((#[trigger] final(self).entries()[
                i]).start < k && k < final(self).entries()[i].end),
            forall|i: int|
                0 <= i < final(self).entries().len() ==> exists|j: int|
                    0 <= j < old(self).entries().len() && old(self).entries()[j].start <= (
                    #[trigger] final(self).entries()[i]).start && final(self).entries()[i].end
                        <= old(self).entries()[j].end && final(self).entries()[i].value == old(self).entries()[j].value,
    {
        let i = self.lower_bound(k);
        let ghost old_self = *self;
        if i < self.items.len() {
            let e = self.items[i];
            if e.start < k {
                // `e` ends after `k` and starts before it: split it.
                self.items.set(i, RangeEntry { start: e.start, end: k, value: e.value });
                self.items.insert(i + 1, RangeEntry { start: k, end: e.end, value: e.value });
                proof {
                    let n = old_self.entries().len();
                    assert(self.entries().len() == n + 1);
                    // Entry layout: [0..i) unchanged, i = left half, i+1 = right
                    // half, [i+2..) the old tail shifted by one.
                    assert(forall|j: int|
                        0 <= j < i ==> #[trigger] self.entries()[j] == old_self.entries()[j]);
                    assert(forall|j: int|
                        i + 2 <= j < n + 1 ==> #[trigger] self.entries()[j] == old_self.entries()[j
                            - 1]);
                    assert(self.wf());
                    assert forall|p: int| self.at(p) == old_self.at(p) by {
                        if old_self.covers(p) {
                            let j = old_self.index_of(p);
                            old_self.lemma_at_entry(j, p);
                            if j < i {
                                self.lemma_at_entry(j, p);
                            } else if j == i {
                                if p < k {
                                    self.lemma_at_entry(i as int, p);
                                } else {
                                    self.lemma_at_entry(i + 1, p);
                                }
                            } else {
                                self.lemma_at_entry(j + 1, p);
                            }
                        } else {
                            assert forall|m: int| 0 <= m < self.entries().len() implies !(
                            #[trigger] self.entries()[m]).spec_contains(p) by {
                                if m < i {
                                    assert(!old_self.entries()[m].spec_contains(p));
                                } else if m == i || m == i + 1 {
                                    assert(!old_self.entries()[i as int].spec_contains(p));
                                } else {
                                    assert(!old_self.entries()[m - 1].spec_contains(p));
                                }
                            }
                            assert(!self.covers(p));
                        }
                    }
                    assert forall|m: int| 0 <= m < self.entries().len() implies exists|j: int|
                        0 <= j < old_self.entries().len() && old_self.entries()[j].start <= (
                        #[trigger] self.entries()[m]).start && self.entries()[m].end
                            <= old_self.entries()[j].end && self.entries()[m].value
                            == old_self.entries()[j].value by {
                        if m < i {
                            assert(old_self.entries()[m].start <= self.entries()[m].start
                                && self.entries()[m].end <= old_self.entries()[m].end
                                && self.entries()[m].value == old_self.entries()[m].value);
                        } else if m == i || m == i + 1 {
                            assert(old_self.entries()[i as int].start <= self.entries()[m].start
                                && self.entries()[m].end <= old_self.entries()[i as int].end
                                && self.entries()[m].value == old_self.entries()[i as int].value);
                        } else {
                            assert(old_self.entries()[m - 1].start <= self.entries()[m].start
                                && self.entries()[m].end <= old_self.entries()[m - 1].end
                                && self.entries()[m].value == old_self.entries()[m - 1].value);
                        }
                    }
                }
                return ;
            }
        }
        proof {
            assert(self.entries() =~= old_self.entries());
            assert forall|m: int| 0 <= m < self.entries().len() implies exists|j: int|
                0 <= j < old_self.entries().len() && old_self.entries()[j].start <= (
                #[trigger] self.entries()[m]).start && self.entries()[m].end <= old_self.entries()[
                j].end && self.entries()[m].value == old_self.entries()[j].value by {
                assert(old_self.entries()[m].start <= self.entries()[m].start && self.entries()[
                m].end <= old_self.entries()[m].end && self.entries()[m].value
                    == old_self.entries()[m].value);
            }
            assert forall|m: int| 0 <= m < self.entries().len() implies !((
            #[trigger] self.entries()[m]).start < k && k < self.entries()[m].end) by {
                if m < i {
                    assert(self.entries()[m].end <= k);
                } else if m == i {
                } else {
                    assert(self.entries()[i as int].end <= self.entries()[m].start);
                }
            }
        }
    }

    /// Inserts `v` over `[start, end)`.  Overlapping stored ranges are split
    /// at the boundaries: the covered portions are replaced by `v`, the
    /// uncovered portions keep their prior values.
    pub fn insert(&mut self, start: u64, end: u64, v: V)
        requires
            old(self).wf(),
            start < end,
        ensures
            final(self).wf(),
            forall|k: int| start <= k < end ==> final(self).at(k) == Some(v),
            forall|k: int| !(start <= k < end) ==> final(self).at(k) == old(self).at(k),
    {
        self.split_at(start);
        self.split_at(end);
        let lo = self.lower_bound(start);
        let ghost split_self = *self;
        // After the splits, any entry overlapping the query lies entirely
        // within it; remove each such entry.
        while lo < self.items.len() && self.items[lo].start < end
            invariant
                self.wf(),
                lo <= self.entries().len(),
                forall|j: int| 0 <= j < lo ==> (#[trigger] self.entries()[j]).end <= start,
                forall|j: int|
                    lo <= j < self.entries().len() ==> (#[trigger] self.entries()[j]).end > start,
                forall|k: int| !(start <= k < end) ==> self.at(k) == split_self.at(k),
                forall|i2: int|
                    0 <= i2 < self.entries().len() ==> !((#[trigger] self.entries()[i2]).start
                        < start && start < self.entries()[i2].end),
                forall|i2: int|
                    0 <= i2 < self.entries().len() ==> !((#[trigger] self.entries()[i2]).start < end
                        && end < self.entries()[i2].end),
            decreases self.entries().len() - lo,
        {
            let ghost pre = *self;
            let ghost e = self.entries()[lo as int];
            proof {
                // The entry is contained in [start, end): it ends after
                // `start` but cannot straddle either boundary.
                assert(e.end > start);
                assert(!(e.start < start && start < e.end));
                assert(start <= e.start);
                assert(e.start < end);
                assert(!(e.start < end && end < e.end));
                assert(e.end <= end);
            }
            self.items.remove(lo);
            proof {
                assert(forall|j: int|
                    0 <= j < lo ==> #[trigger] self.entries()[j] == pre.entries()[j]);
                assert(forall|j: int|
                    lo <= j < self.entries().len() ==> #[trigger] self.entries()[j]
                        == pre.entries()[j + 1]);
                assert forall|k: int| !(start <= k < end) implies self.at(k) == split_self.at(
                    k,
                ) by {
                    if pre.covers(k) {
                        let j = pre.index_of(k);
                        pre.lemma_at_entry(j, k);
                        if j < lo {
                            self.lemma_at_entry(j, k);
                        } else if j == lo {
                            // The removed entry covers only points inside
                            // [start, end).
                            assert(start <= k < end);
                        } else {
                            self.lemma_at_entry(j - 1, k);
                        }
                    } else {
                        assert forall|m: int|
                            0 <= m < self.entries().len() implies !(#[trigger] self.entries()[
                        m]).spec_contains(k) by {
                            if m < lo {
                                assert(!pre.entries()[m].spec_contains(k));
                            } else {
                                assert(!pre.entries()[m + 1].spec_contains(k));
                            }
                        }
                        assert(!self.covers(k));
                        assert(!pre.covers(k));
                    }
                }
            }
        }
        let ghost gone = *self;
        self.items.insert(lo, RangeEntry { start, end, value: v });
        proof {
            assert(forall|j: int| 0 <= j < lo ==> #[trigger] self.entries()[j] == gone.entries()[j]);
            assert(forall|j: int|
                lo < j < self.entries().len() ==> #[trigger] self.entries()[j] == gone.entries()[j
                    - 1]);
            assert(self.entries()[lo as int] == RangeEntry { start, end, value: v });
            // Neighbours clear the new range on both sides.
            assert(forall|j: int|
                lo <= j < gone.entries().len() ==> (#[trigger] gone.entries()[j]).start >= end);
            assert(self.wf());
            assert forall|k: int| start <= k < end implies self.at(k) == Some(v) by {
                self.lemma_at_entry(lo as int, k);
            }
            assert forall|k: int| !(start <= k < end) implies self.at(k) == gone.at(k) by {
                if gone.covers(k) {
                    let j = gone.index_of(k);
                    gone.lemma_at_entry(j, k);
                    if j < lo {
                        self.lemma_at_entry(j, k);
                    } else {
                        self.lemma_at_entry(j + 1, k);
                    }
                } else {
                    assert forall|m: int|
                        0 <= m < self.entries().len() implies !(#[trigger] self.entries()[
                    m]).spec_contains(k) by {
                        if m < lo {
                            assert(!gone.entries()[m].spec_contains(k));
                        } else if m == lo {
                        } else {
                            assert(!gone.entries()[m - 1].spec_contains(k));
                        }
                    }
                    assert(!self.covers(k));
                }
            }
        }
    }

    /// All stored entries intersecting `[start, end)`, in ascending order,
    /// each clipped to the intersection.  Gaps are not reported: absence
    /// means "untracked".
    pub fn range(&self, start: u64, end: u64) -> (r: Vec<RangeEntry<V>>)
        requires
            self.wf(),
        ensures
            forall|i: int|
                0 <= i < r@.len() ==> start <= (#[trigger] r@[i]).start && r@[i].start < r@[i].end
                    && r@[i].end <= end,
            forall|i: int, k: int|
                0 <= i < r@.len() && #[trigger] r@[i].spec_contains(k) ==> self.at(k) == Some(
                    r@[i].value,
                ),
            forall|i: int, j: int|
                0 <= i < j < r@.len() ==> (#[trigger] r@[i]).end <= (#[trigger] r@[j]).start,
            forall|k: int|
                start <= k < end && self.covers(k) ==> exists|i: int|
                    0 <= i < r@.len() && (#[trigger] r@[i]).spec_contains(k),
    {
        let mut r: Vec<RangeEntry<V>> = Vec::new();
        if start >= end {
            return r;
        }
        let mut idx = self.lower_bound(start);
        proof {
            assert forall|k: int|
                start <= k < end && self.covers(k) && self.index_of(k) < idx implies exists|i: int|
                0 <= i < r@.len() && (#[trigger] r@[i]).spec_contains(k) by {
                let j = self.index_of(k);
                assert(self.entries()[j].end <= start);
            }
        }
        while idx < self.items.len() && self.items[idx].start < end
            invariant
                self.wf(),
                idx <= self.entries().len(),
                forall|j: int|
                    idx <= j < self.entries().len() ==> (#[trigger] self.entries()[j]).end > start,
                forall|i: int|
                    0 <= i < r@.len() ==> start <= (#[trigger] r@[i]).start && r@[i].start
                        < r@[i].end && r@[i].end <= end,
                forall|i: int, k: int|
                    0 <= i < r@.len() && #[trigger] r@[i].spec_contains(k) ==> self.at(k) == Some(
                        r@[i].value,
                    ),
                forall|m: int, j: int|
                    0 <= m < r@.len() && idx <= j < self.entries().len() ==> (#[trigger] r@[
                    m]).end <= (#[trigger] self.entries()[j]).start,
                forall|i: int, j: int|
                    0 <= i < j < r@.len() ==> (#[trigger] r@[i]).end <= (#[trigger] r@[j]).start,
                start < end,
                forall|k: int|
                    start <= k < end && self.covers(k) && self.index_of(k) < idx ==> exists|i: int|
                        0 <= i < r@.len() && (#[trigger] r@[i]).spec_contains(k),
            decreases self.entries().len() - idx,
        {
            let e = self.items[idx];
            let cs = if e.start < start {
                start
            } else {
                e.start
            };
            let ce = if e.end > end {
                end
            } else {
                e.end
            };
            let ghost old_r = r@;
            r.push(RangeEntry { start: cs, end: ce, value: e.value });
            proof {
                assert forall|i: int, k: int|
                    0 <= i < r@.len() && #[trigger] r@[i].spec_contains(k) implies self.at(k)
                    == Some(r@[i].value) by {
                    if i == r@.len() - 1 {
                        self.lemma_at_entry(idx as int, k);
                    } else {
                        assert(old_r[i].spec_contains(k));
                    }
                }
                assert forall|k: int|
                    start <= k < end && self.covers(k) && self.index_of(k) < idx + 1 implies exists|
                    i: int|
                    0 <= i < r@.len() && (#[trigger] r@[i]).spec_contains(k) by {
                    let j = self.index_of(k);
                    if j == idx {
                        assert(r@[r@.len() - 1].spec_contains(k));
                    } else {
                        assert(exists|i: int|
                            0 <= i < old_r.len() && (#[trigger] old_r[i]).spec_contains(k));
                        let i = choose|i: int|
                            0 <= i < old_r.len() && (#[trigger] old_r[i]).spec_contains(k);
                        assert(r@[i].spec_contains(k));
                    }
                }
            }
            idx = idx + 1;
        }
        proof {
            assert forall|k: int| start <= k < end && self.covers(k) implies exists|i: int|
                0 <= i < r@.len() && (#[trigger] r@[i]).spec_contains(k) by {
                let j = self.index_of(k);
                assert(self.entries()[j].spec_contains(k));
                if j >= idx {
                    assert(idx < self.entries().len());
                    assert(self.entries()[idx as int].start >= end);
                    if j > idx {
                        assert(self.entries()[idx as int].end <= self.entries()[j].start);
                    }
                    assert(self.entries()[j].start >= end);
                }
            }
        }
        r
    }
}

/// Law: inserting a value over a range that bisects a stored entry splits the
/// entry in two with its prior value and overwrites the middle.  `m0` is a
/// map giving `v_prior` over all of `[a, b)`; `m1` is `m0` after an insert of
/// `v_new` over `[s, e)` with `a < s < e < b` (the relation between `m0` and
/// `m1` is exactly the contract of [`RangeMap::insert`]).  Afterwards the two
/// outer pieces `[a, s)` and `[e, b)` still carry `v_prior` and the middle
/// carries `v_new`.
pub proof fn lemma_insert_bisects<V: Copy>(
    m0: RangeMap<V>,
    m1: RangeMap<V>,
    a: u64,
    b: u64,
    s: u64,
    e: u64,
    v_prior: V,
    v_new: V,
)
    requires
        m0.wf(),
        m1.wf(),
        a < s < e < b,
        forall|k: int| a <= k < b ==> m0.at(k) == Some(v_prior),
        forall|k: int| s <= k < e ==> m1.at(k) == Some(v_new),
        forall|k: int| !(s <= k < e) ==> m1.at(k) == m0.at(k),
    ensures
        forall|k: int| a <= k < s ==> m1.at(k) == Some(v_prior),
        forall|k: int| s <= k < e ==> m1.at(k) == Some(v_new),
        forall|k: int| e <= k < b ==> m1.at(k) == Some(v_prior),
{
}

} // verus!
