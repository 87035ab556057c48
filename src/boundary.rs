//! The snapshot boundary of a scan, captured once per partition, and the
//! per-partition cursors that consume each partition up to it and no further.

use vstd::prelude::*;

verus! {

/// Offsets `earliest .. end` of one partition, as captured when the scan
/// starts; records at `end` and beyond arrived later and are never read.
#[derive(Clone, Copy, Debug, PartialEq, Eq, Structural)]
pub struct PartitionBoundary {
    pub earliest: i64,
    pub end: i64,
}

/// What to do with a record that the log handed out.
#[derive(Clone, Copy, Debug, PartialEq, Eq, Structural)]
pub enum ScanDecision {
    /// Fold it: it lies inside the boundary and past everything read so far.
    Consume,
    /// Drop it: it was read already or lies beyond the boundary.
    Skip,
}

/// Why a set of watermarks cannot serve as a boundary.
#[derive(Clone, Copy, Debug, PartialEq, Eq, Structural)]
pub enum BoundaryError {
    /// The end offset of this partition lies before its earliest offset.
    Inverted(i32),
    /// More partitions than partition ids.
    TooManyPartitions,
}

/// Whether `offset` is consumed by a cursor at `next` under `end`.
pub open spec fn consumes(next: i64, end: i64, offset: i64) -> bool {
    next <= offset < end
}

/// The cursor position after one record at `offset` was handed out.
pub open spec fn advance_one(next: i64, end: i64, offset: i64) -> i64 {
    if consumes(next, end, offset) {
        (offset + 1) as i64
    } else {
        next
    }
}

/// The cursor position after offsets `offsets` were handed out, in order.
pub open spec fn advance(next: i64, end: i64, offsets: Seq<i64>) -> i64
    decreases offsets.len(),
{
    if offsets.len() == 0 {
        next
    } else {
        advance_one(advance(next, end, offsets.drop_last()), end, offsets.last())
    }
}

/// The offsets consumed, in order, out of `offsets` handed out in order.
pub open spec fn consumed(next: i64, end: i64, offsets: Seq<i64>) -> Seq<i64>
    decreases offsets.len(),
{
    if offsets.len() == 0 {
        Seq::empty()
    } else {
        let before = consumed(next, end, offsets.drop_last());
        if consumes(advance(next, end, offsets.drop_last()), end, offsets.last()) {
            before.push(offsets.last())
        } else {
            before
        }
    }
}

/// Whatever the log hands out, later writes included, a cursor consumes
/// only offsets inside its boundary, each at most once, in strictly
/// increasing order.
pub proof fn lemma_consumed_within_boundary(b: PartitionBoundary, offsets: Seq<i64>)
    requires
        b.earliest <= b.end,
    ensures
        forall|i: int|
            0 <= i < consumed(b.earliest, b.end, offsets).len() ==> b.earliest <= #[trigger] consumed(
                b.earliest,
                b.end,
                offsets,
            )[i] < b.end,
        forall|i: int, j: int|
            0 <= i < j < consumed(b.earliest, b.end, offsets).len() ==> consumed(
                b.earliest,
                b.end,
                offsets,
            )[i] < consumed(b.earliest, b.end, offsets)[j],
        b.earliest <= advance(b.earliest, b.end, offsets) <= b.end,
        forall|i: int|
            0 <= i < consumed(b.earliest, b.end, offsets).len() ==> #[trigger] consumed(
                b.earliest,
                b.end,
                offsets,
            )[i] < advance(b.earliest, b.end, offsets),
    decreases offsets.len(),
{
    if offsets.len() > 0 {
        let init = offsets.drop_last();
        lemma_consumed_within_boundary(b, init);
        let before = consumed(b.earliest, b.end, init);
        let adv = advance(b.earliest, b.end, init);
        let now = consumed(b.earliest, b.end, offsets);
        if consumes(adv, b.end, offsets.last()) {
            assert(now == before.push(offsets.last()));
            assert forall|i: int| 0 <= i < before.len() implies #[trigger] now[i] == before[i] by {}
        } else {
            assert(now == before);
        }
    }
}

/// The read position of one partition within its boundary.
#[derive(Clone, Copy, Debug, PartialEq, Eq, Structural)]
pub struct PartitionCursor {
    pub boundary: PartitionBoundary,
    /// The smallest offset that may still be consumed.
    pub next: i64,
}

impl PartitionCursor {
    pub open spec fn wf(self) -> bool {
        self.boundary.earliest <= self.next <= self.boundary.end
    }

    /// A cursor at the start of `boundary`.
    pub fn new(boundary: PartitionBoundary) -> (c: PartitionCursor)
        requires
            boundary.earliest <= boundary.end,
        ensures
            c.wf(),
            c.boundary == boundary,
            c.next == boundary.earliest,
    {
        PartitionCursor { boundary, next: boundary.earliest }
    }

    /// Whether the whole boundary was read; at once for an empty partition.
    pub fn is_done(&self) -> (r: bool)
        ensures
            r == (self.next >= self.boundary.end),
    {
        self.next >= self.boundary.end
    }

    /// The last offset consumed, `None` before the first.
    pub fn last_consumed(&self) -> (r: Option<i64>)
        requires
            self.wf(),
        ensures
            r == (if self.next > self.boundary.earliest {
                Some((self.next - 1) as i64)
            } else {
                None
            }),
    {
        if self.next > self.boundary.earliest {
            Some(self.next - 1)
        } else {
            None
        }
    }

    /// Decides on a record at `offset`: it is consumed exactly when it lies
    /// at or after the cursor and before the boundary's end, and the cursor
    /// then moves past it.
    pub fn decide(&mut self, offset: i64) -> (d: ScanDecision)
        requires
            old(self).wf(),
        ensures
            final(self).wf(),
            final(self).boundary == old(self).boundary,
            (d == ScanDecision::Consume) == consumes(old(self).next, old(self).boundary.end, offset),
            final(self).next == advance_one(old(self).next, old(self).boundary.end, offset),
    {
        if self.next <= offset && offset < self.boundary.end {
            self.next = offset + 1;
            ScanDecision::Consume
        } else {
            ScanDecision::Skip
        }
    }
}

/// A cursor at the start of the `(earliest, end)` watermarks `w`.
pub open spec fn start_cursor(w: (i64, i64)) -> PartitionCursor {
    PartitionCursor { boundary: PartitionBoundary { earliest: w.0, end: w.1 }, next: w.0 }
}

/// The cursors of every partition of a topic; the cursor at index `p`
/// belongs to partition `p`.
pub struct ScanProgress {
    pub cursors: Vec<PartitionCursor>,
}

impl ScanProgress {
    pub open spec fn wf(&self) -> bool {
        &&& self.cursors@.len() <= i32::MAX
        &&& forall|i: int| 0 <= i < self.cursors@.len() ==> #[trigger] self.cursors@[i].wf()
    }

    /// Cursors at the start of each partition, from the `(earliest, end)`
    /// watermarks captured for partitions `0 .. watermarks.len()`. Fails on
    /// the first partition whose end lies before its earliest offset.
    pub fn from_watermarks(watermarks: &Vec<(i64, i64)>) -> (r: Result<ScanProgress, BoundaryError>)
        ensures
            watermarks@.len() > i32::MAX ==> r == Err::<ScanProgress, BoundaryError>(
                BoundaryError::TooManyPartitions,
            ),
            watermarks@.len() <= i32::MAX ==> match r {
                Ok(s) => {
                    &&& s.wf()
                    &&& s.cursors@.len() == watermarks@.len()
                    &&& forall|i: int|
                        0 <= i < watermarks@.len() ==> #[trigger] s.cursors@[i] == start_cursor(watermarks@[i])
                    &&& forall|i: int|
                        0 <= i < watermarks@.len() ==> watermarks@[i].0 <= watermarks@[i].1
                },
                Err(e) => exists|p: int|
                    0 <= p < watermarks@.len() && e == BoundaryError::Inverted(p as i32)
                        && watermarks@[p].1 < watermarks@[p].0 && forall|i: int|
                        0 <= i < p ==> watermarks@[i].0 <= #[trigger] watermarks@[i].1,
            },
    {
        if watermarks.len() > i32::MAX as usize {
            return Err(BoundaryError::TooManyPartitions);
        }
        let mut cursors: Vec<PartitionCursor> = Vec::new();
        let mut i: usize = 0;
        while i < watermarks.len()
            invariant
                i <= watermarks@.len() <= i32::MAX,
                cursors@.len() == i,
                forall|j: int|
                    0 <= j < i ==> #[trigger] cursors@[j] == start_cursor(watermarks@[j]),
                forall|j: int| 0 <= j < i ==> watermarks@[j].0 <= #[trigger] watermarks@[j].1,
            decreases watermarks@.len() - i,
        {
            let (earliest, end) = watermarks[i];
            if end < earliest {
                return Err(BoundaryError::Inverted(i as i32));
            }
            cursors.push(PartitionCursor::new(PartitionBoundary { earliest, end }));
            i = i + 1;
        }
        Ok(ScanProgress { cursors })
    }

    /// Decides on a record of `partition` at `offset`; a record of a
    /// partition outside the topic is skipped.
    pub fn decide(&mut self, partition: i32, offset: i64) -> (d: ScanDecision)
        requires
            old(self).wf(),
        ensures
            final(self).wf(),
            final(self).cursors@.len() == old(self).cursors@.len(),
            0 <= partition < old(self).cursors@.len() ==> {
                let c = old(self).cursors@[partition as int];
                &&& (d == ScanDecision::Consume) == consumes(c.next, c.boundary.end, offset)
                &&& final(self).cursors@ == old(self).cursors@.update(
                    partition as int,
                    PartitionCursor {
                        next: advance_one(c.next, c.boundary.end, offset),
                        ..c
                    },
                )
            },
            !(0 <= partition < old(self).cursors@.len()) ==> d == ScanDecision::Skip
                && final(self).cursors@ == old(self).cursors@,
    {
        if partition < 0 || partition as usize >= self.cursors.len() {
            return ScanDecision::Skip;
        }
        let p: usize = partition as usize;
        let mut c: PartitionCursor = self.cursors[p];
        assert(c.wf());
        let d = c.decide(offset);
        self.cursors.set(p, c);
        assert forall|i: int| 0 <= i < self.cursors@.len() implies #[trigger] self.cursors@[i].wf() by {
            if i != p {
                assert(self.cursors@[i] == old(self).cursors@[i]);
            }
        }
        d
    }

    /// Whether every partition was read up to its boundary.
    pub fn all_done(&self) -> (r: bool)
        ensures
            r == forall|i: int|
                0 <= i < self.cursors@.len() ==> #[trigger] self.cursors@[i].next
                    >= self.cursors@[i].boundary.end,
    {
        let mut i: usize = 0;
        while i < self.cursors.len()
            invariant
                i <= self.cursors@.len(),
                forall|j: int|
                    0 <= j < i ==> #[trigger] self.cursors@[j].next
                        >= self.cursors@[j].boundary.end,
            decreases self.cursors@.len() - i,
        {
            if !self.cursors[i].is_done() {
                return false;
            }
            i = i + 1;
        }
        true
    }
}

/// The last offset consumed by a cursor, `None` before the first.
pub open spec fn last_consumed_of(c: PartitionCursor) -> Option<i64> {
    if c.next > c.boundary.earliest {
        Some((c.next - 1) as i64)
    } else {
        None
    }
}

/// The partitions of `cs` not yet read up to their boundary, in order of
/// id, each with its last consumed offset.
pub open spec fn pending_of(cs: Seq<PartitionCursor>) -> Seq<(i32, Option<i64>)>
    decreases cs.len(),
{
    if cs.len() == 0 {
        Seq::empty()
    } else {
        let before = pending_of(cs.drop_last());
        if cs.last().next < cs.last().boundary.end {
            before.push(((cs.len() - 1) as i32, last_consumed_of(cs.last())))
        } else {
            before
        }
    }
}

impl ScanProgress {
    /// The partitions still being read, each with its last consumed offset:
    /// the context that a failed scan reports.
    pub fn pending(&self) -> (r: Vec<(i32, Option<i64>)>)
        requires
            self.wf(),
        ensures
            r@ == pending_of(self.cursors@),
    {
        let mut r: Vec<(i32, Option<i64>)> = Vec::new();
        let mut i: usize = 0;
        while i < self.cursors.len()
            invariant
                self.wf(),
                i <= self.cursors@.len(),
                r@ == pending_of(self.cursors@.subrange(0, i as int)),
            decreases self.cursors@.len() - i,
        {
            let c = self.cursors[i];
            proof {
                let sub = self.cursors@.subrange(0, i as int + 1);
                assert(sub.drop_last() =~= self.cursors@.subrange(0, i as int));
                assert(sub.last() == c);
            }
            if !c.is_done() {
                r.push((i as i32, c.last_consumed()));
            }
            i = i + 1;
        }
        assert(self.cursors@.subrange(0, self.cursors@.len() as int) =~= self.cursors@);
        r
    }
}

} // verus!
