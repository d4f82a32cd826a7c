//! Sample points along one segment of a polyline.
//!
//! A short segment is sampled at its two ends. A long one is cut into a
//! number of subdivisions and gets one fewer midpoints than subdivisions
//! besides its ends: the first half of them by bisecting again and again
//! towards the start, the others by bisecting again and again towards the end.
//! This approximates an even division of the arc; it is not one.
//!
//! Midpoints on the sphere need floating-point arithmetic, so the sampler
//! only says which two points to bisect next and takes the midpoint back.

use crate::float_order::float_lt;
use crate::types::{F64Wrapper, HashablePoint};
use vstd::prelude::*;

verus! {

/// The bit pattern of 15.0: a segment is long when its geodesic length
/// exceeds this many units.
pub const LENGTH_THRESHOLD_BITS: u64 = 0x402e_0000_0000_0000;

/// The bit pattern of 5.0: the length of a long segment, divided by this and
/// rounded up, is its number of subdivisions.
pub const INTERVAL_FACTOR_BITS: u64 = 0x4014_0000_0000_0000;

/// Whether a segment of the given geodesic length is long.
pub open spec fn is_long(length: F64Wrapper) -> bool {
    float_lt(LENGTH_THRESHOLD_BITS, length.0)
}

/// The number of midpoints that a segment with `intervals` subdivisions gets.
pub open spec fn wanted_midpoints(intervals: nat) -> nat {
    if intervals == 0 {
        0
    } else {
        (intervals - 1) as nat
    }
}

/// The two points to bisect after the midpoints `mids` have been taken, or
/// nothing when the segment has all its midpoints.
///
/// The first `intervals / 2` midpoints lie between the start and the midpoint
/// before (the first one between start and end); the others between the
/// midpoint before and the end (the first of them between start and end
/// again).
pub open spec fn bisection(
    start: HashablePoint,
    end: HashablePoint,
    intervals: nat,
    mids: Seq<HashablePoint>,
) -> Option<(HashablePoint, HashablePoint)> {
    let taken = mids.len();
    if taken >= wanted_midpoints(intervals) {
        None
    } else if taken < intervals / 2 {
        Some((start, if taken == 0 { end } else { mids[taken - 1] }))
    } else {
        Some((if taken == intervals / 2 { start } else { mids[taken - 1] }, end))
    }
}

/// Whether a segment of the given geodesic length is long: longer than 15
/// units. A length that is not a number is not long.
pub fn exceeds_length_threshold(length: &F64Wrapper) -> (long: bool)
    ensures
        long == is_long(*length),
{
    F64Wrapper(LENGTH_THRESHOLD_BITS).less_than(length)
}

/// The samples of one segment while they are taken.
pub struct SegmentSampler {
    start: HashablePoint,
    end: HashablePoint,
    length: F64Wrapper,
    intervals: usize,
    points: Vec<HashablePoint>,
}

impl SegmentSampler {
    /// The start of the segment.
    pub closed spec fn start(&self) -> HashablePoint {
        self.start
    }

    /// The end of the segment.
    pub closed spec fn end(&self) -> HashablePoint {
        self.end
    }

    /// The geodesic length of the segment.
    pub closed spec fn length(&self) -> F64Wrapper {
        self.length
    }

    /// The number of subdivisions: none for a short segment.
    pub closed spec fn intervals(&self) -> nat {
        self.intervals as nat
    }

    /// The samples taken so far: start, end, then the midpoints in the order
    /// in which they were taken.
    pub closed spec fn points(&self) -> Seq<HashablePoint> {
        self.points@
    }

    /// The midpoints taken so far.
    pub open spec fn midpoints(&self) -> Seq<HashablePoint> {
        self.points().skip(2)
    }

    /// The two points to bisect next, if a midpoint is still missing.
    pub open spec fn pending(&self) -> Option<(HashablePoint, HashablePoint)> {
        bisection(self.start(), self.end(), self.intervals(), self.midpoints())
    }

    /// The samples begin with the two ends, no more midpoints were taken than
    /// the segment gets, and the segment has subdivisions, at least two of
    /// them, exactly when it is long.
    pub open spec fn wf(&self) -> bool {
        &&& if is_long(self.length()) {
            self.intervals() >= 2
        } else {
            self.intervals() == 0
        }
        &&& self.points().len() >= 2
        &&& self.points()[0] == self.start()
        &&& self.points()[1] == self.end()
        &&& self.midpoints().len() <= wanted_midpoints(self.intervals())
    }

    /// A sampler for the segment from `start` to `end`, whose geodesic length
    /// is `length`; `subdivisions` is that length divided by the interval
    /// factor and rounded up, which for a long segment is at least four. A
    /// segment that is not long has no subdivisions, whatever `subdivisions`
    /// says.
    pub fn new(
        start: HashablePoint,
        end: HashablePoint,
        length: F64Wrapper,
        subdivisions: usize,
    ) -> (sampler: SegmentSampler)
        requires
            is_long(length) ==> subdivisions >= 2,
        ensures
            sampler.wf(),
            sampler.start() == start,
            sampler.end() == end,
            sampler.length() == length,
            sampler.intervals() == if is_long(length) {
                subdivisions as nat
            } else {
                0
            },
            sampler.points() == seq![start, end],
    {
        let intervals: usize = if exceeds_length_threshold(&length) {
            subdivisions
        } else {
            0
        };
        let mut points: Vec<HashablePoint> = Vec::new();
        points.push(start);
        points.push(end);
        assert(points@ =~= seq![start, end]);
        SegmentSampler { start, end, length, intervals, points }
    }

    /// The two points whose midpoint is the next sample, or nothing when the
    /// segment has all its samples.
    pub fn next_bisection(&self) -> (next: Option<(HashablePoint, HashablePoint)>)
        requires
            self.wf(),
        ensures
            next == self.pending(),
    {
        let taken: usize = self.points.len() - 2;
        let last: usize = self.points.len() - 1;
        if self.intervals == 0 || taken >= self.intervals - 1 {
            None
        } else if taken < self.intervals / 2 {
            if taken == 0 {
                Some((self.start, self.end))
            } else {
                Some((self.start, self.points[last]))
            }
        } else if taken == self.intervals / 2 {
            Some((self.start, self.end))
        } else {
            Some((self.points[last], self.end))
        }
    }

    /// Takes `mid`, the midpoint of the two points that [`Self::next_bisection`]
    /// gave, as the next sample.
    pub fn record(&mut self, mid: HashablePoint)
        requires
            old(self).wf(),
            old(self).pending() is Some,
        ensures
            final(self).wf(),
            final(self).start() == old(self).start(),
            final(self).end() == old(self).end(),
            final(self).length() == old(self).length(),
            final(self).intervals() == old(self).intervals(),
            final(self).points() == old(self).points().push(mid),
    {
        self.points.push(mid);
    }

    /// The samples: start, end, then the midpoints in the order in which they
    /// were taken.
    pub fn into_points(self) -> (points: Vec<HashablePoint>)
        ensures
            points@ == self.points(),
    {
        self.points
    }
}

/// A segment that is not longer than the threshold has exactly its two ends
/// as samples. A longer one has more than two samples once it has them all:
/// one more than it has subdivisions, the first two of which are its ends.
pub proof fn lemma_sampling_endpoints(sampler: SegmentSampler)
    requires
        sampler.wf(),
        sampler.pending() is None,
    ensures
        sampler.points()[0] == sampler.start(),
        sampler.points()[1] == sampler.end(),
        !is_long(sampler.length()) ==> sampler.points() == seq![sampler.start(), sampler.end()],
        is_long(sampler.length()) ==> sampler.points().len() > 2 && sampler.points().len()
            == sampler.intervals() + 1,
{
    if !is_long(sampler.length()) {
        assert(sampler.points() =~= seq![sampler.start(), sampler.end()]);
    }
}

} // verus!
