//! The location timeline and its nearest-in-time query.
use vstd::prelude::*;

verus! {

/// A position as fixed-point degrees: the angle times ten million.
#[derive(Clone, Copy, Debug, PartialEq, Eq, Structural)]
pub struct GeoPoint {
    pub longitude_e7: i32,
    pub latitude_e7: i32,
}

/// One recorded sample of the device's location.
#[derive(Clone, Copy, Debug, PartialEq, Eq, Structural)]
pub struct TimelinePoint {
    /// Seconds since the Unix epoch.
    pub timestamp: i64,
    pub longitude_e7: i32,
    pub latitude_e7: i32,
    /// Accuracy of the sample in meters.
    pub accuracy: i32,
}

impl TimelinePoint {
    pub open spec fn position(self) -> GeoPoint {
        GeoPoint { longitude_e7: self.longitude_e7, latitude_e7: self.latitude_e7 }
    }

    /// The sample's coordinates.
    pub fn point(&self) -> (r: GeoPoint)
        ensures
            r == self.position(),
    {
        GeoPoint { longitude_e7: self.longitude_e7, latitude_e7: self.latitude_e7 }
    }
}

/// Absolute difference of two timestamps.
pub open spec fn time_delta(a: i64, b: i64) -> nat {
    if a >= b {
        (a - b) as nat
    } else {
        (b - a) as nat
    }
}

/// The timeline is ordered by timestamp, oldest first.
pub open spec fn is_sorted(points: Seq<TimelinePoint>) -> bool {
    forall|i: int, j: int| 0 <= i <= j < points.len() ==> points[i].timestamp <= points[j].timestamp
}

/// Index `r` holds the sample closest in time to `t`, and no earlier sample
/// is as close.
pub open spec fn is_closest(points: Seq<TimelinePoint>, t: i64, r: int) -> bool {
    &&& 0 <= r < points.len()
    &&& forall|j: int|
        0 <= j < points.len() ==> time_delta(points[j].timestamp, t) >= time_delta(
            points[r].timestamp,
            t,
        )
    &&& forall|j: int|
        0 <= j < r ==> time_delta(points[j].timestamp, t) > time_delta(points[r].timestamp, t)
}

/// The first index whose timestamp is at least `t`, or the length when there
/// is none.
fn lower_bound(points: &Vec<TimelinePoint>, t: i64) -> (r: usize)
    requires
        is_sorted(points@),
    ensures
        r <= points.len(),
        forall|j: int| 0 <= j < r ==> points@[j].timestamp < t,
        forall|j: int| r <= j < points.len() ==> points@[j].timestamp >= t,
{
    let mut lo: usize = 0;
    let mut hi: usize = points.len();
    while lo < hi
        invariant
            lo <= hi <= points.len(),
            is_sorted(points@),
            forall|j: int| 0 <= j < lo ==> points@[j].timestamp < t,
            forall|j: int| hi <= j < points.len() ==> points@[j].timestamp >= t,
        decreases hi - lo,
    {
        let mid = lo + (hi - lo) / 2;
        if points[mid].timestamp < t {
            lo = mid + 1;
        } else {
            hi = mid;
        }
    }
    lo
}

/// Index of the sample closest in time to `t`; of equally close samples the
/// earliest one.
pub fn closest_index(points: &Vec<TimelinePoint>, t: i64) -> (r: usize)
    requires
        points.len() > 0,
        is_sorted(points@),
    ensures
        is_closest(points@, t, r as int),
{
    let hi = lower_bound(points, t);
    if hi == 0 {
        return 0;
    }
    let lo = lower_bound(points, points[hi - 1].timestamp);
    assert(points@[lo as int].timestamp == points@[hi - 1].timestamp);
    if hi == points.len() {
        return lo;
    }
    let before = t as i128 - points[lo].timestamp as i128;
    let after = points[hi].timestamp as i128 - t as i128;
    if before <= after {
        lo
    } else {
        hi
    }
}

/// The sample closest in time to `t`; of equally close samples the earliest
/// one. The timeline must not be empty.
pub fn find_closest(points: &Vec<TimelinePoint>, t: i64) -> (r: TimelinePoint)
    requires
        points.len() > 0,
        is_sorted(points@),
    ensures
        exists|i: int| is_closest(points@, t, i) && points@[i] == r,
{
    let i = closest_index(points, t);
    points[i]
}

} // verus!
