//! Photo records and the two distances between them.
use vstd::prelude::*;

use crate::dbscan::{is_symmetric, matrix, self_neighbour, within};
use crate::timeline::{time_delta, GeoPoint, TimelinePoint};

verus! {

/// Seconds since the Unix epoch of an EXIF date-time tag read in the
/// `YYYY:MM:DD HH:MM:SS` layout, or `None` where chrono rejects the text.
pub uninterp spec fn exif_seconds(tag: Seq<char>) -> Option<i64>;

/// Relies on chrono's `NaiveDateTime::parse_from_str` with the format
/// `%Y:%m:%d %H:%M:%S`, then `and_utc().timestamp()`: the outcome depends on
/// the text alone.
#[verifier::external_body]
fn parse_exif_time(tag: &str) -> (r: Option<i64>)
    ensures
        r == exif_seconds(tag@),
{
    match chrono::NaiveDateTime::parse_from_str(tag, "%Y:%m:%d %H:%M:%S") {
        Ok(t) => Some(t.and_utc().timestamp()),
        Err(_) => None,
    }
}

/// What is known of one photo file.
#[derive(Clone, Debug)]
pub struct Photo {
    pub path: String,
    pub location_name: Option<String>,
    pub location: Option<GeoPoint>,
    /// Capture time, in seconds since the Unix epoch.
    pub time: Option<i64>,
}

/// The capture time of a date-time tag, where there is a tag.
pub open spec fn capture_time(tag: Option<Seq<char>>) -> Option<i64> {
    match tag {
        Some(s) => exif_seconds(s),
        None => None,
    }
}

impl Photo {
    /// A field-by-field copy.
    pub fn copy(&self) -> (r: Photo)
        ensures
            r == *self,
    {
        Photo {
            path: self.path.clone(),
            location_name: match &self.location_name {
                Some(n) => Some(n.clone()),
                None => None,
            },
            location: self.location,
            time: self.time,
        }
    }

    /// A record built from what the file's metadata holds: its position, and
    /// its date-time tag, which is parsed here. It has no place name yet.
    pub fn new(path: String, location: Option<GeoPoint>, date_time: Option<String>) -> (r: Photo)
        ensures
            r.path@ == path@,
            r.location_name.is_none(),
            r.location == location,
            r.time == capture_time(
                match date_time {
                    Some(s) => Some(s@),
                    None => None,
                },
            ),
    {
        let time = match &date_time {
            Some(s) => parse_exif_time(s.as_str()),
            None => None,
        };
        Photo { path, location_name: None, location, time }
    }

    /// Takes the position of a timeline sample.
    pub fn set_location(&mut self, location: TimelinePoint)
        ensures
            final(self).location == Some(location.position()),
            final(self).path == old(self).path,
            final(self).location_name == old(self).location_name,
            final(self).time == old(self).time,
    {
        self.location = Some(location.point());
    }

    /// Spatial distance to `other`, given the great-circle distance in whole
    /// meters (rounded up) between the two positions: maximal where either
    /// photo has no position.
    pub fn dist(&self, other: &Photo, great_circle_m: u64) -> (r: Distance)
        ensures
            r == spatial_distance(*self, *other, great_circle_m),
            (r is Maximal) == (self.location.is_none() || other.location.is_none()),
            r is Finite ==> r == Distance::Finite(great_circle_m),
    {
        if self.location.is_some() && other.location.is_some() {
            Distance::Finite(great_circle_m)
        } else {
            Distance::Maximal
        }
    }
}

/// A photo seen through its capture time only.
pub struct TimePhoto<'a>(pub &'a Photo);

impl<'a> TimePhoto<'a> {
    /// Temporal distance to `other`: maximal where either photo has no
    /// capture time.
    pub fn dist(&self, other: &TimePhoto) -> (r: Distance)
        ensures
            r == temporal_distance(*self.0, *other.0),
            (r is Maximal) == (self.0.time.is_none() || other.0.time.is_none()),
            r is Finite ==> r == Distance::Finite(time_delta(self.0.time.unwrap(), other.0.time.unwrap()) as u64),
    {
        time_distance(self.0, other.0)
    }
}

/// A distance between two photos; maximal where the attribute it is measured
/// on is missing from either, so that such photos are never neighbours.
#[derive(Clone, Copy, Debug, PartialEq, Eq, Structural)]
pub enum Distance {
    Finite(u64),
    Maximal,
}

impl Distance {
    /// Whether the distance is at most `eps`.
    pub open spec fn within(self, eps: u64) -> bool {
        match self {
            Distance::Finite(v) => v <= eps,
            Distance::Maximal => false,
        }
    }

    pub fn is_within(&self, eps: u64) -> (r: bool)
        ensures
            r == self.within(eps),
    {
        match self {
            Distance::Finite(v) => *v <= eps,
            Distance::Maximal => false,
        }
    }
}

pub open spec fn spatial_distance(a: Photo, b: Photo, great_circle_m: u64) -> Distance {
    if a.location.is_some() && b.location.is_some() {
        Distance::Finite(great_circle_m)
    } else {
        Distance::Maximal
    }
}

/// Absolute difference of the capture times, in seconds.
pub open spec fn temporal_distance(a: Photo, b: Photo) -> Distance {
    match (a.time, b.time) {
        (Some(x), Some(y)) => Distance::Finite(time_delta(x, y) as u64),
        _ => Distance::Maximal,
    }
}

/// Temporal distance between two photos.
pub fn time_distance(a: &Photo, b: &Photo) -> (r: Distance)
    ensures
        r == temporal_distance(*a, *b),
{
    match (a.time, b.time) {
        (Some(x), Some(y)) => {
            let d = if x >= y {
                (x as i128 - y as i128) as u64
            } else {
                (y as i128 - x as i128) as u64
            };
            Distance::Finite(d)
        },
        _ => Distance::Maximal,
    }
}

/// Spatial distances between all pairs of photos.
pub open spec fn spatial_matrix_of(photos: Seq<Photo>, great_circle_m: Seq<Seq<u64>>) -> Seq<Seq<Distance>> {
    Seq::new(
        photos.len(),
        |i: int| Seq::new(photos.len(), |j: int| spatial_distance(photos[i], photos[j], great_circle_m[i][j])),
    )
}

/// Temporal distances between all pairs of photos.
pub open spec fn temporal_matrix_of(photos: Seq<Photo>) -> Seq<Seq<Distance>> {
    Seq::new(photos.len(), |i: int| Seq::new(photos.len(), |j: int| temporal_distance(photos[i], photos[j])))
}

/// Great-circle distances as the caller measures them: one per pair, zero
/// from a point to itself, the same both ways.
pub open spec fn is_distance_table(great_circle_m: Seq<Seq<u64>>, n: int) -> bool {
    &&& great_circle_m.len() == n
    &&& forall|i: int| 0 <= i < n ==> (#[trigger] great_circle_m[i]).len() == n && great_circle_m[i][i] == 0
    &&& forall|i: int, j: int| 0 <= i < n && 0 <= j < n ==> #[trigger] great_circle_m[i][j] == great_circle_m[j][i]
}

/// A photo with a spatial neighbour has a position, hence is its own
/// neighbour; and the spatial distance is symmetric.
pub proof fn lemma_spatial_matrix(photos: Seq<Photo>, great_circle_m: Seq<Seq<u64>>, eps: u64)
    requires
        is_distance_table(great_circle_m, photos.len() as int),
    ensures
        self_neighbour(spatial_matrix_of(photos, great_circle_m), eps),
        is_symmetric(spatial_matrix_of(photos, great_circle_m)),
{
    let d = spatial_matrix_of(photos, great_circle_m);
    assert forall|i: int, j: int|
        0 <= i < d.len() && 0 <= j < d.len() && #[trigger] within(d, eps, i, j) implies within(d, eps, i, i) by {
        assert(great_circle_m[i][i] == 0);
    }
    assert forall|i: int, j: int| 0 <= i < d.len() && 0 <= j < d.len() implies #[trigger] d[i][j] == d[j][i] by {
        assert(great_circle_m[i][j] == great_circle_m[j][i]);
    }
}

/// A photo with a temporal neighbour has a capture time, hence is its own
/// neighbour; and the temporal distance is symmetric.
pub proof fn lemma_temporal_matrix(photos: Seq<Photo>, eps: u64)
    ensures
        self_neighbour(temporal_matrix_of(photos), eps),
        is_symmetric(temporal_matrix_of(photos)),
{
    let d = temporal_matrix_of(photos);
    assert forall|i: int, j: int|
        0 <= i < d.len() && 0 <= j < d.len() && #[trigger] within(d, eps, i, j) implies within(d, eps, i, i) by {
    }
    assert forall|i: int, j: int| 0 <= i < d.len() && 0 <= j < d.len() implies #[trigger] d[i][j] == d[j][i] by {
    }
}

/// Spatial distances between all pairs of photos, given the great-circle
/// distances in whole meters between their positions.
pub fn spatial_matrix(photos: &Vec<Photo>, great_circle_m: &Vec<Vec<u64>>) -> (r: Vec<Vec<Distance>>)
    requires
        great_circle_m.len() == photos.len(),
        forall|i: int| 0 <= i < photos.len() ==> #[trigger] great_circle_m@[i].len() == photos.len(),
    ensures
        r.len() == photos.len(),
        forall|i: int| 0 <= i < photos.len() ==> #[trigger] r@[i].len() == photos.len(),
        forall|i: int, j: int|
            0 <= i < photos.len() && 0 <= j < photos.len() ==> #[trigger] r@[i]@[j]
                == spatial_distance(photos@[i], photos@[j], great_circle_m@[i]@[j]),
        matrix(&r) == spatial_matrix_of(photos@, matrix(great_circle_m)),
{
    let n = photos.len();
    let mut r: Vec<Vec<Distance>> = Vec::new();
    for i in 0..n
        invariant
            n == photos.len(),
            great_circle_m.len() == n,
            forall|k: int| 0 <= k < n ==> #[trigger] great_circle_m@[k].len() == n,
            r.len() == i,
            forall|k: int| 0 <= k < i ==> #[trigger] r@[k].len() == n,
            forall|k: int, j: int|
                0 <= k < i && 0 <= j < n ==> #[trigger] r@[k]@[j]
                    == spatial_distance(photos@[k], photos@[j], great_circle_m@[k]@[j]),
    {
        let mut row: Vec<Distance> = Vec::new();
        for j in 0..n
            invariant
                n == photos.len(),
                great_circle_m.len() == n,
                great_circle_m@[i as int].len() == n,
                0 <= i < n,
                row.len() == j,
                forall|l: int| 0 <= l < j ==> #[trigger] row@[l]
                    == spatial_distance(photos@[i as int], photos@[l], great_circle_m@[i as int]@[l]),
        {
            row.push(photos[i].dist(&photos[j], great_circle_m[i][j]));
        }
        r.push(row);
    }
    let ghost m = spatial_matrix_of(photos@, matrix(great_circle_m));
    assert(r@.len() == n);
    assert(matrix(&r).len() == n);
    assert forall|i: int| 0 <= i < n implies #[trigger] matrix(&r)[i] =~= m[i] by {
        assert(r@[i].len() == n);
        assert(matrix(&r)[i] == r@[i]@);
        assert forall|j: int| 0 <= j < n implies matrix(&r)[i][j] == m[i][j] by {
            assert(r@[i]@[j] == spatial_distance(photos@[i], photos@[j], great_circle_m@[i]@[j]));
        }
    }
    assert(matrix(&r) =~= m);
    r
}

/// Temporal distances between all pairs of photos.
pub fn temporal_matrix(photos: &Vec<Photo>) -> (r: Vec<Vec<Distance>>)
    ensures
        r.len() == photos.len(),
        forall|i: int| 0 <= i < photos.len() ==> #[trigger] r@[i].len() == photos.len(),
        forall|i: int, j: int|
            0 <= i < photos.len() && 0 <= j < photos.len() ==> #[trigger] r@[i]@[j]
                == temporal_distance(photos@[i], photos@[j]),
        matrix(&r) == temporal_matrix_of(photos@),
{
    let n = photos.len();
    let mut r: Vec<Vec<Distance>> = Vec::new();
    for i in 0..n
        invariant
            n == photos.len(),
            r.len() == i,
            forall|k: int| 0 <= k < i ==> #[trigger] r@[k].len() == n,
            forall|k: int, j: int|
                0 <= k < i && 0 <= j < n ==> #[trigger] r@[k]@[j]
                    == temporal_distance(photos@[k], photos@[j]),
    {
        let mut row: Vec<Distance> = Vec::new();
        for j in 0..n
            invariant
                n == photos.len(),
                0 <= i < n,
                row.len() == j,
                forall|l: int| 0 <= l < j ==> #[trigger] row@[l]
                    == temporal_distance(photos@[i as int], photos@[l]),
        {
            let tp = TimePhoto(&photos[i]);
            row.push(tp.dist(&TimePhoto(&photos[j])));
        }
        r.push(row);
    }
    let ghost m = temporal_matrix_of(photos@);
    assert(r@.len() == n);
    assert(matrix(&r).len() == n);
    assert forall|i: int| 0 <= i < n implies #[trigger] matrix(&r)[i] =~= m[i] by {
        assert(r@[i].len() == n);
        assert(matrix(&r)[i] == r@[i]@);
        assert forall|j: int| 0 <= j < n implies matrix(&r)[i][j] == m[i][j] by {
            assert(r@[i]@[j] == temporal_distance(photos@[i], photos@[j]));
        }
    }
    assert(matrix(&r) =~= m);
    r
}

} // verus!
