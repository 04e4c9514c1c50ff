//! Naming of place clusters: names spread inside a cluster, unnamed clusters
//! ask for a reverse geocoding lookup, and a lookup's answer names every
//! photo inside its bounding box.
use vstd::prelude::*;

use crate::photo::Photo;
use crate::timeline::GeoPoint;

verus! {

/// A region in fixed-point degrees (angle times ten million), bounds
/// included.
#[derive(Clone, Copy, Debug, PartialEq, Eq, Structural)]
pub struct BoundingBox {
    pub min_longitude_e7: i32,
    pub max_longitude_e7: i32,
    pub min_latitude_e7: i32,
    pub max_latitude_e7: i32,
}

impl BoundingBox {
    pub open spec fn holds(self, p: GeoPoint) -> bool {
        &&& self.min_longitude_e7 <= p.longitude_e7 <= self.max_longitude_e7
        &&& self.min_latitude_e7 <= p.latitude_e7 <= self.max_latitude_e7
    }

    /// Whether `p` lies inside the box.
    pub fn contains(&self, p: &GeoPoint) -> (r: bool)
        ensures
            r == self.holds(*p),
    {
        self.min_longitude_e7 <= p.longitude_e7 && p.longitude_e7 <= self.max_longitude_e7
            && self.min_latitude_e7 <= p.latitude_e7 && p.latitude_e7 <= self.max_latitude_e7
    }
}

/// The answer of a reverse geocoding lookup: a place name and the region it
/// covers.
#[derive(Clone, Debug)]
pub struct Place {
    pub name: String,
    pub bbox: BoundingBox,
}

/// A lookup asked for cluster `cluster`, at its representative point.
#[derive(Clone, Copy, Debug, PartialEq, Eq, Structural)]
pub struct LookupRequest {
    pub cluster: usize,
    pub point: GeoPoint,
}

/// Clusters hold valid indices, and no index is in two places.
pub open spec fn disjoint_clusters(clusters: Seq<Vec<usize>>, n: int) -> bool {
    &&& forall|c: int, m: int|
        0 <= c < clusters.len() && 0 <= m < clusters[c]@.len() ==> #[trigger] clusters[c]@[m] < n
    &&& forall|c1: int, m1: int, c2: int, m2: int|
        0 <= c1 < clusters.len() && 0 <= m1 < clusters[c1]@.len() && 0 <= c2 < clusters.len() && 0
            <= m2 < clusters[c2]@.len() && #[trigger] clusters[c1]@[m1] == #[trigger] clusters[c2]@[m2]
            ==> c1 == c2 && m1 == m2
}

/// Position of the first of the first `k` members that has a place name.
pub open spec fn first_named_upto(photos: Seq<Photo>, members: Seq<usize>, k: int) -> Option<int>
    decreases k,
{
    if k <= 0 {
        None
    } else {
        match first_named_upto(photos, members, k - 1) {
            Some(m) => Some(m),
            None => if photos[members[k - 1] as int].location_name.is_some() {
                Some(k - 1)
            } else {
                None
            },
        }
    }
}

/// Position of the first member that has a place name.
pub open spec fn first_named(photos: Seq<Photo>, members: Seq<usize>) -> Option<int> {
    first_named_upto(photos, members, members.len() as int)
}

/// The lookup that cluster `c` asks for: one at its first member's position
/// when no member has a name and that member has a position.
pub open spec fn lookup_of(photos: Seq<Photo>, clusters: Seq<Vec<usize>>, c: int) -> Seq<LookupRequest> {
    let members = clusters[c]@;
    if members.len() > 0 && first_named(photos, members).is_none() && photos[members[0] as int].location.is_some() {
        seq![LookupRequest { cluster: c as usize, point: photos[members[0] as int].location.unwrap() }]
    } else {
        seq![]
    }
}

/// The lookups that the first `upto` clusters ask for, in cluster order.
pub open spec fn lookups_upto(photos: Seq<Photo>, clusters: Seq<Vec<usize>>, upto: int) -> Seq<LookupRequest>
    decreases upto,
{
    if upto <= 0 {
        seq![]
    } else {
        lookups_upto(photos, clusters, upto - 1) + lookup_of(photos, clusters, upto - 1)
    }
}

/// The name photo `i` has once its cluster's first name is shared.
pub open spec fn shared_name(photos: Seq<Photo>, members: Seq<usize>, i: int) -> Option<String> {
    match first_named(photos, members) {
        Some(m) => if photos[i].location_name.is_some() {
            photos[i].location_name
        } else {
            photos[members[m] as int].location_name
        },
        None => photos[i].location_name,
    }
}

/// Only the place names may differ.
pub open spec fn same_but_name(a: Photo, b: Photo) -> bool {
    a.path == b.path && a.location == b.location && a.time == b.time
}

/// `i` is a member of no cluster.
pub open spec fn unclustered(clusters: Seq<Vec<usize>>, i: int) -> bool {
    forall|c: int, m: int|
        0 <= c < clusters.len() && 0 <= m < clusters[c]@.len() ==> #[trigger] clusters[c]@[m] != i
}

proof fn lemma_first_named_agree(xs: Seq<Photo>, ys: Seq<Photo>, members: Seq<usize>, k: int)
    requires
        0 <= k <= members.len(),
        forall|m: int| 0 <= m < members.len() ==> #[trigger] xs[members[m] as int] == ys[members[m] as int],
    ensures
        first_named_upto(xs, members, k) == first_named_upto(ys, members, k),
    decreases k,
{
    if k > 0 {
        lemma_first_named_agree(xs, ys, members, k - 1);
        assert(xs[members[k - 1] as int] == ys[members[k - 1] as int]);
    }
}

pub(crate) proof fn lemma_first_named_found(photos: Seq<Photo>, members: Seq<usize>, k: int)
    requires
        0 <= k <= members.len(),
    ensures
        first_named_upto(photos, members, k) matches Some(m) ==> 0 <= m < k && photos[members[m] as int].location_name.is_some(),
    decreases k,
{
    if k > 0 {
        lemma_first_named_found(photos, members, k - 1);
    }
}

/// Position in `members` of the first member with a place name.
pub fn find_named(photos: &Vec<Photo>, members: &Vec<usize>) -> (r: Option<usize>)
    requires
        forall|m: int| 0 <= m < members@.len() ==> #[trigger] members@[m] < photos.len(),
    ensures
        r.is_some() == first_named(photos@, members@).is_some(),
        r.is_some() ==> r.unwrap() as int == first_named(photos@, members@).unwrap() && r.unwrap()
            < members.len(),
{
    for m in 0..members.len()
        invariant
            forall|l: int| 0 <= l < members@.len() ==> #[trigger] members@[l] < photos.len(),
            first_named_upto(photos@, members@, m as int).is_none(),
    {
        if photos[members[m]].location_name.is_some() {
            proof {
                assert(first_named_upto(photos@, members@, m + 1) == Some(m as int));
                lemma_first_named_stays(photos@, members@, m + 1, members@.len() as int);
            }
            return Some(m);
        }
    }
    None
}

proof fn lemma_first_named_stays(photos: Seq<Photo>, members: Seq<usize>, k: int, l: int)
    requires
        0 <= k <= l,
        first_named_upto(photos, members, k).is_some(),
    ensures
        first_named_upto(photos, members, l) == first_named_upto(photos, members, k),
    decreases l - k,
{
    if l > k {
        lemma_first_named_stays(photos, members, k, l - 1);
    }
}

/// Gives `name` to each of `members` that has no place name.
fn share_name(photos: &mut Vec<Photo>, members: &Vec<usize>, name: &String)
    requires
        forall|m: int| 0 <= m < members@.len() ==> #[trigger] members@[m] < old(photos).len(),
    ensures
        final(photos).len() == old(photos).len(),
        forall|i: int| 0 <= i < old(photos).len() ==> same_but_name(#[trigger] final(photos)@[i], old(photos)@[i]),
        forall|m: int|
            0 <= m < members@.len() ==> #[trigger] final(photos)@[members@[m] as int].location_name == if old(
                photos,
            )@[members@[m] as int].location_name.is_some() {
                old(photos)@[members@[m] as int].location_name
            } else {
                Some(*name)
            },
        forall|i: int|
            0 <= i < old(photos).len() && (forall|m: int| 0 <= m < members@.len() ==> #[trigger] members@[m] != i)
                ==> #[trigger] final(photos)@[i] == old(photos)@[i],
{
    let ghost p0 = photos@;
    for m in 0..members.len()
        invariant
            forall|l: int| 0 <= l < members@.len() ==> #[trigger] members@[l] < p0.len(),
            photos@.len() == p0.len(),
            forall|i: int| 0 <= i < p0.len() ==> same_but_name(#[trigger] photos@[i], p0[i]),
            forall|i: int|
                0 <= i < p0.len() ==> (#[trigger] photos@[i]).location_name == if p0[i].location_name.is_some() {
                    p0[i].location_name
                } else if exists|l: int| 0 <= l < m && #[trigger] members@[l] == i {
                    Some(*name)
                } else {
                    p0[i].location_name
                },
            forall|i: int|
                0 <= i < p0.len() && (forall|l: int| 0 <= l < m ==> #[trigger] members@[l] != i)
                    ==> #[trigger] photos@[i] == p0[i],
    {
        let i = members[m];
        if photos[i].location_name.is_none() {
            let ph = Photo {
                path: photos[i].path.clone(),
                location_name: Some(name.clone()),
                location: photos[i].location,
                time: photos[i].time,
            };
            photos.set(i, ph);
        }
        proof {
            assert forall|j: int|
                0 <= j < p0.len() implies (#[trigger] photos@[j]).location_name == if p0[j].location_name.is_some() {
                    p0[j].location_name
                } else if exists|l: int| 0 <= l < m + 1 && #[trigger] members@[l] == j {
                    Some(*name)
                } else {
                    p0[j].location_name
                } by {
                if j == i as int {
                    assert(members@[m as int] == j);
                }
            }
        }
    }
    proof {
        assert forall|l: int| 0 <= l < members@.len() implies #[trigger] photos@[members@[l] as int].location_name
            == if p0[members@[l] as int].location_name.is_some() {
            p0[members@[l] as int].location_name
        } else {
            Some(*name)
        } by {
            let i = members@[l] as int;
            assert(photos@[i].location_name == if p0[i].location_name.is_some() {
                p0[i].location_name
            } else if exists|l2: int| 0 <= l2 < members@.len() && #[trigger] members@[l2] == i {
                Some(*name)
            } else {
                p0[i].location_name
            });
        }
    }
}


/// Shares names inside each cluster and collects the lookups that unnamed
/// clusters need. Where a member of a cluster has a place name, the first
/// such name goes to every member that lacks one, and the cluster asks for
/// no lookup; otherwise the cluster asks for one lookup at its first
/// member's position, where that member has one.
pub fn name_clusters(photos: &mut Vec<Photo>, clusters: &Vec<Vec<usize>>) -> (r: Vec<LookupRequest>)
    requires
        disjoint_clusters(clusters@, old(photos).len() as int),
    ensures
        final(photos).len() == old(photos).len(),
        r@ == lookups_upto(old(photos)@, clusters@, clusters.len() as int),
        forall|i: int| 0 <= i < old(photos).len() ==> same_but_name(#[trigger] final(photos)@[i], old(photos)@[i]),
        forall|c: int, m: int|
            0 <= c < clusters.len() && 0 <= m < clusters@[c]@.len()
                ==> #[trigger] final(photos)@[clusters@[c]@[m] as int].location_name == shared_name(
                old(photos)@,
                clusters@[c]@,
                clusters@[c]@[m] as int,
            ),
        forall|i: int|
            0 <= i < old(photos).len() && unclustered(clusters@, i) ==> #[trigger] final(photos)@[i] == old(photos)@[i],
{
    let ghost p0 = photos@;
    let mut requests: Vec<LookupRequest> = Vec::new();
    for c in 0..clusters.len()
        invariant
            disjoint_clusters(clusters@, p0.len() as int),
            photos@.len() == p0.len(),
            requests@ == lookups_upto(p0, clusters@, c as int),
            forall|i: int| 0 <= i < p0.len() ==> same_but_name(#[trigger] photos@[i], p0[i]),
            forall|cc: int, m: int|
                0 <= cc < c && 0 <= m < clusters@[cc]@.len()
                    ==> #[trigger] photos@[clusters@[cc]@[m] as int].location_name == shared_name(
                    p0,
                    clusters@[cc]@,
                    clusters@[cc]@[m] as int,
                ),
            forall|cc: int, m: int|
                c <= cc < clusters.len() && 0 <= m < clusters@[cc]@.len()
                    ==> #[trigger] photos@[clusters@[cc]@[m] as int] == p0[clusters@[cc]@[m] as int],
            forall|i: int| 0 <= i < p0.len() && unclustered(clusters@, i) ==> #[trigger] photos@[i] == p0[i],
    {
        let members = &clusters[c];
        let ghost pc = photos@;
        let ghost ms = members@;
        proof {
            assert forall|m: int| 0 <= m < ms.len() implies #[trigger] pc[ms[m] as int] == p0[ms[m] as int] by {
                assert(photos@[clusters@[c as int]@[m] as int] == p0[clusters@[c as int]@[m] as int]);
            }
            lemma_first_named_agree(pc, p0, ms, ms.len() as int);
        }
        match find_named(photos, members) {
            Some(first) => {
                proof {
                    lemma_first_named_found(pc, ms, ms.len() as int);
                }
                let name = match &photos[members[first]].location_name {
                    Some(x) => x.clone(),
                    None => String::new(),
                };
                share_name(photos, members, &name);
            },
            None => {
                if members.len() > 0 {
                    if let Some(point) = photos[members[0]].location {
                        requests.push(LookupRequest { cluster: c, point });
                    }
                }
            },
        }
        proof {
            assert(lookup_of(p0, clusters@, c as int) == lookup_of(pc, clusters@, c as int));
            assert(lookups_upto(p0, clusters@, c + 1) == lookups_upto(p0, clusters@, c as int) + lookup_of(
                p0,
                clusters@,
                c as int,
            ));
            assert forall|cc: int, m: int|
                0 <= cc < c + 1 && 0 <= m < clusters@[cc]@.len()
                    implies #[trigger] photos@[clusters@[cc]@[m] as int].location_name == shared_name(
                    p0,
                    clusters@[cc]@,
                    clusters@[cc]@[m] as int,
                ) by {
                let i = clusters@[cc]@[m] as int;
                if cc < c {
                    assert forall|l: int| 0 <= l < ms.len() implies #[trigger] ms[l] != i by {
                        assert(clusters@[c as int]@[l] == ms[l]);
                    }
                    assert(photos@[i] == pc[i]);
                } else {
                    assert(ms[m] == i);
                    assert(pc[i] == p0[i]);
                }
            }
            assert forall|cc: int, m: int|
                c + 1 <= cc < clusters.len() && 0 <= m < clusters@[cc]@.len()
                    implies #[trigger] photos@[clusters@[cc]@[m] as int] == p0[clusters@[cc]@[m] as int] by {
                let i = clusters@[cc]@[m] as int;
                assert forall|l: int| 0 <= l < ms.len() implies #[trigger] ms[l] != i by {
                    assert(clusters@[c as int]@[l] == ms[l]);
                }
                assert(photos@[i] == pc[i]);
            }
            assert forall|i: int| 0 <= i < p0.len() && unclustered(clusters@, i) implies #[trigger] photos@[i] == p0[i] by {
                assert forall|l: int| 0 <= l < ms.len() implies #[trigger] ms[l] != i by {
                    assert(clusters@[c as int]@[l] == ms[l]);
                }
                assert(photos@[i] == pc[i]);
            }
        }
    }
    requests
}

/// The photo has a position inside the place's bounding box.
pub open spec fn in_place(place: Place, photo: Photo) -> bool {
    match photo.location {
        Some(p) => place.bbox.holds(p),
        None => false,
    }
}

/// Gives the place's name to every photo whose position lies inside the
/// place's bounding box, in the whole collection.
pub fn apply_place(photos: &mut Vec<Photo>, place: &Place)
    ensures
        final(photos).len() == old(photos).len(),
        forall|i: int|
            0 <= i < old(photos).len() ==> same_but_name(#[trigger] final(photos)@[i], old(photos)@[i])
                && final(photos)@[i].location_name == if in_place(*place, old(photos)@[i]) {
                Some(place.name)
            } else {
                old(photos)@[i].location_name
            },
{
    let ghost p0 = photos@;
    let n = photos.len();
    for i in 0..n
        invariant
            n == p0.len(),
            photos@.len() == p0.len(),
            forall|j: int|
                0 <= j < p0.len() ==> same_but_name(#[trigger] photos@[j], p0[j]) && photos@[j].location_name == if j
                    < i && in_place(*place, p0[j]) {
                    Some(place.name)
                } else {
                    p0[j].location_name
                },
    {
        let inside = match &photos[i].location {
            Some(p) => place.bbox.contains(p),
            None => false,
        };
        if inside {
            let ph = Photo {
                path: photos[i].path.clone(),
                location_name: Some(place.name.clone()),
                location: photos[i].location,
                time: photos[i].time,
            };
            photos.set(i, ph);
        }
    }
}

} // verus!
