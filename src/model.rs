//! The state behind the main window and the passes run over it: geotagging
//! from the timeline, clustering by place and by time, and naming places.
use vstd::prelude::*;

use crate::dbscan::{dbscan, is_clustering, lemma_clustering_facts, lists_cluster, matrix, Clustering};
use crate::enrich::{
    apply_place,
    disjoint_clusters,
    find_named,
    first_named,
    lemma_first_named_found,
    in_place,
    lookups_upto,
    name_clusters,
    same_but_name,
    shared_name,
    unclustered,
};
use crate::photo::{
    is_distance_table,
    lemma_spatial_matrix,
    lemma_temporal_matrix,
    spatial_matrix,
    spatial_matrix_of,
    temporal_matrix,
    temporal_matrix_of,
    Photo,
};
use crate::queue::{tick_result, Lookup, LookupQueue, PollStatus, TickOutcome};
use crate::timeline::{find_closest, is_closest, is_sorted, GeoPoint, TimelinePoint};

verus! {

/// Radius of a place cluster, in meters.
pub const PLACE_RADIUS_M: u64 = 1000;

/// Photos, itself included, that a photo needs within the radius to anchor a
/// place cluster.
pub const PLACE_MIN_PHOTOS: usize = 3;

/// Radius of an event cluster, in seconds.
pub const EVENT_RADIUS_S: u64 = 600;

/// Photos, itself included, that a photo needs within the radius to anchor an
/// event cluster.
pub const EVENT_MIN_PHOTOS: usize = 10;

/// What the user asked for through the window's menus.
#[derive(Clone, Copy, Debug, PartialEq, Eq, Structural)]
pub enum Msg {
    JsonDialog,
    FolderDialog,
    AboutDialog,
    Quit,
}

/// How a cluster is shown: by a member's place name, else by its first
/// member's position.
#[derive(Clone, Debug)]
pub enum ClusterLabel {
    Name(String),
    Coordinates(GeoPoint),
    Unplaced,
}

/// One cluster as shown: its label and the paths of its members.
#[derive(Clone, Debug)]
pub struct ClusterRow {
    pub label: ClusterLabel,
    pub paths: Vec<String>,
}

/// What the cluster list of the window is told.
#[derive(Clone, Debug)]
pub enum ViewMsg {
    UpdateView(Vec<ClusterRow>),
}

/// The label of a cluster with members `members`.
pub open spec fn label_of(photos: Seq<Photo>, members: Seq<usize>) -> ClusterLabel {
    match first_named(photos, members) {
        Some(m) => ClusterLabel::Name(photos[members[m] as int].location_name.unwrap()),
        None => if members.len() > 0 && photos[members[0] as int].location.is_some() {
            ClusterLabel::Coordinates(photos[members[0] as int].location.unwrap())
        } else {
            ClusterLabel::Unplaced
        },
    }
}

/// The rows that show `clusters`: one per cluster, in order, each labelled
/// and listing its members' paths in order.
pub fn cluster_tree(photos: &Vec<Photo>, clusters: &Vec<Vec<usize>>) -> (r: Vec<ClusterRow>)
    requires
        forall|c: int, m: int|
            0 <= c < clusters@.len() && 0 <= m < clusters@[c]@.len() ==> #[trigger] clusters@[c]@[m] < photos.len(),
    ensures
        r@.len() == clusters@.len(),
        forall|c: int|
            0 <= c < r@.len() ==> (#[trigger] r@[c]).label == label_of(photos@, clusters@[c]@) && r@[c].paths@.len()
                == clusters@[c]@.len() && forall|m: int|
                0 <= m < clusters@[c]@.len() ==> #[trigger] r@[c].paths@[m] == photos@[clusters@[c]@[m] as int].path,
{
    let mut rows: Vec<ClusterRow> = Vec::new();
    for c in 0..clusters.len()
        invariant
            forall|c: int, m: int|
                0 <= c < clusters@.len() && 0 <= m < clusters@[c]@.len() ==> #[trigger] clusters@[c]@[m] < photos.len(),
            rows@.len() == c,
            forall|cc: int|
                0 <= cc < c ==> (#[trigger] rows@[cc]).label == label_of(photos@, clusters@[cc]@) && rows@[cc].paths@.len()
                    == clusters@[cc]@.len() && forall|m: int|
                    0 <= m < clusters@[cc]@.len() ==> #[trigger] rows@[cc].paths@[m] == photos@[clusters@[cc]@[m] as int].path,
    {
        let members = &clusters[c];
        proof {
            assert forall|m: int| 0 <= m < members@.len() implies #[trigger] members@[m] < photos.len() by {
                assert(clusters@[c as int]@[m] == members@[m]);
            }
            lemma_first_named_found(photos@, members@, members@.len() as int);
        }
        let label = match find_named(photos, members) {
            Some(m) => match &photos[members[m]].location_name {
                Some(name) => ClusterLabel::Name(name.clone()),
                None => ClusterLabel::Unplaced,
            },
            None => {
                if members.len() > 0 && photos[members[0]].location.is_some() {
                    match photos[members[0]].location {
                        Some(p) => ClusterLabel::Coordinates(p),
                        None => ClusterLabel::Unplaced,
                    }
                } else {
                    ClusterLabel::Unplaced
                }
            },
        };
        let mut paths: Vec<String> = Vec::new();
        for m in 0..members.len()
            invariant
                forall|l: int| 0 <= l < members@.len() ==> #[trigger] members@[l] < photos.len(),
                paths@.len() == m,
                forall|l: int| 0 <= l < m ==> #[trigger] paths@[l] == photos@[members@[l] as int].path,
        {
            paths.push(photos[members[m]].path.clone());
        }
        let ghost before = rows@;
        rows.push(ClusterRow { label, paths });
        proof {
            assert(rows@[c as int].label == label_of(photos@, clusters@[c as int]@));
            assert forall|cc: int| 0 <= cc < c implies #[trigger] rows@[cc] == before[cc] by {}
        }
    }
    rows
}

/// The location timeline, oldest sample first, and the photo collection.
pub struct Model {
    pub locations: Vec<TimelinePoint>,
    pub photos: Vec<Photo>,
}

/// The window's state: its model and the lookups it waits for.
pub struct Win {
    pub model: Model,
    pub lookups: LookupQueue,
}

/// `q` is what geotagging makes of `p`: a photo with a capture time and no
/// position takes the position of the timeline sample closest in time.
pub open spec fn geotagged(locations: Seq<TimelinePoint>, p: Photo, q: Photo) -> bool {
    if p.location.is_none() && p.time.is_some() && locations.len() > 0 {
        &&& same_but_location(p, q)
        &&& exists|j: int|
            is_closest(locations, p.time.unwrap(), j) && q.location == Some(
                #[trigger] locations[j].position(),
            )
    } else {
        q == p
    }
}

/// Only the positions may differ.
pub open spec fn same_but_location(a: Photo, b: Photo) -> bool {
    a.path == b.path && a.location_name == b.location_name && a.time == b.time
}

impl Win {
    /// A window with no timeline, no photos and no lookups.
    pub fn new() -> (r: Win)
        ensures
            r.model.locations@.len() == 0,
            r.model.photos@.len() == 0,
            r.lookups@.len() == 0,
    {
        Win { model: Model { locations: Vec::new(), photos: Vec::new() }, lookups: LookupQueue::new() }
    }

    /// Gives each photo that has a capture time but no position the position
    /// of the timeline sample closest in time (no interpolation). Photos with
    /// a position, or without a capture time, are left as they are, and so
    /// is everything when the timeline is empty.
    pub fn update_locations(&mut self)
        requires
            is_sorted(old(self).model.locations@),
        ensures
            final(self).model.locations == old(self).model.locations,
            final(self).model.photos.len() == old(self).model.photos.len(),
            forall|i: int|
                0 <= i < old(self).model.photos.len() ==> geotagged(
                    old(self).model.locations@,
                    old(self).model.photos@[i],
                    #[trigger] final(self).model.photos@[i],
                ),
            final(self).lookups == old(self).lookups,
    {
        let ghost p0 = self.model.photos@;
        let n = self.model.photos.len();
        for i in 0..n
            invariant
                n == p0.len(),
                is_sorted(self.model.locations@),
                self.model.locations == old(self).model.locations,
                self.lookups == old(self).lookups,
                self.model.photos@.len() == n,
                forall|j: int| 0 <= j < i ==> geotagged(self.model.locations@, p0[j], #[trigger] self.model.photos@[j]),
                forall|j: int| i <= j < n ==> #[trigger] self.model.photos@[j] == p0[j],
        {
            if self.model.photos[i].location.is_none() && self.model.locations.len() > 0 {
                if let Some(t) = self.model.photos[i].time {
                    let closest = find_closest(&self.model.locations, t);
                    let mut ph = self.model.photos[i].copy();
                    ph.set_location(closest);
                    self.model.photos.set(i, ph);
                }
            }
        }
    }

    /// Clusters the photos by place and names the clusters. `great_circle_m`
    /// gives the great-circle distance in whole meters, rounded up, between
    /// the positions of each pair of photos (any value where either has
    /// none). The lookups that unnamed clusters need join the queue, and are
    /// returned so that they can be dispatched.
    pub fn cluster_location(&mut self, great_circle_m: &Vec<Vec<u64>>) -> (r: (Clustering, Vec<Lookup>))
        requires
            is_distance_table(matrix(great_circle_m), old(self).model.photos.len() as int),
        ensures
            is_clustering(
                spatial_matrix_of(old(self).model.photos@, matrix(great_circle_m)),
                PLACE_RADIUS_M,
                PLACE_MIN_PHOTOS,
                r.0.labels@,
                r.0.seeds@,
            ),
            r.0.clusters.len() == r.0.seeds.len(),
            forall|k: int| 0 <= k < r.0.clusters.len() ==> lists_cluster(#[trigger] r.0.clusters@[k]@, r.0.labels@, k),
            final(self).model.locations == old(self).model.locations,
            final(self).model.photos.len() == old(self).model.photos.len(),
            forall|i: int|
                0 <= i < old(self).model.photos.len() ==> same_but_name(
                    #[trigger] final(self).model.photos@[i],
                    old(self).model.photos@[i],
                ),
            forall|c: int, m: int|
                0 <= c < r.0.clusters.len() && 0 <= m < r.0.clusters@[c]@.len()
                    ==> #[trigger] final(self).model.photos@[r.0.clusters@[c]@[m] as int].location_name
                    == shared_name(old(self).model.photos@, r.0.clusters@[c]@, r.0.clusters@[c]@[m] as int),
            forall|i: int|
                0 <= i < old(self).model.photos.len() && unclustered(r.0.clusters@, i)
                    ==> #[trigger] final(self).model.photos@[i] == old(self).model.photos@[i],
            r.1@.len() == lookups_upto(old(self).model.photos@, r.0.clusters@, r.0.clusters.len() as int).len(),
            forall|t: int|
                0 <= t < r.1@.len() ==> (#[trigger] r.1@[t]).request == lookups_upto(
                    old(self).model.photos@,
                    r.0.clusters@,
                    r.0.clusters.len() as int,
                )[t],
            final(self).lookups@ == old(self).lookups@ + r.1@,
    {
        proof {
            assert forall|i: int| 0 <= i < great_circle_m@.len() implies #[trigger] great_circle_m@[i].len()
                == self.model.photos.len() by {
                assert(matrix(great_circle_m)[i] == great_circle_m@[i]@);
            }
        }
        let d = spatial_matrix(&self.model.photos, great_circle_m);
        proof {
            lemma_spatial_matrix(self.model.photos@, matrix(great_circle_m), PLACE_RADIUS_M);
        }
        let clustering = dbscan(&d, PLACE_RADIUS_M, PLACE_MIN_PHOTOS);
        proof {
            lemma_clustering_facts(matrix(&d), PLACE_RADIUS_M, PLACE_MIN_PHOTOS, clustering.labels@, clustering.seeds@);
            lemma_clusters_disjoint(clustering.clusters@, clustering.labels@);
        }
        let requests = name_clusters(&mut self.model.photos, &clustering.clusters);
        let dispatched = self.lookups.enqueue_all(&requests);
        (clustering, dispatched)
    }

    /// Clusters the photos by capture time into events.
    pub fn cluster_time(&self) -> (r: Clustering)
        ensures
            is_clustering(temporal_matrix_of(self.model.photos@), EVENT_RADIUS_S, EVENT_MIN_PHOTOS, r.labels@, r.seeds@),
            r.clusters.len() == r.seeds.len(),
            forall|k: int| 0 <= k < r.clusters.len() ==> lists_cluster(#[trigger] r.clusters@[k]@, r.labels@, k),
    {
        let d = temporal_matrix(&self.model.photos);
        proof {
            lemma_temporal_matrix(self.model.photos@, EVENT_RADIUS_S);
        }
        dbscan(&d, EVENT_RADIUS_S, EVENT_MIN_PHOTOS)
    }

    /// One tick of the lookup queue, given what polling its front lookup
    /// found. A lookup that finished with a place names every photo inside
    /// the place's bounding box; a failed one changes nothing.
    pub fn tick(&mut self, status: PollStatus) -> (r: TickOutcome)
        ensures
            tick_result(old(self).lookups@, status, final(self).lookups@, r),
            final(self).model.locations == old(self).model.locations,
            final(self).model.photos.len() == old(self).model.photos.len(),
            forall|i: int|
                0 <= i < old(self).model.photos.len() ==> same_but_name(
                    #[trigger] final(self).model.photos@[i],
                    old(self).model.photos@[i],
                ) && final(self).model.photos@[i].location_name == match r {
                    TickOutcome::Completed(_, Some(place)) => if in_place(place, old(self).model.photos@[i]) {
                        Some(place.name)
                    } else {
                        old(self).model.photos@[i].location_name
                    },
                    _ => old(self).model.photos@[i].location_name,
                },
    {
        let r = self.lookups.tick(status);
        if let TickOutcome::Completed(_, Some(place)) = &r {
            apply_place(&mut self.model.photos, place);
        }
        r
    }
}

/// The clusters of a clustering hold valid, distinct indices.
proof fn lemma_clusters_disjoint(clusters: Seq<Vec<usize>>, labels: Seq<Option<usize>>)
    requires
        clusters.len() <= usize::MAX,
        forall|k: int| 0 <= k < clusters.len() ==> lists_cluster(#[trigger] clusters[k]@, labels, k),
    ensures
        disjoint_clusters(clusters, labels.len() as int),
{
    assert forall|c1: int, m1: int, c2: int, m2: int|
        0 <= c1 < clusters.len() && 0 <= m1 < clusters[c1]@.len() && 0 <= c2 < clusters.len() && 0 <= m2
            < clusters[c2]@.len() && #[trigger] clusters[c1]@[m1] == #[trigger] clusters[c2]@[m2] implies c1 == c2
            && m1 == m2 by {
        assert(lists_cluster(clusters[c1]@, labels, c1));
        assert(lists_cluster(clusters[c2]@, labels, c2));
        assert(labels[clusters[c1]@[m1] as int] == Some(c1 as usize));
        assert(labels[clusters[c2]@[m2] as int] == Some(c2 as usize));
        assert(c1 == c2);
        if m1 < m2 {
            assert(clusters[c1]@[m1] < clusters[c1]@[m2]);
        } else if m2 < m1 {
            assert(clusters[c2]@[m2] < clusters[c2]@[m1]);
        }
    }
    assert forall|c: int, m: int| 0 <= c < clusters.len() && 0 <= m < clusters[c]@.len() implies #[trigger] clusters[c]@[m]
        < labels.len() by {
        assert(lists_cluster(clusters[c]@, labels, c));
    }
}

} // verus!
