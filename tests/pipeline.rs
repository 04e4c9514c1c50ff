use photos_rs::dbscan::{dbscan, Clustering};
use photos_rs::enrich::{apply_place, name_clusters, BoundingBox, LookupRequest, Place};
use photos_rs::model::{cluster_tree, ClusterLabel, Msg, ViewMsg, Win, EVENT_MIN_PHOTOS, EVENT_RADIUS_S, PLACE_MIN_PHOTOS, PLACE_RADIUS_M};
use photos_rs::photo::{time_distance, Distance, Photo, TimePhoto};
use photos_rs::queue::{LookupQueue, PollStatus, TickOutcome};
use photos_rs::timeline::{closest_index, find_closest, GeoPoint, TimelinePoint};

fn sample(t: i64, lon: i32, lat: i32) -> TimelinePoint {
    TimelinePoint { timestamp: t, longitude_e7: lon, latitude_e7: lat, accuracy: 10 }
}

fn photo(path: &str, location: Option<(i32, i32)>, time: Option<i64>) -> Photo {
    Photo {
        path: path.to_string(),
        location_name: None,
        location: location.map(|(lon, lat)| GeoPoint { longitude_e7: lon, latitude_e7: lat }),
        time,
    }
}

/// A symmetric table with a zero diagonal from the upper triangle.
fn table(n: usize, upper: &[(usize, usize, u64)], default: u64) -> Vec<Vec<u64>> {
    let mut t = vec![vec![default; n]; n];
    for i in 0..n {
        t[i][i] = 0;
    }
    for &(i, j, m) in upper {
        t[i][j] = m;
        t[j][i] = m;
    }
    t
}

fn members(c: &Clustering) -> Vec<Vec<usize>> {
    c.clusters.clone()
}

#[test]
fn closest_sample_before_query() {
    let mut win = Win::new();
    win.model.locations = vec![sample(0, 0, 0), sample(100, 10_000_000, 10_000_000)];
    win.model.photos = vec![photo("a.jpg", None, Some(40))];
    win.update_locations();
    assert_eq!(win.model.photos[0].location, Some(GeoPoint { longitude_e7: 0, latitude_e7: 0 }));
}

#[test]
fn closest_ties_go_to_the_earlier_sample() {
    let tl = vec![sample(0, 1, 1), sample(100, 2, 2)];
    assert_eq!(closest_index(&tl, 50), 0);
    assert_eq!(closest_index(&tl, 51), 1);
    let dup = vec![sample(0, 1, 1), sample(10, 2, 2), sample(10, 3, 3), sample(30, 4, 4)];
    assert_eq!(closest_index(&dup, 12), 1);
    assert_eq!(closest_index(&dup, 100), 3);
    assert_eq!(closest_index(&dup, -5), 0);
    assert_eq!(find_closest(&dup, 21), sample(30, 4, 4));
}

#[test]
fn closest_is_the_global_minimum() {
    let tl: Vec<TimelinePoint> = (0..50).map(|i| sample(i * i * 7, i as i32, 0)).collect();
    for q in [-100i64, 0, 3, 500, 1234, 9999, 17150, 20000] {
        let r = closest_index(&tl, q);
        let best = (tl[r].timestamp - q).abs();
        for (j, p) in tl.iter().enumerate() {
            let dj = (p.timestamp - q).abs();
            assert!(dj >= best);
            if j < r {
                assert!(dj > best);
            }
        }
    }
}

#[test]
fn geotagging_leaves_located_and_undated_photos() {
    let mut win = Win::new();
    win.model.locations = vec![sample(0, 5, 5), sample(100, 6, 6)];
    win.model.photos = vec![photo("a", Some((1, 1)), Some(90)), photo("b", None, None), photo("c", None, Some(90))];
    win.update_locations();
    assert_eq!(win.model.photos[0].location, Some(GeoPoint { longitude_e7: 1, latitude_e7: 1 }));
    assert_eq!(win.model.photos[1].location, None);
    assert_eq!(win.model.photos[2].location, Some(GeoPoint { longitude_e7: 6, latitude_e7: 6 }));
}

#[test]
fn geotagging_with_an_empty_timeline_changes_nothing() {
    let mut win = Win::new();
    win.model.photos = vec![photo("a", None, Some(90))];
    win.update_locations();
    assert_eq!(win.model.photos[0].location, None);
}

#[test]
fn distances_are_maximal_when_an_attribute_is_missing() {
    let a = photo("a", Some((0, 0)), Some(100));
    let b = photo("b", Some((1, 1)), Some(40));
    let c = photo("c", None, None);
    assert_eq!(a.dist(&b, 157), Distance::Finite(157));
    assert_eq!(a.dist(&c, 157), Distance::Maximal);
    assert_eq!(c.dist(&a, 157), Distance::Maximal);
    assert_eq!(TimePhoto(&a).dist(&TimePhoto(&b)), Distance::Finite(60));
    assert_eq!(TimePhoto(&b).dist(&TimePhoto(&a)), Distance::Finite(60));
    assert_eq!(TimePhoto(&a).dist(&TimePhoto(&c)), Distance::Maximal);
    assert_eq!(time_distance(&c, &c), Distance::Maximal);
    let far = photo("f", None, Some(i64::MIN));
    let late = photo("l", None, Some(i64::MAX));
    assert_eq!(time_distance(&far, &late), Distance::Finite(u64::MAX));
}

#[test]
fn capture_time_is_parsed_from_the_tag() {
    let p = Photo::new("x.jpg".to_string(), None, Some("2017:04:10 05:25:19".to_string()));
    assert_eq!(p.time, Some(1491801919));
    assert_eq!(p.location_name, None);
    let q = Photo::new("y.jpg".to_string(), Some(GeoPoint { longitude_e7: 3, latitude_e7: 4 }), Some("2017-04-10".to_string()));
    assert_eq!(q.time, None);
    assert_eq!(q.location, Some(GeoPoint { longitude_e7: 3, latitude_e7: 4 }));
    let r = Photo::new("z.jpg".to_string(), None, None);
    assert_eq!(r.time, None);
}

#[test]
fn set_location_takes_the_sample_position() {
    let mut p = photo("a", None, Some(5));
    p.set_location(sample(7, 11, -12));
    assert_eq!(p.location, Some(GeoPoint { longitude_e7: 11, latitude_e7: -12 }));
    assert_eq!(p.time, Some(5));
}

#[test]
fn three_close_photos_and_one_far() {
    let mut win = Win::new();
    win.model.photos = vec![
        photo("a", Some((0, 0)), None),
        photo("b", Some((1, 0)), None),
        photo("c", Some((0, 1)), None),
        photo("d", Some((900, 900)), None),
    ];
    let t = table(4, &[(0, 1, 30), (0, 2, 40), (1, 2, 50), (0, 3, 5000), (1, 3, 5000), (2, 3, 5000)], 0);
    let (c, lookups) = win.cluster_location(&t);
    assert_eq!(members(&c), vec![vec![0, 1, 2]]);
    assert_eq!(c.labels[3], None);
    assert_eq!(c.seeds, vec![0]);
    assert_eq!(lookups.len(), 1);
    assert_eq!(lookups[0].request, LookupRequest { cluster: 0, point: GeoPoint { longitude_e7: 0, latitude_e7: 0 } });
    assert_eq!(win.lookups.len(), 1);
}

#[test]
fn photos_without_position_are_never_clustered() {
    let mut win = Win::new();
    win.model.photos = vec![photo("a", None, None), photo("b", None, None), photo("c", None, None)];
    let t = table(3, &[], 0);
    let (c, lookups) = win.cluster_location(&t);
    assert!(c.clusters.is_empty());
    assert_eq!(c.labels, vec![None, None, None]);
    assert!(lookups.is_empty());
}

#[test]
fn one_lookup_names_two_clusters() {
    let mut win = Win::new();
    win.model.photos = vec![
        photo("a", Some((0, 0)), None),
        photo("b", Some((10, 0)), None),
        photo("c", Some((0, 10)), None),
        photo("d", Some((200_000, 0)), None),
        photo("e", Some((200_010, 0)), None),
        photo("f", Some((200_000, 10)), None),
        photo("g", Some((90_000_000, 0)), None),
    ];
    let near = [(0, 1, 10), (0, 2, 10), (1, 2, 10), (3, 4, 10), (3, 5, 10), (4, 5, 10)];
    let t = table(7, &near, 2000);
    let (c, lookups) = win.cluster_location(&t);
    assert_eq!(members(&c), vec![vec![0, 1, 2], vec![3, 4, 5]]);
    assert_eq!(lookups.len(), 2);
    assert_eq!(win.lookups.front().map(|l| l.id), Some(lookups[0].id));
    let place = Place {
        name: "Old Town".to_string(),
        bbox: BoundingBox { min_longitude_e7: -5, max_longitude_e7: 300_000, min_latitude_e7: -5, max_latitude_e7: 50 },
    };
    let out = win.tick(PollStatus::Done(Some(place)));
    assert!(matches!(out, TickOutcome::Completed(l, Some(_)) if l.id == lookups[0].id));
    for i in 0..6 {
        assert_eq!(win.model.photos[i].location_name.as_deref(), Some("Old Town"));
    }
    assert_eq!(win.model.photos[6].location_name, None);
    assert_eq!(win.lookups.len(), 1);
}

#[test]
fn an_existing_name_spreads_without_lookup() {
    let mut photos = vec![photo("a", Some((0, 0)), None), photo("b", Some((1, 0)), None), photo("c", Some((2, 0)), None)];
    photos[1].location_name = Some("Harbour".to_string());
    photos[2].location_name = Some("Pier".to_string());
    let clusters = vec![vec![0, 1, 2]];
    let lookups = name_clusters(&mut photos, &clusters);
    assert!(lookups.is_empty());
    assert_eq!(photos[0].location_name.as_deref(), Some("Harbour"));
    assert_eq!(photos[1].location_name.as_deref(), Some("Harbour"));
    assert_eq!(photos[2].location_name.as_deref(), Some("Pier"));
}

#[test]
fn unnamed_cluster_asks_at_its_first_member() {
    let mut photos = vec![photo("a", Some((4, 4)), None), photo("b", Some((7, 0)), None), photo("c", None, None)];
    let clusters = vec![vec![1, 0], vec![2]];
    let lookups = name_clusters(&mut photos, &clusters);
    assert_eq!(lookups, vec![LookupRequest { cluster: 0, point: GeoPoint { longitude_e7: 7, latitude_e7: 0 } }]);
}

#[test]
fn place_names_only_photos_inside_its_box() {
    let mut photos = vec![photo("a", Some((5, 5)), None), photo("b", Some((11, 5)), None), photo("c", None, None)];
    let place = Place {
        name: "Park".to_string(),
        bbox: BoundingBox { min_longitude_e7: 0, max_longitude_e7: 10, min_latitude_e7: 0, max_latitude_e7: 10 },
    };
    apply_place(&mut photos, &place);
    assert_eq!(photos[0].location_name.as_deref(), Some("Park"));
    assert_eq!(photos[1].location_name, None);
    assert_eq!(photos[2].location_name, None);
}

#[test]
fn failed_lookup_changes_nothing() {
    let mut win = Win::new();
    win.model.photos = vec![photo("a", Some((0, 0)), None)];
    win.lookups.enqueue(LookupRequest { cluster: 0, point: GeoPoint { longitude_e7: 0, latitude_e7: 0 } });
    let out = win.tick(PollStatus::Done(None));
    assert!(matches!(out, TickOutcome::Completed(_, None)));
    assert_eq!(win.model.photos[0].location_name, None);
    assert_eq!(win.lookups.len(), 0);
}

#[test]
fn one_tick_polls_one_lookup() {
    let mut q = LookupQueue::new();
    let a = q.enqueue(LookupRequest { cluster: 0, point: GeoPoint { longitude_e7: 1, latitude_e7: 1 } });
    let b = q.enqueue(LookupRequest { cluster: 1, point: GeoPoint { longitude_e7: 2, latitude_e7: 2 } });
    assert_ne!(a, b);
    assert_eq!(q.front().map(|l| l.id), Some(a));
    let out = q.tick(PollStatus::Pending);
    assert!(matches!(out, TickOutcome::Requeued(l) if l.id == a));
    assert_eq!(q.len(), 2);
    assert_eq!(q.front().map(|l| l.id), Some(b));
    let out = q.tick(PollStatus::Pending);
    assert!(matches!(out, TickOutcome::Requeued(l) if l.id == b));
    assert_eq!(q.front().map(|l| l.id), Some(a));
}

#[test]
fn tick_on_an_empty_queue_is_idle() {
    let mut q = LookupQueue::new();
    assert!(matches!(q.tick(PollStatus::Pending), TickOutcome::Idle));
    assert_eq!(q.len(), 0);
}

#[test]
fn border_point_joins_the_first_cluster_only() {
    // 0..=3 and 5..=8 are two groups of core points; 4 is a border point of both.
    let n = 9;
    let mut d = vec![vec![Distance::Maximal; n]; n];
    let mut link = |i: usize, j: usize| {
        d[i][j] = Distance::Finite(1);
        d[j][i] = Distance::Finite(1);
    };
    for i in 0..n {
        link(i, i);
    }
    for &(i, j) in &[(0, 1), (0, 2), (0, 3), (1, 2), (1, 3), (2, 3), (3, 4), (4, 5), (5, 6), (5, 7), (5, 8), (6, 7), (6, 8), (7, 8)] {
        link(i, j);
    }
    let c = dbscan(&d, 1, 4);
    assert_eq!(c.clusters, vec![vec![0, 1, 2, 3, 4], vec![5, 6, 7, 8]]);
    assert_eq!(c.seeds, vec![0, 5]);
    let again = dbscan(&d, 1, 4);
    assert_eq!(again.labels, c.labels);
    assert_eq!(again.clusters, c.clusters);
}

#[test]
fn chains_of_core_points_make_one_cluster() {
    let n = 6;
    let mut d = vec![vec![Distance::Maximal; n]; n];
    for i in 0..n {
        for j in 0..n {
            let gap = (i as i64 - j as i64).unsigned_abs();
            d[i][j] = Distance::Finite(gap * 10);
        }
    }
    let c = dbscan(&d, 10, 3);
    assert_eq!(c.clusters, vec![vec![0, 1, 2, 3, 4, 5]]);
    let c = dbscan(&d, 9, 2);
    assert!(c.clusters.is_empty());
    assert_eq!(c.labels, vec![None; n]);
}

#[test]
fn events_need_ten_photos_within_ten_minutes() {
    let mut win = Win::new();
    let mut photos: Vec<Photo> = (0..10).map(|i| photo("e", None, Some(1000 + i * 60))).collect();
    photos.push(photo("late", None, Some(1000 + 9 * 60 + 601)));
    photos.push(photo("undated", None, None));
    win.model.photos = photos;
    let c = win.cluster_time();
    assert_eq!(c.clusters, vec![(0..10).collect::<Vec<usize>>()]);
    assert_eq!(c.labels[10], None);
    assert_eq!(c.labels[11], None);
    assert_eq!(EVENT_RADIUS_S, 600);
    assert_eq!(EVENT_MIN_PHOTOS, 10);
    assert_eq!(PLACE_RADIUS_M, 1000);
    assert_eq!(PLACE_MIN_PHOTOS, 3);
    win.model.photos.pop();
    win.model.photos.pop();
    win.model.photos.pop();
    assert!(win.cluster_time().clusters.is_empty());
}

#[test]
fn messages_compare_by_variant() {
    assert_eq!(Msg::Quit, Msg::Quit);
    assert_ne!(Msg::JsonDialog, Msg::FolderDialog);
    assert_ne!(Msg::AboutDialog, Msg::Quit);
}

#[test]
fn cluster_rows_use_a_name_or_the_first_position() {
    let mut photos = vec![
        photo("a", Some((1, 2)), None),
        photo("b", Some((3, 4)), None),
        photo("c", None, None),
        photo("d", Some((5, 6)), None),
    ];
    photos[3].location_name = Some("Bay".to_string());
    let clusters = vec![vec![1, 0], vec![2], vec![0, 3]];
    let rows = cluster_tree(&photos, &clusters);
    assert_eq!(rows.len(), 3);
    assert!(matches!(rows[0].label, ClusterLabel::Coordinates(p) if p == GeoPoint { longitude_e7: 3, latitude_e7: 4 }));
    assert_eq!(rows[0].paths, vec!["b".to_string(), "a".to_string()]);
    assert!(matches!(rows[1].label, ClusterLabel::Unplaced));
    assert!(matches!(&rows[2].label, ClusterLabel::Name(n) if n == "Bay"));
    let msg = ViewMsg::UpdateView(rows);
    assert!(matches!(msg, ViewMsg::UpdateView(r) if r.len() == 3));
}
