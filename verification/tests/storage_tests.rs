use pixel_agent::strmap::StrMap;
use pixel_agent::web_storage::{WebMetricSeriesSnapshot, WebMetricStorage, WebMetricStorageSnapshot, MetricPoint};

fn one_tag(k: &str, v: &str) -> StrMap {
    let mut m = StrMap::new();
    m.insert(k.to_string(), v.to_string());
    m
}

#[test]
fn test_insert_and_query() {
    let mut storage = WebMetricStorage::new(1000, 86400);
    let tags = one_tag("page", "/home");

    storage.insert("web.visits.page".to_string(), tags.clone_map(), 1, 1000);
    storage.insert("web.visits.page".to_string(), tags.clone_map(), 2, 2000);

    assert_eq!(storage.query_sum("web.visits.page", &StrMap::new(), 0, 3000), 3);
    assert_eq!(storage.query_sum("web.visits.page", &tags, 0, 3000), 3);
}

#[test]
fn test_top() {
    let mut storage = WebMetricStorage::new(1000, 86400);

    let t1 = one_tag("page", "/a");
    let t2 = one_tag("page", "/b");

    storage.insert("web.visits.page".to_string(), t1, 2, 1000);
    storage.insert("web.visits.page".to_string(), t2, 5, 1000);

    let top = storage.query_top("web.visits.page", "page", 0, 2000, 10);
    assert_eq!(top.len(), 2);
    assert_eq!(top[0].0, "/b");
}

#[test]
fn top_orders_by_total_and_truncates() {
    let mut storage = WebMetricStorage::new(1000, 86400);
    storage.insert("m".to_string(), one_tag("page", "/a"), 2, 1000);
    storage.insert("m".to_string(), one_tag("page", "/b"), 5, 1000);
    storage.insert("m".to_string(), one_tag("page", "/c"), 3, 1000);
    storage.insert("m".to_string(), one_tag("page", "/a"), 4, 1500);
    let top = storage.query_top("m", "page", 0, 2000, 2);
    assert_eq!(top.len(), 2);
    assert_eq!(top[0], ("/a".to_string(), 6));
    assert_eq!(top[1], ("/b".to_string(), 5));
    assert!(storage.query_top("other", "page", 0, 2000, 10).is_empty());
    assert!(storage.query_top("m", "host", 0, 2000, 10).is_empty());
}

#[test]
fn insert_at_same_time_overwrites() {
    let mut storage = WebMetricStorage::new(1000, 86400);
    let tags = one_tag("page", "/home");
    storage.insert("m".to_string(), tags.clone_map(), 1, 1000);
    storage.insert("m".to_string(), tags.clone_map(), 7, 1000);
    assert_eq!(storage.query_sum("m", &tags, 0, 3000), 7);
    let pts = storage.query_points("m", &tags, 0, 3000);
    assert_eq!(pts.len(), 1);
    assert_eq!((pts[0].timestamp, pts[0].value), (1000, 7));
}

#[test]
fn insert_keeps_at_most_max_points() {
    let mut storage = WebMetricStorage::new(2, 86400);
    let tags = StrMap::new();
    storage.insert("m".to_string(), tags.clone_map(), 1, 1000);
    storage.insert("m".to_string(), tags.clone_map(), 2, 2000);
    storage.insert("m".to_string(), tags.clone_map(), 3, 3000);
    let pts = storage.query_points("m", &tags, 0, 10_000);
    let got: Vec<(i64, u64)> = pts.iter().map(|p| (p.timestamp, p.value)).collect();
    assert_eq!(got, vec![(2000, 2), (3000, 3)]);
}

#[test]
fn insert_drops_points_older_than_retention() {
    let mut storage = WebMetricStorage::new(100, 10);
    let tags = StrMap::new();
    storage.insert("m".to_string(), tags.clone_map(), 1, 1000);
    storage.insert("m".to_string(), tags.clone_map(), 2, 20_000);
    let pts = storage.query_points("m", &tags, 0, 100_000);
    let got: Vec<(i64, u64)> = pts.iter().map(|p| (p.timestamp, p.value)).collect();
    assert_eq!(got, vec![(20_000, 2)]);
}

#[test]
fn query_sum_respects_range_and_tags() {
    let mut storage = WebMetricStorage::new(1000, 86400);
    storage.insert("m".to_string(), one_tag("page", "/a"), 1, 1000);
    storage.insert("m".to_string(), one_tag("page", "/b"), 10, 2000);
    storage.insert("m".to_string(), one_tag("page", "/b"), 100, 5000);
    assert_eq!(storage.query_sum("m", &StrMap::new(), 0, 3000), 11);
    assert_eq!(storage.query_sum("m", &one_tag("page", "/b"), 0, 10_000), 110);
    assert_eq!(storage.query_sum("m", &one_tag("page", "/c"), 0, 10_000), 0);
    assert_eq!(storage.query_sum("other", &StrMap::new(), 0, 10_000), 0);
    assert_eq!(storage.series_for("m", &StrMap::new()).len(), 2);
    assert_eq!(storage.series_for("m", &one_tag("page", "/a")).len(), 1);
    assert_eq!(
        storage.series_for("m", &one_tag("page", "/a"))[0],
        WebMetricStorage::make_series_key("m", &one_tag("page", "/a"))
    );
}

#[test]
fn query_points_are_sorted_by_time() {
    let mut storage = WebMetricStorage::new(1000, 86400);
    storage.insert("m".to_string(), one_tag("page", "/a"), 1, 3000);
    storage.insert("m".to_string(), one_tag("page", "/b"), 2, 1000);
    storage.insert("m".to_string(), one_tag("page", "/a"), 3, 2000);
    let pts = storage.query_points("m", &StrMap::new(), 0, 10_000);
    let got: Vec<i64> = pts.iter().map(|p| p.timestamp).collect();
    assert_eq!(got, vec![1000, 2000, 3000]);
}

#[test]
fn series_key_depends_on_metric_and_tags() {
    let a = WebMetricStorage::make_series_key("m", &one_tag("page", "/a"));
    let b = WebMetricStorage::make_series_key("m", &one_tag("page", "/b"));
    let c = WebMetricStorage::make_series_key("n", &one_tag("page", "/a"));
    assert_eq!(a, WebMetricStorage::make_series_key("m", &one_tag("page", "/a")));
    assert_ne!(a, b);
    assert_ne!(a, c);
}

#[test]
fn gc_drops_old_points_and_empty_series() {
    let mut storage = WebMetricStorage::new(1000, 10);
    storage.insert("m".to_string(), one_tag("page", "/a"), 1, 1000);
    storage.insert("m".to_string(), one_tag("page", "/b"), 2, 50_000);
    storage.perform_gc(55_000);
    assert_eq!(storage.series_for("m", &StrMap::new()).len(), 1);
    assert_eq!(storage.query_sum("m", &StrMap::new(), 0, 100_000), 2);
    assert!(storage.series_for("m", &one_tag("page", "/a")).is_empty());
}

#[test]
fn snapshot_restore_round_trip() {
    let now = chrono::Utc::now().timestamp_millis();
    let mut storage = WebMetricStorage::new(1000, 86400);
    storage.insert("m".to_string(), one_tag("page", "/a"), 4, now - 1000);
    storage.insert("m".to_string(), one_tag("page", "/a"), 5, now);
    storage.insert("n".to_string(), StrMap::new(), 6, now);
    let snap = storage.snapshot(now);
    assert_eq!(snap.series.len(), 2);
    let restored = WebMetricStorage::restore(snap, 1000, 86400, now);
    assert_eq!(restored.query_sum("m", &one_tag("page", "/a"), now - 5000, now), 9);
    assert_eq!(restored.query_sum("n", &StrMap::new(), now - 5000, now), 6);
    assert_eq!(restored.max_points(), 1000);
    assert_eq!(restored.retention_seconds(), 86400);
}

#[test]
fn restore_drops_expired_points() {
    let now = chrono::Utc::now().timestamp_millis();
    let snap = WebMetricStorageSnapshot {
        series: vec![WebMetricSeriesSnapshot {
            metric: "m".to_string(),
            tags: one_tag("page", "/old"),
            points: vec![MetricPoint { timestamp: 1000, value: 3 }],
        }],
    };
    let restored = WebMetricStorage::restore(snap, 1000, 60, now);
    assert!(restored.series_for("m", &StrMap::new()).is_empty());
}

#[test]
fn storage_sample_from_aggregator_sample() {
    let s = pixel_agent::aggregator::MetricSample {
        name: "web.visits.page".to_string(),
        tags: one_tag("page", "/a"),
        value: 3,
        timestamp_ms: 600_000,
    };
    let w: pixel_agent::web_storage::WebMetricSample = s.into();
    assert_eq!(w.name, "web.visits.page");
    assert_eq!(w.tags.get("page"), Some(&"/a".to_string()));
    assert_eq!((w.value, w.timestamp_ms), (3, 600_000));
    let mut storage = WebMetricStorage::new(10, 86400);
    storage.insert_sample(w);
    assert_eq!(storage.query_sum("web.visits.page", &StrMap::new(), 0, 1_000_000), 3);
}

#[test]
fn existing_key_keeps_its_tags_indexed() {
    let mut storage = WebMetricStorage::new(1000, 86400);
    storage.insert("m".to_string(), one_tag("page", "/a"), 1, 1000);
    storage.insert("m".to_string(), one_tag("page", "/a"), 2, 2000);
    assert_eq!(storage.series_for("m", &one_tag("page", "/a")).len(), 1);
    let now = chrono::Utc::now().timestamp_millis();
    let mut fresh = WebMetricStorage::new(1000, 86400);
    fresh.insert("m".to_string(), one_tag("page", "/a"), 3, now);
    let snap = fresh.snapshot(now);
    let back = WebMetricStorage::restore(snap, 1000, 86400, now);
    assert_eq!(back.series_for("m", &one_tag("page", "/a")).len(), 1);
    assert!(back.series_for("m", &one_tag("page", "/b")).is_empty());
    let top = back.query_top("m", "page", now - 1000, now, 10);
    assert_eq!(top, vec![("/a".to_string(), 3)]);
}
