use pixel_agent::server::{escape_label, format_labels, metrics_response, prometheus_body, prometheus_text, request_window, sanitize_name};
use pixel_agent::strmap::StrMap;
use pixel_agent::web_storage::WebMetricStorage;

fn one_tag(k: &str, v: &str) -> StrMap {
    let mut m = StrMap::new();
    m.insert(k.to_string(), v.to_string());
    m
}

#[test]
fn sanitize_name_replaces_and_prefixes() {
    assert_eq!(sanitize_name("web.visits.total"), "web_visits_total");
    assert_eq!(sanitize_name("1a-b"), "_1a_b");
    assert_eq!(sanitize_name("ok:name_9"), "ok:name_9");
    assert_eq!(sanitize_name(""), "metric");
    assert_eq!(sanitize_name("é"), "_");
}

#[test]
fn escape_label_escapes_specials() {
    assert_eq!(escape_label("a\"b\\c\nd"), "a\\\"b\\\\c\\nd");
    assert_eq!(escape_label("plain"), "plain");
}

#[test]
fn format_labels_writes_braces() {
    assert_eq!(format_labels(&StrMap::new()), "");
    assert_eq!(format_labels(&one_tag("page", "/x\"y")), "{page=\"/x\\\"y\"}");
    let mut two = StrMap::new();
    two.insert("b".to_string(), "2".to_string());
    two.insert("a-x".to_string(), "1".to_string());
    assert_eq!(format_labels(&two), "{a_x=\"1\",b=\"2\"}");
}

#[test]
fn prometheus_body_lines() {
    assert_eq!(prometheus_body(&Vec::new()), "# no pixel metrics yet\n");
    let totals = vec![
        ("web.visits.total".to_string(), StrMap::new(), 3u64),
        ("web.visits.page".to_string(), one_tag("page", "/a"), 12u64),
    ];
    assert_eq!(
        prometheus_body(&totals),
        "web_visits_total 3\nweb_visits_page{page=\"/a\"} 12\n"
    );
}

#[test]
fn prometheus_text_reads_last_day() {
    let now: i64 = 200_000_000;
    let mut storage = WebMetricStorage::new(1000, 10_000_000);
    storage.insert("web.visits.page".to_string(), one_tag("page", "/a"), 2, now - 1000);
    storage.insert("web.visits.page".to_string(), one_tag("page", "/a"), 5, now - 90_000_000);
    storage.insert("web.visits.total".to_string(), StrMap::new(), 7, now - 100_000_000);
    assert_eq!(prometheus_text(&storage, now), "web_visits_page{page=\"/a\"} 2\n");
    let empty = WebMetricStorage::new(10, 10);
    assert_eq!(prometheus_text(&empty, now), "# no pixel metrics yet\n");
}

#[test]
fn request_window_defaults() {
    assert_eq!(request_window(0, 0, 100_000_000), (100_000_000 - 86_400_000, 100_000_000));
    assert_eq!(request_window(5, 10, 100_000_000), (5, 10));
    assert_eq!(request_window(-3, 7, 100_000_000), (100_000_000 - 86_400_000, 7));
}

#[test]
fn metrics_response_filters_points() {
    let mut storage = WebMetricStorage::new(1000, 10_000_000);
    storage.insert("m".to_string(), one_tag("page", "/a"), 1, 1000);
    storage.insert("m".to_string(), one_tag("page", "/a"), 2, 5000);
    storage.insert("m".to_string(), one_tag("page", "/b"), 3, 9000);
    let r = metrics_response(&storage, 2000, 6000, 10_000);
    assert_eq!((r.from_ms, r.to_ms), (2000, 6000));
    assert_eq!(r.series.len(), 1);
    assert_eq!(r.series[0].metric, "m");
    assert_eq!(r.series[0].tags.get("page"), Some(&"/a".to_string()));
    assert_eq!(r.series[0].points.len(), 1);
    assert_eq!((r.series[0].points[0].timestamp, r.series[0].points[0].value), (5000, 2));
}
