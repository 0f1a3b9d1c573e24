use pixel_agent::aggregator::Aggregator;
use pixel_agent::parser::PixelEvent;

#[test]
fn test_aggregator() {
    let mut aggregator = Aggregator::new(5);
    let now = chrono::Utc::now().timestamp_millis();

    aggregator.record(PixelEvent {
        timestamp: now,
        ip: "85.137.165.132".to_string(),
        page: "/subscription".to_string(),
        host: "hehe.frkn.org".to_string(),
        referer: "https://frkn.org".to_string(),
        referer_domain: "frkn.org".to_string(),
        user_agent: "Mozilla".to_string(),
        lang: "ru".to_string(),
        utm_source: "telegram".to_string(),
        ..Default::default()
    }, None);

    let samples = aggregator.flush(now, 168);
    assert!(samples.iter().any(|s| s.name == "web.visits.total" && s.value == 1));
    assert!(samples.iter().any(|s| s.name == "web.visits.page" && s.tags.get("page") == Some(&"/subscription".to_string())));
    assert!(samples.iter().any(|s| s.name == "web.visits.host" && s.tags.get("host") == Some(&"hehe.frkn.org".to_string())));
}

use pixel_agent::aggregator::{bucket_time_of, normalize_page, tags_from_key, tags_to_key};
use pixel_agent::strmap::StrMap;

fn event(ts: i64, page: &str) -> PixelEvent {
    PixelEvent {
        timestamp: ts,
        ip: "1.2.3.4".to_string(),
        page: page.to_string(),
        host: "frkn.org".to_string(),
        referer_domain: "direct".to_string(),
        ..Default::default()
    }
}

#[test]
fn buckets_round_toward_zero() {
    assert_eq!(bucket_time_of(0, 5), 0);
    assert_eq!(bucket_time_of(299_999, 5), 0);
    assert_eq!(bucket_time_of(300_000, 5), 300_000);
    assert_eq!(bucket_time_of(-1, 5), 0);
    assert_eq!(bucket_time_of(-300_001, 5), -300_000);
    assert_eq!(Aggregator::new(1).bucket_time(61_000), 60_000);
}

#[test]
fn pages_are_normalized() {
    assert_eq!(normalize_page(""), "/");
    assert_eq!(normalize_page("#top"), "/");
    assert_eq!(normalize_page("/a#b#c"), "/a");
    assert_eq!(normalize_page("/plain"), "/plain");
}

#[test]
fn tag_keys_round_trip() {
    let mut tags = StrMap::new();
    tags.insert("page".to_string(), "/x".to_string());
    let key = tags_to_key(&tags);
    assert_eq!(key, "page=/x");
    let back = tags_from_key(&key);
    assert_eq!(back.len(), 1);
    assert_eq!(back.get("page"), Some(&"/x".to_string()));
    assert_eq!(tags_to_key(&StrMap::new()), "");
    assert!(tags_from_key("").is_empty());
    let mut two = StrMap::new();
    two.insert("b".to_string(), "2".to_string());
    two.insert("a".to_string(), "1".to_string());
    assert_eq!(tags_to_key(&two), "a=1&b=2");
    let parsed = tags_from_key("b=2&junk&a=1=1");
    assert_eq!(parsed.len(), 2);
    assert_eq!(parsed.get("a"), Some(&"1=1".to_string()));
}

#[test]
fn record_counts_each_visit() {
    let mut agg = Aggregator::new(5);
    let now = chrono::Utc::now().timestamp_millis();
    agg.record(event(now, "/a#frag"), Some("DE".to_string()));
    agg.record(event(now, "/a"), None);
    let samples = agg.flush(now, 168);
    let total = samples.iter().find(|s| s.name == "web.visits.total").expect("total");
    assert_eq!(total.value, 2);
    assert!(total.tags.is_empty());
    assert_eq!(total.timestamp_ms, bucket_time_of(now, 5));
    let page = samples.iter().find(|s| s.name == "web.visits.page").expect("page");
    assert_eq!(page.value, 2);
    assert_eq!(page.tags.get("page"), Some(&"/a".to_string()));
    assert!(samples.iter().any(|s| s.name == "web.visits.country" && s.tags.get("country") == Some(&"DE".to_string()) && s.value == 1));
    assert!(samples.iter().any(|s| s.name == "web.visits.country" && s.tags.get("country") == Some(&"ZZ".to_string()) && s.value == 1));
    assert!(!samples.iter().any(|s| s.name == "web.visits.referer_domain"));
    assert!(!samples.iter().any(|s| s.name == "web.visits.lang"));
}

#[test]
fn record_counts_optional_tags() {
    let mut agg = Aggregator::new(5);
    let mut e = event(1_000_000, "/");
    e.referer_domain = "t.me".to_string();
    e.lang = "en".to_string();
    e.utm_campaign = "spring".to_string();
    agg.record(e, None);
    let samples = agg.flush(1_000_000, 1);
    let names: Vec<&str> = samples.iter().map(|s| s.name.as_str()).collect();
    assert!(names.contains(&"web.visits.referer_domain"));
    assert!(names.contains(&"web.visits.lang"));
    assert!(names.contains(&"web.visits.utm_campaign"));
    assert!(!names.contains(&"web.visits.utm_source"));
    assert_eq!(samples.len(), 7);
}

#[test]
fn flush_drops_buckets_past_retention() {
    let mut agg = Aggregator::new(5);
    agg.record(event(0, "/old"), None);
    agg.record(event(7_200_000, "/new"), None);
    let samples = agg.flush(7_200_000, 1);
    assert!(samples.iter().all(|s| s.timestamp_ms == 7_200_000));
    assert!(samples.iter().any(|s| s.tags.get("page") == Some(&"/new".to_string())));
    assert!(!samples.iter().any(|s| s.tags.get("page") == Some(&"/old".to_string())));
}

#[test]
fn clear_flushed_keeps_later_buckets() {
    let mut agg = Aggregator::new(5);
    agg.record(event(0, "/a"), None);
    agg.record(event(600_000, "/b"), None);
    agg.clear_flushed(0);
    let samples = agg.flush(600_000, 1);
    assert!(samples.iter().all(|s| s.timestamp_ms == 600_000));
    assert!(!samples.is_empty());
    agg.clear_flushed(600_000);
    assert!(agg.flush(600_000, 1).is_empty());
}
