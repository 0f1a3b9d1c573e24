use pixel_agent::agent::{advance_offset, level_of_lowercase, log_level_from_name, max_timestamp, parse_offset, poll_start, LogLevel, PollStart};
use pixel_agent::aggregator::MetricSample;
use pixel_agent::config::{
    default_admin_listen, default_admin_port, default_bucket_minutes, default_cors_origins, default_flush_interval_sec,
    default_log_level, default_max_points, default_offset_path, default_poll_interval_sec, default_retention_hours,
    default_retention_seconds, default_snapshot_interval_sec, default_snapshot_path, AgentConfig,
};
use pixel_agent::strmap::StrMap;

#[test]
fn parse_offset_reads_trimmed_decimal() {
    assert_eq!(parse_offset(" 42\n"), Some(42));
    assert_eq!(parse_offset("+7"), Some(7));
    assert_eq!(parse_offset("0"), Some(0));
    assert_eq!(parse_offset("18446744073709551615"), Some(u64::MAX));
    assert_eq!(parse_offset("18446744073709551616"), None);
    assert_eq!(parse_offset("-1"), None);
    assert_eq!(parse_offset(""), None);
    assert_eq!(parse_offset("+"), None);
    assert_eq!(parse_offset("1 2"), None);
    assert_eq!(parse_offset("12a"), None);
}

#[test]
fn offset_round_trip() {
    for n in [0u64, 7, 42, 1_000_000, u64::MAX] {
        assert_eq!(parse_offset(&n.to_string()), Some(n));
    }
}

#[test]
fn poll_start_resets_on_shrink() {
    assert_eq!(poll_start(10, 5), PollStart::ResetOffset);
    assert_eq!(poll_start(5, 10), PollStart::ReadFrom(5));
    assert_eq!(poll_start(10, 10), PollStart::ReadFrom(10));
    assert_eq!(advance_offset(10, 32), 42);
}

#[test]
fn max_timestamp_of_samples() {
    assert_eq!(max_timestamp(&Vec::new()), 0);
    let mk = |t: i64| MetricSample { name: "m".to_string(), tags: StrMap::new(), value: 1, timestamp_ms: t };
    assert_eq!(max_timestamp(&vec![mk(-5), mk(-3), mk(-9)]), -3);
    assert_eq!(max_timestamp(&vec![mk(300), mk(900), mk(600)]), 900);
}

#[test]
fn log_levels_by_name() {
    assert_eq!(log_level_from_name("trace"), LogLevel::Trace);
    assert_eq!(log_level_from_name("DEBUG"), LogLevel::Debug);
    assert_eq!(log_level_from_name("Warn"), LogLevel::Warn);
    assert_eq!(log_level_from_name("error"), LogLevel::Error);
    assert_eq!(log_level_from_name("info"), LogLevel::Info);
    assert_eq!(log_level_from_name("verbose"), LogLevel::Info);
    assert_eq!(level_of_lowercase("debug"), LogLevel::Debug);
    assert_eq!(level_of_lowercase("DEBUG"), LogLevel::Info);
}

#[test]
fn config_defaults() {
    assert_eq!(default_log_level(), "info");
    assert_eq!(default_offset_path(), "/var/lib/pixel-agent/offset.dat");
    assert_eq!(default_snapshot_path(), "/var/lib/pixel-agent/metrics.snapshot");
    assert_eq!(default_admin_listen(), "0.0.0.0");
    assert_eq!(default_admin_port(), 9102);
    assert_eq!(default_cors_origins(), vec!["http://localhost:8080".to_string()]);
    assert_eq!(default_poll_interval_sec(), 30);
    assert_eq!(default_flush_interval_sec(), 300);
    assert_eq!(default_snapshot_interval_sec(), 300);
    assert_eq!(default_bucket_minutes(), 5);
    assert_eq!(default_retention_hours(), 2160);
    assert_eq!(default_max_points(), 30000);
    assert_eq!(default_retention_seconds(), 7_776_000);
}

#[test]
fn config_limits() {
    let mut c = AgentConfig {
        log_level: default_log_level(),
        log_path: "/var/log/nginx/pixel.log".to_string(),
        offset_path: default_offset_path(),
        geoip_db: "/usr/share/GeoIP/GeoLite2-Country.mmdb".to_string(),
        snapshot_path: default_snapshot_path(),
        admin_listen: default_admin_listen(),
        admin_port: default_admin_port(),
        cors_origins: default_cors_origins(),
        poll_interval_sec: default_poll_interval_sec(),
        flush_interval_sec: default_flush_interval_sec(),
        snapshot_interval_sec: default_snapshot_interval_sec(),
        bucket_minutes: default_bucket_minutes(),
        retention_hours: default_retention_hours(),
        max_points: default_max_points(),
        retention_seconds: default_retention_seconds(),
    };
    assert!(c.limits_ok());
    c.bucket_minutes = 0;
    assert!(!c.limits_ok());
    c.bucket_minutes = 5;
    c.retention_hours = u64::MAX;
    assert!(!c.limits_ok());
}

#[test]
fn default_retention_covers_ninety_days_of_buckets() {
    let buckets_per_day = 24 * 60 / default_bucket_minutes();
    assert_eq!(buckets_per_day, 288);
    assert!(default_max_points() as u64 >= 90 * buckets_per_day);
    assert_eq!(default_retention_hours() as i64 * 3600, default_retention_seconds());
}
