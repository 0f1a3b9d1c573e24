use vstd::prelude::*;

use crate::aggregator::max_bucket_minutes;
use crate::text::owned;
use crate::web_storage::max_retention_seconds;

verus! {

/// The agent's settings, as read from its configuration file.
pub struct AgentConfig {
    pub log_level: String,
    pub log_path: String,
    pub offset_path: String,
    pub geoip_db: String,
    pub snapshot_path: String,
    pub admin_listen: String,
    pub admin_port: u16,
    pub cors_origins: Vec<String>,
    pub poll_interval_sec: u64,
    pub flush_interval_sec: u64,
    pub snapshot_interval_sec: u64,
    pub bucket_minutes: u64,
    pub retention_hours: u64,
    pub max_points: usize,
    pub retention_seconds: i64,
}

impl AgentConfig {
    /// Whether the aggregator and the storage can run with these settings:
    /// a bucket of at least a minute whose length in milliseconds fits in an
    /// `i64`, a retention in hours whose milliseconds fit in a `u64`, and a
    /// retention in seconds whose milliseconds fit in an `i64`.
    pub fn limits_ok(&self) -> (b: bool)
        ensures
            b == (1 <= self.bucket_minutes <= max_bucket_minutes() && self.retention_hours
                * 3600000 <= u64::MAX && -max_retention_seconds() <= self.retention_seconds
                <= max_retention_seconds()),
    {
        1 <= self.bucket_minutes && self.bucket_minutes <= 153722867280912
            && self.retention_hours <= 5124095576030 && -9223372036854775 <= self.retention_seconds
            && self.retention_seconds <= 9223372036854775
    }
}

pub fn default_cors_origins() -> (r: Vec<String>)
    ensures
        r@.len() == 1,
        r@[0]@ == "http://localhost:8080"@,
{
    let mut v: Vec<String> = Vec::new();
    v.push(owned("http://localhost:8080"));
    v
}

pub fn default_log_level() -> (r: String)
    ensures
        r@ == "info"@,
{
    owned("info")
}

pub fn default_offset_path() -> (r: String)
    ensures
        r@ == "/var/lib/pixel-agent/offset.dat"@,
{
    owned("/var/lib/pixel-agent/offset.dat")
}

pub fn default_snapshot_path() -> (r: String)
    ensures
        r@ == "/var/lib/pixel-agent/metrics.snapshot"@,
{
    owned("/var/lib/pixel-agent/metrics.snapshot")
}

pub fn default_admin_listen() -> (r: String)
    ensures
        r@ == "0.0.0.0"@,
{
    owned("0.0.0.0")
}

pub fn default_admin_port() -> (r: u16)
    ensures
        r == 9102,
{
    9102
}

pub fn default_poll_interval_sec() -> (r: u64)
    ensures
        r == 30,
{
    30
}

pub fn default_flush_interval_sec() -> (r: u64)
    ensures
        r == 300,
{
    300
}

pub fn default_snapshot_interval_sec() -> (r: u64)
    ensures
        r == 300,
{
    300
}

pub fn default_bucket_minutes() -> (r: u64)
    ensures
        r == 5,
{
    5
}

/// About 90 days of buckets, so that the dashboard can show ranges of up to
/// three months.
pub fn default_retention_hours() -> (r: u64)
    ensures
        r == 90 * 24,
{
    90 * 24
}

/// 90 days of five-minute buckets (25920), with headroom.
pub fn default_max_points() -> (r: usize)
    ensures
        r == 30000,
{
    30000
}

pub fn default_retention_seconds() -> (r: i64)
    ensures
        r == 90 * 24 * 60 * 60,
{
    90 * 24 * 60 * 60
}

} // verus!
