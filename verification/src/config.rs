//! The recognized configuration options and their built-in defaults. The
//! process edge reads the operator's settings and overlays them on these.

use vstd::prelude::*;
use vstd::string::StringExecFns;

verus! {

/// The whole configuration.
pub struct Config {
    pub server: ServerConfig,
    pub gitlab: GitLabConfig,
    pub poller: PollerConfig,
}

/// Where the query API listens.
pub struct ServerConfig {
    pub host: String,
    pub port: u16,
}

/// How the forge is reached and what is observed on it.
pub struct GitLabConfig {
    pub url: String,
    pub token: String,
    pub monitor_groups: Vec<String>,
    pub branch_filter_regex: Option<String>,
    pub timeout_seconds: Option<u64>,
    pub skip_invalid_certs: Option<bool>,
}

/// The polling cadence and the cache bounds.
pub struct PollerConfig {
    pub interval_seconds: u64,
    pub backfill_days: i64,
    pub capacity: Option<i64>,
    pub ttl_seconds: Option<i64>,
}

impl Config {
    /// The built-in defaults: a local listen address, no forge configured
    /// yet, a five-minute poll interval, a thirty-day backfill, and the
    /// default cache bounds.
    pub fn new() -> (r: Config)
        ensures
            r.server.host@ == "127.0.0.1"@,
            r.server.port == 8080,
            r.gitlab.url@.len() == 0,
            r.gitlab.token@.len() == 0,
            r.gitlab.monitor_groups@.len() == 0,
            r.gitlab.branch_filter_regex is None,
            r.gitlab.timeout_seconds == Some(30u64),
            r.gitlab.skip_invalid_certs == Some(false),
            r.poller.interval_seconds == 300,
            r.poller.backfill_days == 30,
            r.poller.capacity == Some(10000i64),
            r.poller.ttl_seconds == Some(600i64),
    {
        let mut host = String::new();
        host.append("127.0.0.1");
        proof {
            assert(host@ =~= "127.0.0.1"@);
        }
        Config {
            server: ServerConfig { host, port: 8080 },
            gitlab: GitLabConfig {
                url: String::new(),
                token: String::new(),
                monitor_groups: Vec::new(),
                branch_filter_regex: None,
                timeout_seconds: Some(30),
                skip_invalid_certs: Some(false),
            },
            poller: PollerConfig {
                interval_seconds: 300,
                backfill_days: 30,
                capacity: Some(10000),
                ttl_seconds: Some(600),
            },
        }
    }
}

} // verus!
