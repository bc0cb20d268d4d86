//! Relay configuration.
//!
//! Every field is optional in the configuration file; the `Default`
//! impls give the effective defaults for a skeleton relay: no PoW
//! requirement, a generous rate limit, one-year retention, the blob
//! sidecar disabled, no peers. Reading the file is the application's
//! job; this module holds the values and the lookups over them.

use vstd::prelude::*;
use std::collections::BTreeMap;
use crate::kinds::{kind_name, spec_kind_name};
use crate::json::{decimal, chars_to_string, dec_digits};
use crate::text::concat;

verus! {

/// Top-level relay configuration.
#[derive(Debug, Clone)]
pub struct RelayConfig {
    /// Address (`host:port`) the server binds and listens on.
    pub listen_addr: String,
    /// Path to the SQLite database file (created if absent).
    pub db_path: String,
    /// Human-readable relay name, advertised in `/info`.
    pub name: String,
    /// Minimum accepted proof-of-work difficulty in leading zero bits.
    /// `0` disables the PoW requirement.
    pub pow_min_bits: u32,
    /// Per-identity rate limiting policy.
    pub rate: RateConfig,
    /// Retention policy, by kind and by default.
    pub retention: RetentionConfig,
    /// Optional blob sidecar settings.
    pub blob: BlobConfig,
    /// Peer relay `/sync` URLs to gossip with.
    pub peers: Vec<String>,
}

/// Anti-spam rate limiting.
#[derive(Debug, Clone)]
pub struct RateConfig {
    /// Token-bucket refill rate: accepted `PUB`s per minute per identity.
    pub records_per_minute_per_key: u32,
}

/// Retention policy: expiry by age, optionally overridden per kind.
#[derive(Debug, Clone)]
pub struct RetentionConfig {
    /// Default retention, in days, for kinds with no specific override.
    pub default_days: u32,
    /// Per-kind overrides: kind id to retention in days.
    pub by_kind_days: BTreeMap<u64, u32>,
}

/// Optional blob sidecar configuration.
#[derive(Debug, Clone)]
pub struct BlobConfig {
    /// Whether `/blob` endpoints are mounted at all.
    pub enabled: bool,
    /// Directory blobs are stored under, content-addressed as
    /// `dir/<hex[0..2]>/<hex[2..4]>/<hex>`.
    pub dir: String,
    /// Maximum accepted blob size in bytes; larger uploads are refused.
    pub max_bytes: u64,
}

/// Default token-bucket refill rate, per minute.
pub const DEFAULT_RECORDS_PER_MINUTE: u32 = 60;

/// Default retention in days.
pub const DEFAULT_RETENTION_DAYS: u32 = 365;

/// Default maximum blob size: 4 GiB.
pub const DEFAULT_MAX_BLOB_BYTES: u64 = 4294967296;

impl Default for RateConfig {
    fn default() -> (r: RateConfig)
        ensures
            r.records_per_minute_per_key == DEFAULT_RECORDS_PER_MINUTE,
    {
        RateConfig { records_per_minute_per_key: DEFAULT_RECORDS_PER_MINUTE }
    }
}

impl Default for RetentionConfig {
    fn default() -> (r: RetentionConfig)
        ensures
            r.default_days == DEFAULT_RETENTION_DAYS,
            r.by_kind_days@ == Map::<u64, u32>::empty(),
    {
        RetentionConfig { default_days: DEFAULT_RETENTION_DAYS, by_kind_days: BTreeMap::new() }
    }
}

impl Default for BlobConfig {
    fn default() -> (r: BlobConfig)
        ensures
            !r.enabled,
            r.dir@ == seq!['.', '/', 'b', 'l', 'o', 'b', 's'],
            r.max_bytes == DEFAULT_MAX_BLOB_BYTES,
    {
        let r = BlobConfig { enabled: false, dir: "./blobs".to_string(), max_bytes: DEFAULT_MAX_BLOB_BYTES };
        proof {
            reveal_strlit("./blobs");
            assert(r.dir@ =~= seq!['.', '/', 'b', 'l', 'o', 'b', 's']);
        }
        r
    }
}

/// `127.0.0.1:8787`
pub open spec fn default_listen_addr() -> Seq<char> {
    seq!['1', '2', '7', '.', '0', '.', '0', '.', '1', ':', '8', '7', '8', '7']
}

/// `evermesh-relay.sqlite3`
pub open spec fn default_db_path() -> Seq<char> {
    seq!['e', 'v', 'e', 'r', 'm', 'e', 's', 'h', '-', 'r', 'e', 'l', 'a', 'y', '.', 's', 'q', 'l', 'i', 't', 'e', '3']
}

/// `evermesh-relay`
pub open spec fn default_name() -> Seq<char> {
    seq!['e', 'v', 'e', 'r', 'm', 'e', 's', 'h', '-', 'r', 'e', 'l', 'a', 'y']
}

impl Default for RelayConfig {
    fn default() -> (r: RelayConfig)
        ensures
            r.listen_addr@ == default_listen_addr(),
            r.db_path@ == default_db_path(),
            r.name@ == default_name(),
            r.pow_min_bits == 0,
            r.rate.records_per_minute_per_key == DEFAULT_RECORDS_PER_MINUTE,
            r.retention.default_days == DEFAULT_RETENTION_DAYS,
            r.retention.by_kind_days@ == Map::<u64, u32>::empty(),
            !r.blob.enabled,
            r.blob.max_bytes == DEFAULT_MAX_BLOB_BYTES,
            r.peers@.len() == 0,
    {
        let r = RelayConfig {
            listen_addr: "127.0.0.1:8787".to_string(),
            db_path: "evermesh-relay.sqlite3".to_string(),
            name: "evermesh-relay".to_string(),
            pow_min_bits: 0,
            rate: RateConfig::default(),
            retention: RetentionConfig::default(),
            blob: BlobConfig::default(),
            peers: Vec::new(),
        };
        proof {
            reveal_strlit("127.0.0.1:8787");
            reveal_strlit("evermesh-relay.sqlite3");
            reveal_strlit("evermesh-relay");
            assert(r.listen_addr@ =~= default_listen_addr());
            assert(r.db_path@ =~= default_db_path());
            assert(r.name@ =~= default_name());
        }
        r
    }
}

impl RelayConfig {
    /// Retention in days for a given kind: its override when there is
    /// one, else the default.
    pub fn retention_days_for_kind(&self, kind: u64) -> (days: u32)
        ensures
            days == (if self.retention.by_kind_days@.contains_key(kind) {
                self.retention.by_kind_days@[kind]
            } else {
                self.retention.default_days
            }),
    {
        match self.retention.by_kind_days.get(&kind) {
            Some(d) => *d,
            None => self.retention.default_days,
        }
    }
}

/// The key under which the relay's policy document lists how long a
/// kind is kept: `<registry name>_days`, or `kind<id>_days` for a kind
/// outside the registry.
pub fn retention_key(kind: u64) -> (k: String)
    ensures
        k@ == match spec_kind_name(kind) {
            Some(n) => n + "_days"@,
            None => "kind"@ + dec_digits(kind as nat) + "_days"@,
        },
{
    match kind_name(kind) {
        Some(n) => concat(n, "_days"),
        None => {
            let d = decimal(kind as u128);
            let t = chars_to_string(&d, 0);
            let lead = concat("kind", t.as_str());
            proof {
                assert(d@.skip(0) =~= d@);
            }
            concat(lead.as_str(), "_days")
        },
    }
}

} // verus!
