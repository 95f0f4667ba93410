//! Configuration: how values are written, what they have to satisfy, and what may not change
//! once a cache directory is in use.
//!
//! Settings are named in cache terms: bytes on disk, bytes in memory, slice size.
use crate::config::guard::{StoredConfig, STORE_FORMAT_VERSION};
use crate::config::units::{format_size, power_of_two, Duration};
use crate::text;
use crate::upstream::guard::IpAddr;
use vstd::prelude::*;
use vstd::string::*;

pub mod guard;
pub mod reference;
pub mod rules;
pub mod units;

verus! {

/// How requests are logged.
#[derive(Debug, Clone, Copy, PartialEq, Eq, Structural)]
pub enum LogFormat {
    /// Structured JSON on stdout. The supported format.
    Json,
    /// The `cachelog` line format, for existing dashboards.
    Lancache,
}

/// Everything that is read at startup.
#[derive(Debug)]
pub struct Config {
    /// Disk tier capacity. Hard cap.
    pub cache_disk_size: u64,
    /// RAM tier capacity for hot slices. Hard cap.
    pub cache_mem_size: u64,
    /// How long an object stays cacheable.
    pub cache_max_age: Duration,
    /// Slice size. Persisted with the cache.
    pub cache_slice_size: u64,
    /// Cache data directory.
    pub cache_data_dir: String,
    /// Reduce the effective disk cap when the filesystem falls below this much free space.
    pub min_free_disk: u64,
    /// Adopt the current settings even though they disagree with the cache directory.
    pub force_config: bool,
    pub http_port: u16,
    pub https_port: u16,
    pub admin_port: u16,
    /// Resolvers used for upstream lookups. Never the system resolver.
    pub upstream_dns: Vec<IpAddr>,
    /// Global cap on concurrent upstream fetches.
    pub upstream_max_inflight: usize,
    /// Prefetch this many slices ahead on sequential reads.
    pub readahead_slices: usize,
    /// Allow upstream fetches to private, loopback and link-local addresses.
    pub allow_private_upstreams: bool,
    /// Proxy hosts that match no service, instead of returning 404.
    pub passthrough_unknown_hosts: bool,
    pub cache_domains_repo: String,
    /// How often to refresh the domain list. Zero disables refresh.
    pub cache_domains_refresh: Duration,
    /// Load the domain list from this directory instead of the bundled snapshot.
    pub cache_domains_dir: Option<String>,
    /// Optional file of per-service rules.
    pub rules_file: Option<String>,
    pub log_format: LogFormat,
    pub log_level: String,
    /// Bearer token for the admin API. Empty means unauthenticated.
    pub admin_token: String,
}

/// A configuration that cannot work, caught at startup rather than at first use.
#[derive(Debug, PartialEq, Eq)]
pub enum ConfigError {
    Invalid { setting: &'static str, value: String, requirement: &'static str },
    /// One setting exceeds another that bounds it.
    Exceeds { a: &'static str, a_value: String, b: &'static str, b_value: String },
}

/// What is wrong with a configuration.
pub enum Fault {
    Invalid { setting: Seq<char>, value: Seq<char>, requirement: Seq<char> },
    Exceeds { a: Seq<char>, a_value: Seq<char>, b: Seq<char>, b_value: Seq<char> },
}

impl View for ConfigError {
    type V = Fault;

    open spec fn view(&self) -> Fault {
        match self {
            ConfigError::Invalid { setting, value, requirement } => Fault::Invalid {
                setting: setting@,
                value: value@,
                requirement: requirement@,
            },
            ConfigError::Exceeds { a, a_value, b, b_value } => Fault::Exceeds {
                a: a@,
                a_value: a_value@,
                b: b@,
                b_value: b_value@,
            },
        }
    }
}

pub open spec fn fault_text(f: Fault) -> Seq<char> {
    match f {
        Fault::Invalid { setting, value, requirement } => setting + " is "@ + value
            + ", which must be "@ + requirement,
        Fault::Exceeds { a, a_value, b, b_value } => a + " ("@ + a_value + ") must not exceed "@ + b
            + " ("@ + b_value + ")"@,
    }
}

impl ConfigError {
    /// The error in words: the setting, its value, and what it has to be.
    pub fn message(&self) -> (out: String)
        ensures
            out@ == fault_text(self@),
    {
        match self {
            ConfigError::Invalid { setting, value, requirement } => {
                let mut out = (*setting).to_owned();
                out.append(" is ");
                out.append(value.as_str());
                out.append(", which must be ");
                out.append(requirement);
                out
            },
            ConfigError::Exceeds { a, a_value, b, b_value } => {
                let mut out = (*a).to_owned();
                out.append(" (");
                out.append(a_value.as_str());
                out.append(") must not exceed ");
                out.append(b);
                out.append(" (");
                out.append(b_value.as_str());
                out.append(")");
                out
            },
        }
    }
}

/// The first thing that is wrong with a configuration, if anything is.
pub open spec fn fault(c: Config) -> Option<Fault> {
    if !units::is_power_of_two(c.cache_slice_size as nat) {
        Some(
            Fault::Invalid {
                setting: "CACHE_SLICE_SIZE"@,
                value: units::size_text(c.cache_slice_size),
                requirement:
                    "a power of two, so slice boundaries align with the object offsets clients request"@,
            },
        )
    } else if c.cache_slice_size > u32::MAX {
        Some(
            Fault::Invalid {
                setting: "CACHE_SLICE_SIZE"@,
                value: units::size_text(c.cache_slice_size),
                requirement: "at most 4 GiB"@,
            },
        )
    } else if c.cache_disk_size < c.cache_slice_size {
        Some(
            Fault::Exceeds {
                a: "CACHE_SLICE_SIZE"@,
                a_value: units::size_text(c.cache_slice_size),
                b: "CACHE_DISK_SIZE"@,
                b_value: units::size_text(c.cache_disk_size),
            },
        )
    } else if c.cache_mem_size < c.cache_slice_size {
        Some(
            Fault::Exceeds {
                a: "CACHE_SLICE_SIZE"@,
                a_value: units::size_text(c.cache_slice_size),
                b: "CACHE_MEM_SIZE"@,
                b_value: units::size_text(c.cache_mem_size),
            },
        )
    } else if c.cache_mem_size > c.cache_disk_size {
        Some(
            Fault::Exceeds {
                a: "CACHE_MEM_SIZE"@,
                a_value: units::size_text(c.cache_mem_size),
                b: "CACHE_DISK_SIZE"@,
                b_value: units::size_text(c.cache_disk_size),
            },
        )
    } else if c.readahead_slices == 0 {
        Some(
            Fault::Invalid {
                setting: "READAHEAD_SLICES"@,
                value: "0"@,
                requirement:
                    "at least 1, since a request must be able to fetch the slice it needs"@,
            },
        )
    } else if c.upstream_max_inflight == 0 {
        Some(
            Fault::Invalid {
                setting: "UPSTREAM_MAX_INFLIGHT"@,
                value: "0"@,
                requirement: "at least 1, or no upstream fetch could ever start"@,
            },
        )
    } else if c.upstream_dns@.len() == 0 {
        Some(
            Fault::Invalid {
                setting: "UPSTREAM_DNS"@,
                value: "empty"@,
                requirement:
                    "at least one resolver: the system resolver is never used, so there would be no way to resolve an upstream"@,
            },
        )
    } else if c.http_port == c.admin_port || c.https_port == c.admin_port {
        Some(
            Fault::Invalid {
                setting: "ADMIN_PORT"@,
                value: text::decimal(c.admin_port as nat),
                requirement:
                    "different from HTTP_PORT and HTTPS_PORT: the admin surface must not be reachable on the data plane"@,
            },
        )
    } else if c.http_port == c.https_port {
        Some(
            Fault::Invalid {
                setting: "HTTPS_PORT"@,
                value: text::decimal(c.https_port as nat),
                requirement: "different from HTTP_PORT"@,
            },
        )
    } else {
        None
    }
}

impl Default for Config {
    fn default() -> (out: Self)
        ensures
            out.cache_disk_size == 1000 * 0x4000_0000,
            out.cache_mem_size == 2 * 0x4000_0000,
            out.cache_max_age.secs == 3560 * 86_400,
            out.cache_slice_size == 0x10_0000,
            out.cache_data_dir@ == "/data/cache"@,
            out.min_free_disk == 10 * 0x4000_0000,
            !out.force_config,
            out.http_port == 80,
            out.https_port == 443,
            out.admin_port == 9090,
            out.upstream_dns@.len() == 2,
            out.upstream_dns@[0] matches IpAddr::V4(a) && a@ == seq![1u8, 1, 1, 1],
            out.upstream_dns@[1] matches IpAddr::V4(b) && b@ == seq![1u8, 0, 0, 1],
            out.upstream_max_inflight == 256,
            out.readahead_slices == 4,
            !out.allow_private_upstreams,
            !out.passthrough_unknown_hosts,
            out.cache_domains_repo@ == "https://github.com/uklans/cache-domains"@,
            out.cache_domains_refresh.secs == 86_400,
            out.cache_domains_dir is None,
            out.rules_file is None,
            out.log_format == LogFormat::Json,
            out.log_level@ == "info"@,
            out.admin_token@ == ""@,
            fault(out) is None,
    {
        proof {
            reveal_with_fuel(units::is_power_of_two, 22);
        }
        let first: [u8; 4] = [1, 1, 1, 1];
        let second: [u8; 4] = [1, 0, 0, 1];
        assert(first@ =~= seq![1u8, 1, 1, 1]);
        assert(second@ =~= seq![1u8, 0, 0, 1]);
        Config {
            cache_disk_size: 1000 * 0x4000_0000,
            cache_mem_size: 2 * 0x4000_0000,
            cache_max_age: Duration { secs: 3560 * 86_400 },
            cache_slice_size: 0x10_0000,
            cache_data_dir: "/data/cache".to_owned(),
            min_free_disk: 10 * 0x4000_0000,
            force_config: false,
            http_port: 80,
            https_port: 443,
            admin_port: 9090,
            upstream_dns: vec![IpAddr::V4(first), IpAddr::V4(second)],
            upstream_max_inflight: 256,
            readahead_slices: 4,
            allow_private_upstreams: false,
            passthrough_unknown_hosts: false,
            cache_domains_repo: "https://github.com/uklans/cache-domains".to_owned(),
            cache_domains_refresh: Duration { secs: 86_400 },
            cache_domains_dir: None,
            rules_file: None,
            log_format: LogFormat::Json,
            log_level: "info".to_owned(),
            admin_token: "".to_owned(),
        }
    }
}

fn invalid(setting: &'static str, value: String, requirement: &'static str) -> (out: Result<
    (),
    ConfigError,
>)
    ensures
        out matches Err(e) && e@ == (Fault::Invalid {
            setting: setting@,
            value: value@,
            requirement: requirement@,
        }),
{
    Err(ConfigError::Invalid { setting, value, requirement })
}

impl Config {
    pub open spec fn stored_spec(self) -> StoredConfig {
        StoredConfig {
            slice_size: self.cache_slice_size,
            store_format_version: STORE_FORMAT_VERSION,
        }
    }

    /// The settings the stored data depends on.
    pub fn stored(&self) -> (out: StoredConfig)
        ensures
            out == self.stored_spec(),
    {
        StoredConfig {
            slice_size: self.cache_slice_size,
            store_format_version: STORE_FORMAT_VERSION,
        }
    }

    /// Reject configurations that cannot work, before anything is opened or bound: that the memory
    /// tier exceeds the disk tier is learnt at startup, not when the first eviction runs.
    pub fn validate(&self) -> (out: Result<(), ConfigError>)
        ensures
            match fault(*self) {
                None => out is Ok,
                Some(f) => out matches Err(e) && e@ == f,
            },
    {
        if !power_of_two(self.cache_slice_size) {
            return invalid(
                "CACHE_SLICE_SIZE",
                format_size(self.cache_slice_size),
                "a power of two, so slice boundaries align with the object offsets clients request",
            );
        }
        if self.cache_slice_size > u32::MAX as u64 {
            return invalid(
                "CACHE_SLICE_SIZE",
                format_size(self.cache_slice_size),
                "at most 4 GiB",
            );
        }
        if self.cache_disk_size < self.cache_slice_size {
            return Err(
                ConfigError::Exceeds {
                    a: "CACHE_SLICE_SIZE",
                    a_value: format_size(self.cache_slice_size),
                    b: "CACHE_DISK_SIZE",
                    b_value: format_size(self.cache_disk_size),
                },
            );
        }
        if self.cache_mem_size < self.cache_slice_size {
            return Err(
                ConfigError::Exceeds {
                    a: "CACHE_SLICE_SIZE",
                    a_value: format_size(self.cache_slice_size),
                    b: "CACHE_MEM_SIZE",
                    b_value: format_size(self.cache_mem_size),
                },
            );
        }
        if self.cache_mem_size > self.cache_disk_size {
            return Err(
                ConfigError::Exceeds {
                    a: "CACHE_MEM_SIZE",
                    a_value: format_size(self.cache_mem_size),
                    b: "CACHE_DISK_SIZE",
                    b_value: format_size(self.cache_disk_size),
                },
            );
        }
        if self.readahead_slices == 0 {
            return invalid(
                "READAHEAD_SLICES",
                "0".to_owned(),
                "at least 1, since a request must be able to fetch the slice it needs",
            );
        }
        if self.upstream_max_inflight == 0 {
            return invalid(
                "UPSTREAM_MAX_INFLIGHT",
                "0".to_owned(),
                "at least 1, or no upstream fetch could ever start",
            );
        }
        if self.upstream_dns.len() == 0 {
            return invalid(
                "UPSTREAM_DNS",
                "empty".to_owned(),
                "at least one resolver: the system resolver is never used, so there would be no way to resolve an upstream",
            );
        }
        if self.http_port == self.admin_port || self.https_port == self.admin_port {
            return invalid(
                "ADMIN_PORT",
                text::decimal_string(self.admin_port as u64),
                "different from HTTP_PORT and HTTPS_PORT: the admin surface must not be reachable on the data plane",
            );
        }
        if self.http_port == self.https_port {
            return invalid(
                "HTTPS_PORT",
                text::decimal_string(self.https_port as u64),
                "different from HTTP_PORT",
            );
        }
        Ok(())
    }

    /// Per-connection memory implied by the read-ahead window, for the sizing guide and logs.
    pub fn readahead_bytes_per_connection(&self) -> (out: u64)
        requires
            self.cache_slice_size * self.readahead_slices <= u64::MAX,
        ensures
            out == self.cache_slice_size * self.readahead_slices,
    {
        self.cache_slice_size * self.readahead_slices as u64
    }
}

/// A configuration that passes has a slice size that fits in 32 bits, divides the address space
/// evenly, and fits in both tiers; its memory tier is no larger than its disk tier; and its three
/// listeners are apart.
pub proof fn valid_configurations_can_work(c: Config)
    requires
        fault(c) is None,
    ensures
        0 < c.cache_slice_size <= u32::MAX,
        c.cache_slice_size <= c.cache_disk_size,
        c.cache_slice_size <= c.cache_mem_size <= c.cache_disk_size,
        c.readahead_slices > 0 && c.upstream_max_inflight > 0 && c.upstream_dns@.len() > 0,
        c.http_port != c.https_port && c.http_port != c.admin_port && c.https_port
            != c.admin_port,
{
}

/// A configuration passes exactly where nothing about it makes it impossible to work: its slices
/// are as long as doubling one byte so and so often gives, can be measured in 32 bits, and fit in
/// memory; memory fits on disk; something can be fetched, and resolved; and the three listeners
/// have ports of their own.
pub proof fn configurations_pass_where_they_can_work(c: Config)
    ensures
        fault(c) is None <==> {
            &&& exists|e: nat| c.cache_slice_size == #[trigger] vstd::arithmetic::power2::pow2(e)
            &&& c.cache_slice_size <= u32::MAX
            &&& c.cache_slice_size <= c.cache_mem_size <= c.cache_disk_size
            &&& c.readahead_slices >= 1
            &&& c.upstream_max_inflight >= 1
            &&& c.upstream_dns@.len() >= 1
            &&& c.admin_port != c.http_port && c.admin_port != c.https_port
            &&& c.http_port != c.https_port
        },
{
    units::powers_of_two_come_of_doubling(c.cache_slice_size as nat, 0);
    if exists|e: nat| c.cache_slice_size == #[trigger] vstd::arithmetic::power2::pow2(e) {
        let e = choose|e: nat| c.cache_slice_size == #[trigger] vstd::arithmetic::power2::pow2(e);
        units::powers_of_two_come_of_doubling(0, e);
    }
}

/// Whoever is told of a fault is told of the setting that is at fault, and of nothing that comes
/// behind it.
pub proof fn faults_name_the_setting_at_fault(c: Config)
    ensures
        ({
            let sliced = units::is_power_of_two(c.cache_slice_size as nat) && c.cache_slice_size
                <= u32::MAX;
            let fits = c.cache_slice_size <= c.cache_mem_size <= c.cache_disk_size;
            let works = c.readahead_slices > 0 && c.upstream_max_inflight > 0
                && c.upstream_dns@.len() > 0;
            let f = fault(c);
            &&& !sliced ==> (f matches Some(Fault::Invalid { setting, value, .. }) && setting
                == "CACHE_SLICE_SIZE"@ && value == units::size_text(c.cache_slice_size))
            &&& sliced && c.cache_disk_size < c.cache_slice_size ==> (f matches Some(
                Fault::Exceeds { a, b, .. },
            ) && a == "CACHE_SLICE_SIZE"@ && b == "CACHE_DISK_SIZE"@)
            &&& sliced && c.cache_mem_size < c.cache_slice_size <= c.cache_disk_size ==> (
            f matches Some(Fault::Exceeds { a, b, .. }) && a == "CACHE_SLICE_SIZE"@ && b
                == "CACHE_MEM_SIZE"@)
            &&& sliced && c.cache_slice_size <= c.cache_disk_size < c.cache_mem_size ==> (
            f matches Some(Fault::Exceeds { a, b, a_value, b_value }) && a == "CACHE_MEM_SIZE"@ && b
                == "CACHE_DISK_SIZE"@ && a_value == units::size_text(c.cache_mem_size) && b_value
                == units::size_text(c.cache_disk_size))
            &&& sliced && fits && c.readahead_slices == 0 ==> (f matches Some(
                Fault::Invalid { setting, .. },
            ) && setting == "READAHEAD_SLICES"@)
            &&& sliced && fits && c.readahead_slices > 0 && c.upstream_max_inflight == 0 ==> (
            f matches Some(Fault::Invalid { setting, .. }) && setting == "UPSTREAM_MAX_INFLIGHT"@)
            &&& sliced && fits && c.readahead_slices > 0 && c.upstream_max_inflight > 0
                && c.upstream_dns@.len() == 0 ==> (f matches Some(Fault::Invalid { setting, .. })
                && setting == "UPSTREAM_DNS"@)
            &&& sliced && fits && works && (c.admin_port == c.http_port || c.admin_port
                == c.https_port) ==> (f matches Some(Fault::Invalid { setting, value, .. })
                && setting == "ADMIN_PORT"@ && value == text::decimal(c.admin_port as nat))
            &&& sliced && fits && works && c.admin_port != c.http_port && c.http_port
                == c.https_port ==> (f matches Some(Fault::Invalid { setting, value, .. })
                && setting == "HTTPS_PORT"@ && value == text::decimal(c.https_port as nat))
        }),
{
}

/// The stored data depends on the slice size that is configured, and on the format that is written.
pub proof fn stored_data_depends_on_the_slice_size(a: Config, b: Config)
    ensures
        a.stored_spec().slice_size == a.cache_slice_size,
        a.stored_spec() == b.stored_spec() <==> a.cache_slice_size == b.cache_slice_size,
{
}

} // verus!
