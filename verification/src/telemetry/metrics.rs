//! Which metrics there are.
//!
//! Labels are bounded by construction. Service names come from a closed list of a few dozen; paths,
//! hosts and client addresses are unbounded and must never become labels. An unbounded label grows
//! the scrape and the memory of the server without limit.
//!
//! The label is `cdn_service`, not `service`: monitoring stacks attach a `service` label of their
//! own, and on collision rename this one, which collapses every per-service breakdown into one flat
//! series.
use crate::proxy::headers::CacheStatus;
use vstd::prelude::*;

verus! {

/// Cache status label values. Closed set, matching `X-Cache`.
pub const CACHE_STATUSES: [&'static str; 4] = ["HIT", "MISS", "PARTIAL", "BYPASS"];

#[derive(Debug, Clone, Copy, PartialEq, Eq, Structural)]
pub enum MetricKind {
    Counter,
    Gauge,
    Histogram,
}

/// A metric, before anything is recorded.
#[derive(Debug, PartialEq, Eq)]
pub struct Metric {
    pub name: &'static str,
    pub help: &'static str,
    pub kind: MetricKind,
    pub labels: Vec<&'static str>,
    /// The upper bounds of a histogram, in thousandths of a second.
    pub buckets: Vec<u64>,
}

/// A metric as its definition is stated.
#[verifier::ext_equal]
pub struct Definition {
    pub name: Seq<char>,
    pub help: Seq<char>,
    pub kind: MetricKind,
    pub labels: Seq<Seq<char>>,
    pub buckets: Seq<u64>,
}

pub open spec fn strs(v: Seq<&'static str>) -> Seq<Seq<char>> {
    v.map_values(|s: &'static str| s@)
}

impl View for Metric {
    type V = Definition;

    open spec fn view(&self) -> Definition {
        Definition {
            name: self.name@,
            help: self.help@,
            kind: self.kind,
            labels: strs(self.labels@),
            buckets: self.buckets@,
        }
    }
}

pub open spec fn entry(
    name: Seq<char>,
    help: Seq<char>,
    kind: MetricKind,
    labels: Seq<Seq<char>>,
    buckets: Seq<u64>,
) -> Definition {
    Definition { name, help, kind, labels, buckets }
}

pub open spec fn no_labels() -> Seq<Seq<char>> {
    Seq::empty()
}

pub open spec fn by_service() -> Seq<Seq<char>> {
    seq!["cdn_service"@]
}

pub open spec fn by_service_and(label: Seq<char>) -> Seq<Seq<char>> {
    seq!["cdn_service"@, label]
}

/// From an origin on the same network to a slow fetch across the world.
pub open spec fn upstream_buckets() -> Seq<u64> {
    seq![5, 10, 25, 50, 100, 250, 500, 1000, 2500, 5000, 10000, 30000]
}

/// A cache hit lands in the first few; the long tail is a cold fill of a large range.
pub open spec fn request_buckets() -> Seq<u64> {
    seq![1, 5, 10, 25, 50, 100, 250, 500, 1000, 2500, 5000, 10000, 30000, 60000]
}

/// Every metric that is recorded here.
pub open spec fn catalogue() -> Seq<Definition> {
    seq![
        entry("cachic_requests_total"@, "Client requests by service and cache status"@, MetricKind::Counter, by_service_and("status"@), Seq::empty()),
        entry("cachic_bytes_served_total"@, "Bytes served to clients by service and cache status"@, MetricKind::Counter, by_service_and("status"@), Seq::empty()),
        entry("cachic_bytes_fetched_total"@, "Bytes fetched from origins by service"@, MetricKind::Counter, by_service(), Seq::empty()),
        entry("cachic_upstream_seconds"@, "Upstream slice fetch latency in seconds"@, MetricKind::Histogram, by_service(), upstream_buckets()),
        entry("cachic_upstream_inflight"@, "Slice fetches currently in flight"@, MetricKind::Gauge, no_labels(), Seq::empty()),
        entry("cachic_checksum_failures_total"@, "Slices whose checksum failed verification on read"@, MetricKind::Counter, by_service(), Seq::empty()),
        entry("cachic_generation_bumps_total"@, "Objects invalidated because their validators changed"@, MetricKind::Counter, by_service(), Seq::empty()),
        entry("cachic_upstream_guard_refusals_total"@, "Upstream fetches refused by the address guard, by reason"@, MetricKind::Counter, seq!["reason"@], Seq::empty()),
        entry("cachic_client_connections"@, "Open client connections"@, MetricKind::Gauge, no_labels(), Seq::empty()),
        entry("cachic_request_seconds"@, "End-to-end request service time in seconds"@, MetricKind::Histogram, by_service_and("status"@), request_buckets()),
        entry("cachic_responses_total"@, "Responses by service and HTTP status code"@, MetricKind::Counter, by_service_and("code"@), Seq::empty()),
        entry("cachic_upstream_errors_total"@, "Upstream failures by service and kind"@, MetricKind::Counter, by_service_and("kind"@), Seq::empty()),
        entry("cachic_stale_responses_total"@, "Responses served from cache because the origin failed"@, MetricKind::Counter, by_service(), Seq::empty()),
        entry("cachic_upstream_inflight_service"@, "Slice fetches in flight per service"@, MetricKind::Gauge, by_service(), Seq::empty()),
        entry("cachic_upstream_limit_service"@, "Configured concurrent upstream fetch ceiling per service"@, MetricKind::Gauge, by_service(), Seq::empty()),
        entry("cachic_requests_in_flight"@, "Requests currently being served"@, MetricKind::Gauge, no_labels(), Seq::empty()),
        entry("cachic_draining"@, "1 while draining, 0 otherwise"@, MetricKind::Gauge, no_labels(), Seq::empty()),
        entry("cachic_store_capacity_bytes"@, "Disk tier capacity after the free-space guard"@, MetricKind::Gauge, no_labels(), Seq::empty()),
        entry("cachic_disk_available_bytes"@, "Free space on the filesystem backing the cache"@, MetricKind::Gauge, no_labels(), Seq::empty()),
        entry("cachic_disk_total_bytes"@, "Total size of the filesystem backing the cache"@, MetricKind::Gauge, no_labels(), Seq::empty()),
        entry("cachic_disk_guard_engaged"@, "1 while the free-space guard is clamping the configured disk size"@, MetricKind::Gauge, no_labels(), Seq::empty()),
        entry("cachic_index_objects"@, "Objects in the index"@, MetricKind::Gauge, no_labels(), Seq::empty()),
        entry("cachic_index_bytes"@, "Bytes accounted for by indexed objects"@, MetricKind::Gauge, no_labels(), Seq::empty()),
    ]
}

pub open spec fn definitions(metrics: Seq<Metric>) -> Seq<Definition> {
    metrics.map_values(|m: Metric| m@)
}

/// Every metric that is recorded here, in the order of registration.
pub fn all_metrics() -> (out: Vec<Metric>)
    ensures
        definitions(out@) == catalogue(),
{
    let mut metrics: Vec<Metric> = Vec::new();
    metrics.push(
        Metric {
            name: "cachic_requests_total",
            help: "Client requests by service and cache status",
            kind: MetricKind::Counter,
            labels: vec!["cdn_service", "status"],
            buckets: Vec::new(),
        },
    );
    metrics.push(
        Metric {
            name: "cachic_bytes_served_total",
            help: "Bytes served to clients by service and cache status",
            kind: MetricKind::Counter,
            labels: vec!["cdn_service", "status"],
            buckets: Vec::new(),
        },
    );
    metrics.push(
        Metric {
            name: "cachic_bytes_fetched_total",
            help: "Bytes fetched from origins by service",
            kind: MetricKind::Counter,
            labels: vec!["cdn_service"],
            buckets: Vec::new(),
        },
    );
    metrics.push(
        Metric {
            name: "cachic_upstream_seconds",
            help: "Upstream slice fetch latency in seconds",
            kind: MetricKind::Histogram,
            labels: vec!["cdn_service"],
            buckets: vec![5, 10, 25, 50, 100, 250, 500, 1000, 2500, 5000, 10000, 30000],
        },
    );
    metrics.push(
        Metric {
            name: "cachic_upstream_inflight",
            help: "Slice fetches currently in flight",
            kind: MetricKind::Gauge,
            labels: Vec::new(),
            buckets: Vec::new(),
        },
    );
    metrics.push(
        Metric {
            name: "cachic_checksum_failures_total",
            help: "Slices whose checksum failed verification on read",
            kind: MetricKind::Counter,
            labels: vec!["cdn_service"],
            buckets: Vec::new(),
        },
    );
    metrics.push(
        Metric {
            name: "cachic_generation_bumps_total",
            help: "Objects invalidated because their validators changed",
            kind: MetricKind::Counter,
            labels: vec!["cdn_service"],
            buckets: Vec::new(),
        },
    );
    metrics.push(
        Metric {
            name: "cachic_upstream_guard_refusals_total",
            help: "Upstream fetches refused by the address guard, by reason",
            kind: MetricKind::Counter,
            labels: vec!["reason"],
            buckets: Vec::new(),
        },
    );
    metrics.push(
        Metric {
            name: "cachic_client_connections",
            help: "Open client connections",
            kind: MetricKind::Gauge,
            labels: Vec::new(),
            buckets: Vec::new(),
        },
    );
    metrics.push(
        Metric {
            name: "cachic_request_seconds",
            help: "End-to-end request service time in seconds",
            kind: MetricKind::Histogram,
            labels: vec!["cdn_service", "status"],
            buckets: vec![1, 5, 10, 25, 50, 100, 250, 500, 1000, 2500, 5000, 10000, 30000, 60000],
        },
    );
    metrics.push(
        Metric {
            name: "cachic_responses_total",
            help: "Responses by service and HTTP status code",
            kind: MetricKind::Counter,
            labels: vec!["cdn_service", "code"],
            buckets: Vec::new(),
        },
    );
    metrics.push(
        Metric {
            name: "cachic_upstream_errors_total",
            help: "Upstream failures by service and kind",
            kind: MetricKind::Counter,
            labels: vec!["cdn_service", "kind"],
            buckets: Vec::new(),
        },
    );
    metrics.push(
        Metric {
            name: "cachic_stale_responses_total",
            help: "Responses served from cache because the origin failed",
            kind: MetricKind::Counter,
            labels: vec!["cdn_service"],
            buckets: Vec::new(),
        },
    );
    metrics.push(
        Metric {
            name: "cachic_upstream_inflight_service",
            help: "Slice fetches in flight per service",
            kind: MetricKind::Gauge,
            labels: vec!["cdn_service"],
            buckets: Vec::new(),
        },
    );
    metrics.push(
        Metric {
            name: "cachic_upstream_limit_service",
            help: "Configured concurrent upstream fetch ceiling per service",
            kind: MetricKind::Gauge,
            labels: vec!["cdn_service"],
            buckets: Vec::new(),
        },
    );
    metrics.push(
        Metric {
            name: "cachic_requests_in_flight",
            help: "Requests currently being served",
            kind: MetricKind::Gauge,
            labels: Vec::new(),
            buckets: Vec::new(),
        },
    );
    metrics.push(
        Metric {
            name: "cachic_draining",
            help: "1 while draining, 0 otherwise",
            kind: MetricKind::Gauge,
            labels: Vec::new(),
            buckets: Vec::new(),
        },
    );
    metrics.push(
        Metric {
            name: "cachic_store_capacity_bytes",
            help: "Disk tier capacity after the free-space guard",
            kind: MetricKind::Gauge,
            labels: Vec::new(),
            buckets: Vec::new(),
        },
    );
    metrics.push(
        Metric {
            name: "cachic_disk_available_bytes",
            help: "Free space on the filesystem backing the cache",
            kind: MetricKind::Gauge,
            labels: Vec::new(),
            buckets: Vec::new(),
        },
    );
    metrics.push(
        Metric {
            name: "cachic_disk_total_bytes",
            help: "Total size of the filesystem backing the cache",
            kind: MetricKind::Gauge,
            labels: Vec::new(),
            buckets: Vec::new(),
        },
    );
    metrics.push(
        Metric {
            name: "cachic_disk_guard_engaged",
            help: "1 while the free-space guard is clamping the configured disk size",
            kind: MetricKind::Gauge,
            labels: Vec::new(),
            buckets: Vec::new(),
        },
    );
    metrics.push(
        Metric {
            name: "cachic_index_objects",
            help: "Objects in the index",
            kind: MetricKind::Gauge,
            labels: Vec::new(),
            buckets: Vec::new(),
        },
    );
    metrics.push(
        Metric {
            name: "cachic_index_bytes",
            help: "Bytes accounted for by indexed objects",
            kind: MetricKind::Gauge,
            labels: Vec::new(),
            buckets: Vec::new(),
        },
    );
    assert(definitions(metrics@) =~~= catalogue());
    metrics
}

/// The labels that occur.
pub open spec fn is_label(name: Seq<char>) -> bool {
    name == "cdn_service"@ || name == "status"@ || name == "code"@ || name == "kind"@ || name
        == "reason"@
}

/// Every label is one of a few, and none is the one that monitoring stacks take for themselves.
pub proof fn labels_are_closed(metric: int, label: int)
    requires
        0 <= metric < catalogue().len(),
        0 <= label < catalogue()[metric].labels.len(),
    ensures
        is_label(catalogue()[metric].labels[label]),
        catalogue()[metric].labels[label] != "service"@,
{
    reveal_strlit("cdn_service");
    reveal_strlit("status");
    reveal_strlit("code");
    reveal_strlit("kind");
    reveal_strlit("reason");
    reveal_strlit("service");
    assert("status"@.len() == 6 && "code"@.len() == 4 && "kind"@.len() == 4);
    assert("reason"@.len() == 6 && "service"@.len() == 7 && "cdn_service"@.len() == 11);
}

/// The bounds of a histogram grow, and only histograms have any.
pub proof fn buckets_grow(metric: int, i: int, j: int)
    requires
        0 <= metric < catalogue().len(),
        0 <= i < j < catalogue()[metric].buckets.len(),
    ensures
        catalogue()[metric].kind == MetricKind::Histogram,
        catalogue()[metric].buckets[i] < catalogue()[metric].buckets[j],
{
}

/// What is recorded as the cache status of a request is always one of the known values.
pub proof fn statuses_are_closed(status: CacheStatus)
    ensures
        exists|i: int| 0 <= i < 4 && #[trigger] CACHE_STATUSES@[i]@ == status.name(),
{
    assert(CACHE_STATUSES@[0]@ == CacheStatus::Hit.name());
    assert(CACHE_STATUSES@[1]@ == CacheStatus::Miss.name());
    assert(CACHE_STATUSES@[2]@ == CacheStatus::Partial.name());
    assert(CACHE_STATUSES@[3]@ == CacheStatus::Bypass.name());
}

} // verus!
