//! The access log, the metrics and the levels.
use std::collections::HashMap;

use cachic::proxy::shutdown::Drain;
use cachic::store::space::DiskSpace;
use cachic::telemetry::logs::{civil_date, clf_timestamp, AccessEvent, Date, FIVE_DIGIT_YEARS};
use cachic::telemetry::metrics::{all_metrics, MetricKind, CACHE_STATUSES};
use cachic::telemetry::sampler::{sample, Ceiling, DiskLevels, Inputs, ServiceLevels};
use prometheus::{
    HistogramOpts, HistogramVec, IntCounterVec, IntGaugeVec, Opts, Registry, TextEncoder,
};

fn event() -> AccessEvent {
    AccessEvent {
        client_ip: "192.168.1.50".into(),
        service: "steam".into(),
        host: "lancache.steamcontent.com".into(),
        method: "GET".into(),
        path: "/depot/1/chunk".into(),
        range: Some("bytes=0-1023".into()),
        status: 206,
        bytes: 1024,
        cache_status: "HIT".into(),
        upstream_nanos: 0,
        user_agent: Some("Valve/Steam HTTP Client 1.0".into()),
        timestamp: clf_timestamp(1_756_800_000),
    }
}

#[test]
fn lancache_format_carries_the_fields_dashboards_parse() {
    // Existing dashboards parse this positionally, so this test exists to make the format
    // hard to change by accident.
    let line = event().to_lancache();
    assert!(line.starts_with("[steam] 192.168.1.50"), "{line}");
    assert!(line.contains("\"GET /depot/1/chunk HTTP/1.1\""), "{line}");
    assert!(line.contains(" 206 1024 "), "{line}");
    assert!(line.contains("\"HIT\""), "{line}");
    assert!(line.contains("Valve/Steam HTTP Client 1.0"), "{line}");
    assert_eq!(
        line,
        "[steam] 192.168.1.50 / - - - [02/Sep/2025:08:00:00 +0000] \"GET /depot/1/chunk HTTP/1.1\" 206 1024 \"-\" \"Valve/Steam HTTP Client 1.0\" \"HIT\""
    );
}

#[test]
fn an_absent_user_agent_renders_as_a_dash_not_empty() {
    // A positional parser given an empty field shifts every field after it.
    let mut e = event();
    e.user_agent = None;
    let line = e.to_lancache();
    assert!(line.contains("\"-\" \"HIT\""), "{line}");
}

#[test]
fn formats_common_log_timestamps() {
    // Spot values across a leap year and a century boundary, since the civil-from-days
    // algorithm is exactly where a hand-rolled date formatter goes wrong.
    assert_eq!(clf_timestamp(0), "01/Jan/1970:00:00:00 +0000");
    assert_eq!(clf_timestamp(86_399), "01/Jan/1970:23:59:59 +0000");
    assert_eq!(clf_timestamp(86_400), "02/Jan/1970:00:00:00 +0000");
    // 2000-02-29, a leap year despite being divisible by 100.
    assert_eq!(clf_timestamp(951_782_400), "29/Feb/2000:00:00:00 +0000");
    // 2024-02-29, an ordinary leap year.
    assert_eq!(clf_timestamp(1_709_164_800), "29/Feb/2024:00:00:00 +0000");
    assert_eq!(clf_timestamp(1_735_689_600), "01/Jan/2025:00:00:00 +0000");
}

#[test]
fn the_timestamp_appears_where_dashboards_expect_it() {
    let line = event().to_lancache();
    assert!(
        line.contains("[02/Sep/2025:"),
        "timestamp missing or misplaced: {line}"
    );
}

#[test]
fn the_two_formats_are_independent() {
    // Neither is derived from the other: JSON is the supported output.
    let e = event();
    let lancache = e.to_lancache();
    assert!(!lancache.contains("upstream_seconds"));
    assert!(!lancache.contains("cache="));
}

#[test]
fn days_follow_one_another() {
    let date = |year: u64, month: u64, day: u64| Date { year, month, day };
    assert_eq!(civil_date(0), date(1970, 1, 1));
    // 2100 is no leap year.
    assert_eq!(civil_date(47_540), date(2100, 2, 28));
    assert_eq!(civil_date(47_541), date(2100, 3, 1));
    let mut last = civil_date(0);
    for days in 1..60_000u64 {
        let next = civil_date(days);
        let same_month = next.year == last.year && next.month == last.month;
        assert!(
            if same_month {
                next.day == last.day + 1
            } else {
                next.day == 1 && last.day >= 28
            },
            "{last:?} {next:?}"
        );
        last = next;
    }
    assert_eq!(
        clf_timestamp(u64::MAX),
        format!("{}{}", &clf_timestamp(u64::MAX)[..7], "584554051223:07:00:15 +0000")
    );
}

#[test]
fn every_metric_is_registered() {
    let metrics = all_metrics();
    let names: Vec<&str> = metrics.iter().map(|m| m.name).collect();
    for name in [
        "cachic_requests_total",
        "cachic_bytes_served_total",
        "cachic_bytes_fetched_total",
        "cachic_upstream_seconds",
        "cachic_upstream_inflight",
        "cachic_checksum_failures_total",
        "cachic_generation_bumps_total",
        "cachic_upstream_guard_refusals_total",
        "cachic_client_connections",
        "cachic_request_seconds",
        "cachic_responses_total",
        "cachic_upstream_errors_total",
        "cachic_stale_responses_total",
        "cachic_upstream_inflight_service",
        "cachic_upstream_limit_service",
        "cachic_requests_in_flight",
        "cachic_draining",
        "cachic_store_capacity_bytes",
        "cachic_disk_available_bytes",
        "cachic_disk_total_bytes",
        "cachic_disk_guard_engaged",
        "cachic_index_objects",
        "cachic_index_bytes",
    ] {
        assert!(names.contains(&name), "{name} is not there");
        assert_eq!(names.iter().filter(|n| **n == name).count(), 1);
    }
    assert_eq!(names.len(), 23);
}

/// The catalogue in a registry, each metric by its name.
struct Registered {
    registry: Registry,
    counters: HashMap<&'static str, IntCounterVec>,
    histograms: HashMap<&'static str, HistogramVec>,
}

fn registered() -> Registered {
    let mut out = Registered {
        registry: Registry::new(),
        counters: HashMap::new(),
        histograms: HashMap::new(),
    };
    for m in all_metrics() {
        let opts = Opts::new(m.name, m.help);
        match m.kind {
            MetricKind::Counter => {
                let counter = IntCounterVec::new(opts, &m.labels).unwrap();
                out.registry.register(Box::new(counter.clone())).unwrap();
                out.counters.insert(m.name, counter);
            }
            MetricKind::Gauge => {
                let gauge = IntGaugeVec::new(opts, &m.labels).unwrap();
                out.registry.register(Box::new(gauge)).unwrap();
            }
            MetricKind::Histogram => {
                let buckets = m.buckets.iter().map(|ms| *ms as f64 / 1000.0).collect();
                let opts = HistogramOpts::from(opts).buckets(buckets);
                let histogram = HistogramVec::new(opts, &m.labels).unwrap();
                out.registry.register(Box::new(histogram.clone())).unwrap();
                out.histograms.insert(m.name, histogram);
            }
        }
    }
    out
}

impl Registered {
    fn render(&self) -> String {
        TextEncoder::new()
            .encode_to_string(&self.registry.gather())
            .unwrap()
    }
}

#[test]
fn no_metric_uses_a_label_prometheus_will_take_for_itself() {
    const RESERVED: &[&str] = &["service", "job", "instance", "pod", "namespace", "container"];
    for metric in all_metrics() {
        for label in metric.labels {
            assert!(!RESERVED.contains(&label), "{}: {label}", metric.name);
        }
    }
    let m = registered();
    m.counters["cachic_requests_total"]
        .with_label_values(&["steam", "HIT"])
        .inc();
    m.counters["cachic_bytes_fetched_total"]
        .with_label_values(&["steam"])
        .inc_by(1);
    m.histograms["cachic_upstream_seconds"]
        .with_label_values(&["steam"])
        .observe(0.1);
    let text = m.render();
    for line in text.lines().filter(|l| !l.starts_with('#')) {
        let Some(labels) = line
            .split_once('{')
            .and_then(|(_, rest)| rest.rsplit_once('}'))
            .map(|(labels, _)| labels)
        else {
            continue;
        };
        for pair in labels.split(',') {
            let name = pair.split('=').next().unwrap_or("").trim();
            assert!(!RESERVED.contains(&name), "{line}");
        }
    }
}

#[test]
fn label_sets_are_closed() {
    // Service names come from a closed list, statuses are the four `X-Cache` values. Nothing here
    // takes a URL, a host or a client address.
    assert_eq!(CACHE_STATUSES, ["HIT", "MISS", "PARTIAL", "BYPASS"]);
    for metric in all_metrics() {
        for label in metric.labels {
            assert!(["cdn_service", "status", "code", "kind", "reason"].contains(&label));
        }
    }
    let m = registered();
    for status in CACHE_STATUSES {
        m.counters["cachic_requests_total"]
            .with_label_values(&["steam", status])
            .inc();
    }
    let text = m.render();
    // One series per status, and no others.
    let series = text
        .lines()
        .filter(|l| l.starts_with("cachic_requests_total{"))
        .count();
    assert_eq!(series, CACHE_STATUSES.len());
    assert!(
        !text.contains("url=") && !text.contains("path=") && !text.contains("client="),
        "an unbounded label has appeared: {text}"
    );
}

#[test]
fn upstream_latency_buckets_span_lan_to_slow_wan() {
    let metrics = all_metrics();
    let m = metrics
        .iter()
        .find(|m| m.name == "cachic_upstream_seconds")
        .unwrap();
    assert_eq!(m.kind, MetricKind::Histogram);
    assert_eq!(m.buckets.first(), Some(&5));
    assert_eq!(m.buckets.last(), Some(&30_000));

    let m = registered();
    let seconds = m.histograms["cachic_upstream_seconds"].with_label_values(&["steam"]);
    seconds.observe(0.003);
    seconds.observe(12.0);
    let text = m.render();
    assert!(text.contains("le=\"0.005\""), "no fast bucket: {text}");
    assert!(text.contains("le=\"30\""), "no slow bucket: {text}");
}

#[test]
fn levels_are_read_off() {
    let mut drain = Drain::new();
    let _a = drain.enter().unwrap();
    drain.begin();
    let levels = sample(
        &Inputs {
            objects: Some(7),
            indexed_bytes: Some(20),
            disk: Some(DiskSpace {
                total: 500,
                available: 30,
            }),
            configured_disk_bytes: 100,
            min_free_bytes: 10,
            ceilings: vec![
                Ceiling {
                    service: "steam".into(),
                    limit: 8,
                    available: Some(3),
                },
                Ceiling {
                    service: "riot".into(),
                    limit: 2,
                    available: None,
                },
                Ceiling {
                    service: "wsus".into(),
                    limit: 2,
                    available: Some(9),
                },
            ],
        },
        &drain,
    );
    assert_eq!(levels.requests_in_flight, 1);
    assert_eq!(levels.draining, 1);
    assert_eq!((levels.index_objects, levels.index_bytes), (7, 20));
    assert_eq!(
        levels.disk,
        Some(DiskLevels {
            total_bytes: 500,
            available_bytes: 30,
            capacity_bytes: 40,
            guard_engaged: 1
        })
    );
    let service = |name: &str, limit: i64, inflight: Option<i64>| ServiceLevels {
        service: name.into(),
        limit,
        inflight,
    };
    assert_eq!(
        levels.services,
        vec![
            service("steam", 8, Some(5)),
            service("riot", 2, None),
            service("wsus", 2, Some(0))
        ]
    );
}

#[test]
fn what_cannot_be_read_counts_as_nothing() {
    let levels = sample(
        &Inputs {
            objects: None,
            indexed_bytes: None,
            disk: None,
            configured_disk_bytes: 1,
            min_free_bytes: 1,
            ceilings: Vec::new(),
        },
        &Drain::new(),
    );
    assert_eq!((levels.index_objects, levels.index_bytes), (0, 0));
    assert_eq!(levels.disk, None);
    assert_eq!(levels.draining, 0);
}

#[test]
fn timestamps_have_one_width_up_to_the_year_10000() {
    assert_eq!(clf_timestamp(253_402_300_799), "31/Dec/9999:23:59:59 +0000");
    assert_eq!(clf_timestamp(253_402_300_800), "01/Jan/10000:00:00:00 +0000");
    let mut last = String::new();
    for seconds in (0..FIVE_DIGIT_YEARS).step_by(99_999_937) {
        let now = clf_timestamp(seconds);
        assert_eq!(now.len(), 26, "{now}");
        assert_ne!(now, clf_timestamp(seconds + 1));
        assert_ne!(now, last);
        last = now;
    }
}
