//! What a load run measured.
use cachic::testkit::loadgen::{Collector, Report};

const MS: u64 = 1_000_000;

fn report(samples: &[u64], bytes: u64, nanos: u64) -> Report {
    let mut c = Collector::new();
    for ms in samples {
        c.record(bytes / samples.len().max(1) as u64, *ms * MS);
    }
    c.finish(nanos)
}

#[test]
fn percentiles_are_exact_not_estimated() {
    // 100 samples, 1..=100 ms. An approximate p99 is the number you cannot trust when
    // chasing a latency regression.
    let samples: Vec<u64> = (1..=100).collect();
    let r = report(&samples, 100, 1_000 * MS);
    assert_eq!(r.ttfb_percentile(500), 50 * MS);
    // Nearest-rank: the 99th of 100 sorted samples, so 99 ms rather than the maximum. A p99
    // that returns the maximum is really p100 and hides the tail it exists to expose.
    assert_eq!(r.ttfb_percentile(990), 99 * MS);
    assert_eq!(r.ttfb_percentile(0), MS, "p0 is the fastest sample");
    assert_eq!(r.ttfb_percentile(1000), 100 * MS, "p100 is the slowest sample");
    assert_eq!(r.ttfb_percentile(5000), 100 * MS);
}

#[test]
fn handles_an_empty_run_without_dividing_by_zero() {
    let r = Collector::new().finish(0);
    assert_eq!(r.ttfb_percentile(990), 0);
    assert_eq!(r.requests, 0);
}

#[test]
fn samples_are_sorted_so_percentiles_do_not_depend_on_arrival_order() {
    let a = report(&[100, 1, 50, 2], 4, 1_000 * MS);
    let b = report(&[1, 2, 50, 100], 4, 1_000 * MS);
    assert_eq!(a.ttfb_percentile(500), b.ttfb_percentile(500));
    assert_eq!(a, b);
}

#[test]
fn a_run_is_summed_up() {
    let r = report(&[4, 3, 2, 1], 1_000_000_000, 7);
    assert_eq!(r.requests, 4);
    assert_eq!(r.bytes, 1_000_000_000);
    assert_eq!(r.elapsed, 7);
    assert_eq!(r.ttfb, vec![MS, 2 * MS, 3 * MS, 4 * MS]);
}
