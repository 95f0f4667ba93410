//! When to fetch ahead.
use cachic::orchestrator::readahead::{Access, ReadaheadPolicy, MAX_TRACKED};
use cachic::store::slice::object_id;

#[test]
fn a_single_request_is_not_sequential() {
    let mut p = ReadaheadPolicy::new(8);
    assert_eq!(p.observe(object_id("/a"), 0, 0, 0), Access::Random);
}

#[test]
fn three_consecutive_ranges_are_sequential() {
    // Two is too eager: a client fetching a header and then a body looks sequential for one
    // step, and prefetching on that would be speculation on a single data point.
    let mut p = ReadaheadPolicy::new(8);
    let o = object_id("/a");
    assert_eq!(p.observe(o, 0, 0, 0), Access::Random, "first sighting");
    assert_eq!(
        p.observe(o, 1, 1, 0),
        Access::Random,
        "one step is not a pattern"
    );
    assert_eq!(
        p.observe(o, 2, 2, 0),
        Access::Random,
        "two steps is not a pattern"
    );
    assert_eq!(p.observe(o, 3, 3, 0), Access::Sequential);
}

#[test]
fn a_jump_resets_the_pattern() {
    // The Windows Update shape: scattered ranges into a large file. Prefetching around each
    // would multiply upstream traffic for content nobody reads.
    let mut p = ReadaheadPolicy::new(8);
    let o = object_id("/a");
    for i in 0..5 {
        p.observe(o, i, i, 0);
    }
    assert_eq!(p.observe(o, 5, 5, 0), Access::Sequential);
    assert_eq!(p.observe(o, 900, 900, 0), Access::Random, "a jump must reset");
    assert_eq!(p.observe(o, 901, 901, 0), Access::Random);
}

#[test]
fn multi_slice_ranges_chain_correctly() {
    let mut p = ReadaheadPolicy::new(8);
    let o = object_id("/a");
    assert_eq!(p.observe(o, 0, 3, 0), Access::Random);
    assert_eq!(p.observe(o, 4, 7, 0), Access::Random);
    assert_eq!(p.observe(o, 8, 11, 0), Access::Random);
    assert_eq!(p.observe(o, 12, 15, 0), Access::Sequential);
    assert_eq!(p.observe(o, 16, 19, 0), Access::Sequential);
}

#[test]
fn objects_are_tracked_independently() {
    let mut p = ReadaheadPolicy::new(8);
    let a = object_id("/a");
    let b = object_id("/b");
    for i in 0..4 {
        p.observe(a, i, i, 0);
    }
    assert_eq!(p.observe(a, 4, 4, 0), Access::Sequential);
    // Interleaving another object must not disturb the first.
    assert_eq!(p.observe(b, 100, 100, 0), Access::Random);
    assert_eq!(p.observe(a, 5, 5, 0), Access::Sequential);
}

#[test]
fn random_access_prefetches_nothing() {
    // The property that protects upstream amplification.
    let p = ReadaheadPolicy::new(8);
    assert!(p.prefetch(Access::Random, 5, 1000).is_empty());
}

#[test]
fn sequential_access_prefetches_the_window() {
    let p = ReadaheadPolicy::new(8);
    assert_eq!(p.prefetch(Access::Sequential, 5, 1000), 6..14);
}

#[test]
fn prefetch_never_runs_past_the_end_of_the_object() {
    let p = ReadaheadPolicy::new(8);
    assert_eq!(p.prefetch(Access::Sequential, 8, 10), 9..11);
    assert!(p.prefetch(Access::Sequential, 10, 10).is_empty());
    // And cannot overflow at the top of the index space.
    assert!(p
        .prefetch(Access::Sequential, u32::MAX, u32::MAX)
        .is_empty());
}

#[test]
fn a_zero_window_disables_prefetching_entirely() {
    let p = ReadaheadPolicy::new(0);
    assert!(p.prefetch(Access::Sequential, 5, 1000).is_empty());
}

#[test]
fn the_pattern_map_stays_bounded() {
    // Without expiry this grows with every object ever requested, which on a cache serving
    // millions of objects is a leak.
    let mut p = ReadaheadPolicy::new(8);
    for i in 0..2000u32 {
        p.observe(object_id(&format!("/obj-{i}")), 0, 0, 0);
    }
    assert!(
        p.tracked_count() <= MAX_TRACKED,
        "pattern map grew to {} entries against a cap of {MAX_TRACKED}",
        p.tracked_count()
    );
}

#[test]
fn requests_for_other_objects_make_no_difference() {
    let mut p = ReadaheadPolicy::new(8);
    let (a, b) = (object_id("/a"), object_id("/b"));
    let mut seen = Vec::new();
    for (first, last) in [(5, 5), (0, 1), (2, 2), (3, 3), (4, 4), (6, 6), (7, 7)] {
        p.observe(b, first * 7, last * 7, 10);
        seen.push(p.observe(a, first, last, 59_999) == Access::Sequential);
    }
    assert_eq!(seen, [false, false, false, false, true, false, false]);
    // The last slice that can be numbered is continued by itself.
    let c = object_id("/c");
    for _ in 0..3 {
        assert_eq!(p.observe(c, u32::MAX, u32::MAX, 0), Access::Random);
    }
    assert_eq!(p.observe(c, u32::MAX, u32::MAX, 0), Access::Sequential);
}
