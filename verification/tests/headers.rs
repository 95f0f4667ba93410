//! Headers, the heartbeat, and how many clients may connect.
use cachic::proxy::headers::{
    add_cache_headers, forwarded_request_headers, preserved_response_headers, CacheStatus,
    HeaderMap,
};
use cachic::proxy::heartbeat::{is_heartbeat, respond};
use cachic::proxy::limits::ConnectionLimit;
use cachic::proxy::shutdown::{Drain, DrainStep};

fn headers(pairs: &[(&str, &str)]) -> HeaderMap {
    let mut h = HeaderMap::new();
    for (k, v) in pairs {
        h.append(k, v.as_bytes());
    }
    h
}

#[test]
fn strips_hop_by_hop_headers() {
    let client = headers(&[
        ("user-agent", "Valve/Steam HTTP Client 1.0"),
        ("connection", "keep-alive"),
        ("transfer-encoding", "chunked"),
        ("accept", "*/*"),
    ]);
    let out = forwarded_request_headers(&client);
    assert!(out.get("connection").is_none());
    assert!(out.get("transfer-encoding").is_none());
    assert_eq!(out.get_text("accept").unwrap(), "*/*");
}

#[test]
fn forwards_the_user_agent() {
    // Several services vary on it; stripping it makes them behave differently through the
    // cache than without it.
    let client = headers(&[("user-agent", "Valve/Steam HTTP Client 1.0")]);
    let out = forwarded_request_headers(&client);
    assert_eq!(out.get_text("user-agent").unwrap(), "Valve/Steam HTTP Client 1.0");
}

#[test]
fn strips_headers_named_by_connection() {
    // RFC 9110: Connection can nominate further headers as hop-by-hop for this message.
    let client = headers(&[
        ("connection", "x-custom, keep-alive"),
        ("x-custom", "secret"),
        ("accept", "*/*"),
    ]);
    let out = forwarded_request_headers(&client);
    assert!(
        out.get("x-custom").is_none(),
        "connection-named header leaked"
    );
    assert!(out.get("accept").is_some());
}

#[test]
fn drops_host_and_range() {
    // Host would send the cache's own name upstream; Range is decided per slice.
    let client = headers(&[("host", "cache.lan"), ("range", "bytes=0-99")]);
    let out = forwarded_request_headers(&client);
    assert!(out.get("host").is_none());
    assert!(out.get("range").is_none());
}

#[test]
fn preserves_entity_headers() {
    let upstream = headers(&[
        ("etag", "\"abc\""),
        ("last-modified", "Wed, 21 Oct 2015 07:28:00 GMT"),
        ("content-type", "application/octet-stream"),
        ("server", "nginx"),
        ("date", "now"),
    ]);
    let out = preserved_response_headers(&upstream);
    assert_eq!(out.get_text("etag").unwrap(), "\"abc\"");
    assert!(out.get("last-modified").is_some());
    assert!(out.get("content-type").is_some());
    // Not entity headers; not our business to replay.
    assert!(out.get("server").is_none());
    assert!(out.get("date").is_none());
}

#[test]
fn classifies_cache_status() {
    assert_eq!(CacheStatus::classify(4, 4), CacheStatus::Hit);
    assert_eq!(CacheStatus::classify(0, 4), CacheStatus::Miss);
    assert_eq!(CacheStatus::classify(2, 4), CacheStatus::Partial);
    // A zero-length object is a hit, not a miss: there is nothing to fetch.
    assert_eq!(CacheStatus::classify(0, 0), CacheStatus::Hit);
}

#[test]
fn adds_the_ecosystem_headers() {
    let mut h = HeaderMap::new();
    add_cache_headers(&mut h, CacheStatus::Hit, "cache01");
    assert_eq!(h.get_text("x-cache").unwrap(), "HIT");
    assert_eq!(h.get_text("x-lancache-processed-by").unwrap(), "cache01");
}

#[test]
fn a_header_can_be_replaced_and_removed() {
    let mut h = headers(&[("Etag", "a"), ("x", "1"), ("ETAG", "b")]);
    assert_eq!(h.get_text("etag"), Some("a".into()));
    h.insert("etag", b"c");
    assert_eq!(h.get_text("etag"), Some("c".into()));
    assert_eq!(h.entries.len(), 2);
    h.remove("x");
    assert!(h.get("x").is_none());
    assert_eq!(h.entries.len(), 1);
}

#[test]
fn a_value_that_is_no_text_is_not_read_as_text() {
    let mut h = HeaderMap::new();
    h.append("host", &[0xff, 0x20]);
    assert!(h.get("host").is_some());
    assert_eq!(h.get_text("host"), None);
}

#[test]
fn cache_headers_replace_what_the_origin_sent() {
    let mut h = headers(&[("x-cache", "origin"), ("etag", "e")]);
    add_cache_headers(&mut h, CacheStatus::Partial, "cache01");
    assert_eq!(h.get_text("x-cache"), Some("PARTIAL".into()));
    assert_eq!(h.get_text("etag"), Some("e".into()));
    assert_eq!(CacheStatus::Bypass.as_str(), "BYPASS");
    assert_eq!(CacheStatus::Miss.as_str(), "MISS");
}

#[test]
fn recognises_the_heartbeat_path_exactly() {
    assert!(is_heartbeat("/lancache-heartbeat"));
    // Prefill tools request this exact path; being loose here would shadow a real object.
    assert!(!is_heartbeat("/lancache-heartbeat/"));
    assert!(!is_heartbeat("/lancache-heartbeat?x=1"));
    assert!(!is_heartbeat("/other"));
}

#[test]
fn responds_204_with_the_expected_headers() {
    let response = respond("cache01");
    assert_eq!(response.status, 204);
    let h = response.headers;
    assert_eq!(h.get_text("x-lancache-processed-by").unwrap(), "cache01");
    // Cache managers probe from a browser, so CORS must be permissive.
    assert_eq!(h.get_text("access-control-allow-origin").unwrap(), "*");
}

#[test]
fn a_host_name_that_cannot_stand_in_a_header_is_left_out() {
    let h = respond("a\nb").headers;
    assert!(h.get("x-lancache-processed-by").is_none());
    assert_eq!(h.entries.len(), 3);
}

#[test]
fn permits_are_returned_when_dropped() {
    let mut limit = ConnectionLimit::new(2);
    let a = limit.try_acquire().unwrap();
    let b = limit.try_acquire().unwrap();
    assert_eq!(limit.open(), 2);
    assert!(limit.try_acquire().is_none());
    limit.release(a);
    assert_eq!(limit.open(), 1);
    assert!(limit.try_acquire().is_some());
    limit.release(b);
}

#[test]
fn rejections_are_counted_for_metrics() {
    let mut limit = ConnectionLimit::new(1);
    let _held = limit.try_acquire().unwrap();
    assert!(limit.try_acquire().is_none());
    assert!(limit.try_acquire().is_none());
    assert_eq!(limit.rejected(), 2);
}

#[test]
fn a_zero_limit_refuses_everything_rather_than_panicking() {
    let mut limit = ConnectionLimit::new(0);
    assert!(limit.try_acquire().is_none());
}

#[test]
fn an_idle_process_drains_immediately() {
    let mut drain = Drain::new();
    assert!(drain.begin());
    assert_eq!(drain.step(false), DrainStep::Done);
}

#[test]
fn draining_waits_for_in_flight_work() {
    let mut drain = Drain::new();
    let guard = drain.enter().unwrap();
    assert_eq!(drain.inflight(), 1);
    assert!(!drain.begin());
    assert_eq!(drain.step(false), DrainStep::Wait);
    assert!(drain.leave(guard));
    assert_eq!(drain.step(false), DrainStep::Done);
}

#[test]
fn a_hung_task_cannot_prevent_exit() {
    let mut drain = Drain::new();
    let _stuck = drain.enter().unwrap();
    drain.begin();
    assert_eq!(drain.step(true), DrainStep::GiveUp);
}

#[test]
fn new_work_is_refused_once_draining() {
    let mut drain = Drain::new();
    assert!(drain.enter().is_some());
    drain.begin();
    assert!(drain.is_draining());
    assert!(
        drain.enter().is_none(),
        "accepting new work during a drain extends it indefinitely"
    );
}

#[test]
fn in_flight_fills_may_still_be_registered_during_a_drain() {
    let mut drain = Drain::new();
    drain.begin();
    let guard = drain.enter_unconditional();
    assert_eq!(drain.inflight(), 1);
    assert!(drain.leave(guard));
}

#[test]
fn names_are_the_same_in_any_case() {
    let mut h = headers(&[("ETag", "a"), ("x", "1")]);
    assert_eq!(h.get("ETAG"), Some(&b"a"[..]));
    assert_eq!(h.get_text("Etag"), Some("a".into()));
    h.insert("ETAG", b"b");
    assert_eq!(h.get_text("etag"), Some("b".into()));
    assert_eq!(h.entries.len(), 2);
    h.remove("eTag");
    assert!(h.get("etag").is_none());
    assert_eq!(h.entries.len(), 1);
}
