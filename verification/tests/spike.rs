//! The prototype.
use cachic::proxy::headers::{CacheStatus, HeaderMap};
use cachic::proxy::range::{ByteRange, RangeSpec};
use cachic::proxy::server::Request;
use cachic::spike::proxy::{
    accept_slice, begin_fetch, begin_fill, begin_probe, cut, extent, fill_refused, head, last_index,
    probe, route, Extent, ObjectMeta, ProxyStats, Route,
};
use cachic::spike::store::StoreConfig;
use cachic::store::slice::object_id;
use cachic::upstream::client::UpstreamResponse;

fn response(status: u16, pairs: &[(&str, &str)], body: &[u8]) -> UpstreamResponse {
    let mut headers = HeaderMap::new();
    for (name, value) in pairs {
        headers.append(name, value.as_bytes());
    }
    UpstreamResponse {
        status,
        headers,
        body: body.to_vec(),
    }
}

fn request(method: &str, path: &str, range: Option<&str>) -> Request {
    let mut headers = HeaderMap::new();
    if let Some(range) = range {
        headers.append("range", range.as_bytes());
    }
    Request {
        method: method.into(),
        path: path.into(),
        path_and_query: None,
        headers,
    }
}

fn meta(total_len: u64) -> ObjectMeta {
    ObjectMeta {
        total_len,
        generation: 0,
        etag: Some("\"v1\"".into()),
        last_modified: None,
        content_type: None,
        no_ranges: false,
    }
}

#[test]
fn a_probe_tells_what_the_origin_can_do() {
    let mut stats = ProxyStats::default();
    let part = response(
        206,
        &[("content-range", "bytes 0-3/10"), ("etag", "\"v1\"")],
        b"0123",
    );
    begin_probe(&mut stats);
    let p = probe(4, part, None, &mut stats).unwrap();
    assert_eq!(p.meta, meta(10));
    assert_eq!(p.slice.unwrap().payload, b"0123");
    assert_eq!((stats.probes, stats.upstream_slice_fetches), (1, 1));

    let past = response(416, &[("content-range", "bytes */10")], b"");
    let p = probe(4, past, None, &mut stats).unwrap();
    assert_eq!((p.meta.total_len, p.meta.no_ranges), (10, false));
    assert!(p.slice.is_none());

    let p = probe(4, response(200, &[], b"0123456789"), Some(10), &mut stats).unwrap();
    assert_eq!((p.meta.total_len, p.meta.no_ranges), (10, true));

    let mut why = |r, len| {
        begin_probe(&mut stats);
        probe(4, r, len, &mut stats).unwrap_err()
    };
    assert_eq!(
        why(response(206, &[], b""), None),
        "206 without a usable Content-Range"
    );
    assert_eq!(
        why(response(416, &[], b""), None),
        "416 without a usable Content-Range"
    );
    assert_eq!(
        why(response(200, &[], b""), None),
        "200 without Content-Length; cannot slice"
    );
    assert_eq!(
        why(response(404, &[], b""), None),
        "probe failed: upstream returned 404 Not Found"
    );
    assert_eq!((stats.probes, stats.upstream_slice_fetches), (5, 1));
    begin_fetch(&mut stats);
    assert_eq!((stats.probes, stats.upstream_slice_fetches), (5, 2));
}

#[test]
fn a_slice_that_is_not_right_is_refused() {
    let ok = response(206, &[("etag", "\"v1\"")], b"0123");
    assert_eq!(accept_slice(&meta(10), 0, 4, ok).unwrap().payload, b"0123");
    let why = |r| accept_slice(&meta(10), 2, 4, r).unwrap_err();
    assert_eq!(
        why(response(200, &[], b"")),
        "slice 2: expected 206, upstream returned 200 OK"
    );
    assert_eq!(
        why(response(206, &[], b"")),
        "slice 2: validator changed mid-object (Some(\"\\\"v1\\\"\") -> None)"
    );
    assert_eq!(
        why(response(206, &[("etag", "\"v1\"")], b"012")),
        "slice 2: expected 2 bytes, upstream sent 3"
    );
}

#[test]
fn requests_are_routed_and_counted() {
    let mut stats = ProxyStats::default();
    match route("c", &request("GET", "/lancache-heartbeat", None), &mut stats) {
        Route::Answer(r) => {
            assert_eq!(r.head.status, 204);
            assert_eq!(r.head.headers.entries.len(), 2);
        }
        other => panic!("{other:?}"),
    }
    match route("c", &request("POST", "/x", None), &mut stats) {
        Route::Answer(r) => assert_eq!(r.head.status, 405),
        other => panic!("{other:?}"),
    }
    match route("c", &request("HEAD", "/x", Some("bytes=2-3")), &mut stats) {
        Route::Lookup(l) => {
            assert_eq!(l.path, "/");
            assert_eq!(l.object, object_id("/"));
            assert_eq!(l.spec, Some(RangeSpec::FromTo(2, 3)));
            assert!(l.is_head);
        }
        other => panic!("{other:?}"),
    }
    assert_eq!(stats.requests, 3);
}

#[test]
fn empty_objects_and_bad_ranges_are_answered_at_once() {
    match extent("c", None, &meta(0)) {
        Extent::Answer(r) => {
            assert_eq!(r.head.status, 200);
            assert_eq!(r.head.headers.get_text("x-cache"), Some("HIT".into()));
        }
        other => panic!("{other:?}"),
    }
    match extent("c", Some(RangeSpec::From(10)), &meta(10)) {
        Extent::Answer(r) => assert_eq!(
            r.head.headers.get_text("content-range"),
            Some("bytes */10".into())
        ),
        other => panic!("{other:?}"),
    }
    match extent("c", None, &meta(10)) {
        Extent::Bytes(b) => assert_eq!(b, ByteRange { start: 0, end: 9 }),
        other => panic!("{other:?}"),
    }
}

#[test]
fn the_head_describes_the_range() {
    let h = head(
        "c",
        &meta(10),
        ByteRange { start: 2, end: 5 },
        true,
        CacheStatus::Partial,
    );
    assert_eq!(h.status, 206);
    assert_eq!(h.headers.get_text("content-length"), Some("4".into()));
    assert_eq!(
        h.headers.get_text("content-range"),
        Some("bytes 2-5/10".into())
    );
    assert_eq!(h.headers.get_text("etag"), Some("\"v1\"".into()));
    assert!(h.headers.get("content-type").is_none());
}

#[test]
fn an_object_is_filled_while_a_slice_is_missing() {
    let mut stats = ProxyStats::default();
    assert_eq!(last_index(&meta(10), 4), 2);
    assert_eq!(last_index(&meta(0), 4), 0);
    assert!(!begin_fill(&vec![true, true], &mut stats));
    assert!(begin_fill(&vec![true, false], &mut stats));
    assert_eq!(stats.full_object_fills, 1);
    assert_eq!(fill_refused(200), None);
    assert_eq!(
        fill_refused(500).unwrap(),
        "full fetch failed: upstream returned 500 Internal Server Error"
    );
}

#[test]
fn a_window_is_cut_out_of_a_slice() {
    assert_eq!(cut(0, b"0123", (1, 3)).unwrap(), b"12");
    assert_eq!(
        cut(7, b"0123", (1, 5)).unwrap_err(),
        "slice 7 is 4 bytes, wanted window 1..5"
    );
}

#[test]
fn the_tiers_have_a_default_size() {
    let c = StoreConfig::default();
    assert_eq!(c.memory_bytes, 64 * 1024 * 1024);
    assert_eq!(c.disk_bytes, 1024 * 1024 * 1024);
    assert_eq!(c.block_bytes, 16 * 1024 * 1024);
}
