//! Planning an answer, and what is kept of what an origin sends.
use cachic::orchestrator::filler::Progress;
use cachic::orchestrator::readahead::ReadaheadPolicy;
use cachic::orchestrator::validators::Validators;
use cachic::orchestrator::{
    fill_outcome, header_for, known, missing_after_fill, payload_window, requested, Cutter,
    Orchestrator, OrchestratorError, Plan, Source,
};
use cachic::proxy::headers::{CacheStatus, HeaderMap};
use cachic::proxy::range::{ByteRange, RangeSpec};
use cachic::store::index::ObjectMeta;
use cachic::store::slice::{object_id, SliceValue};
use cachic::upstream::client::UpstreamResponse;

fn meta(total_len: u64) -> ObjectMeta {
    ObjectMeta {
        key: "/k".into(),
        total_len,
        generation: 3,
        etag: Some("\"v1\"".into()),
        last_modified: None,
        content_type: Some("text/plain".into()),
        no_ranges: false,
        created: 1,
        last_seen: 1,
        stale: false,
    }
}

fn response(status: u16, pairs: &[(&str, &str)], body: &[u8]) -> UpstreamResponse {
    let mut headers = HeaderMap::new();
    for (name, value) in pairs {
        headers.append(name, value.as_bytes());
    }
    UpstreamResponse {
        status,
        headers,
        body: body.to_vec(),
    }
}

fn plan(o: &Orchestrator, range: Option<&str>, total: u64, resident: &[bool]) -> Plan {
    o.plan(
        requested(range),
        object_id("/k"),
        meta(total),
        &resident.to_vec(),
        None,
    )
    .unwrap()
}

#[test]
fn a_range_that_cannot_be_honoured_means_the_whole_object() {
    assert_eq!(requested(None), None);
    assert_eq!(requested(Some("bytes=0-1,3-4")), None);
    assert_eq!(requested(Some("junk")), None);
    assert_eq!(requested(Some("bytes=5-")), Some(RangeSpec::From(5)));
}

#[test]
fn a_stale_entry_has_to_be_probed_again() {
    assert!(known(None).is_none());
    assert_eq!(known(Some(meta(5))), Some(meta(5)));
    let stale = ObjectMeta {
        stale: true,
        ..meta(5)
    };
    assert!(known(Some(stale)).is_none());
}

#[test]
fn a_probe_asks_for_the_slice_that_the_request_starts_in() {
    let o = Orchestrator::new(100, 4);
    assert_eq!(o.probe_index(requested(Some("bytes=250-"))), 2);
    assert_eq!(o.probe_index(requested(Some("bytes=-5"))), 0);
    assert_eq!(o.probe_index(None), 0);
    assert_eq!(o.probe_range(2), (200, 299));
    assert_eq!(Orchestrator::new(100, 0).readahead(), 1);
    assert_eq!(o.slice_size(), 100);
}

#[test]
fn a_probe_learns_the_object_and_keeps_its_slice() {
    let o = Orchestrator::new(4, 4);
    let found = o
        .probed(
            "/k",
            object_id("/k"),
            "http://h/k",
            1,
            response(
                206,
                &[("content-range", "bytes 4-7/10"), ("etag", "\"v1\"")],
                b"4567",
            ),
            Some(meta(99)),
            77,
        )
        .unwrap();
    assert_eq!(found.meta.total_len, 10);
    assert_eq!(found.meta.generation, 3, "the generation is kept");
    assert_eq!((found.meta.created, found.meta.last_seen), (77, 77));
    assert!(!found.meta.no_ranges && !found.meta.stale);
    let (key, value) = found.slice.unwrap();
    assert_eq!((key.generation, key.index), (3, 1));
    assert_eq!(value.payload, b"4567");
    assert_eq!(value.header, header_for(&found.meta, 4));
}

#[test]
fn an_origin_that_ignores_ranges_is_recognised() {
    let o = Orchestrator::new(4, 4);
    let found = o
        .probed(
            "/k",
            object_id("/k"),
            "u",
            0,
            response(200, &[], b"0123456789"),
            None,
            1,
        )
        .unwrap();
    assert!(found.meta.no_ranges);
    assert_eq!(found.meta.total_len, 10);
    assert!(found.slice.is_none());
    let err = o
        .probed("/k", object_id("/k"), "u", 0, response(206, &[], b""), None, 1)
        .unwrap_err();
    assert_eq!(err, OrchestratorError::NoLength { url: "u".into() });
    assert!(err.message().contains("cannot be sliced"));
}

#[test]
fn a_plan_says_what_is_sent() {
    let o = Orchestrator::new(100, 4);
    let p = plan(&o, Some("bytes=150-349"), 1000, &[true, false, false]);
    assert_eq!((p.status, p.partial), (206, true));
    assert_eq!(
        p.wanted,
        ByteRange {
            start: 150,
            end: 349
        }
    );
    assert_eq!(p.cache_status, CacheStatus::Partial);
    assert_eq!(o.indices(&p), vec![1, 2, 3]);
    assert_eq!(o.window(&p, 1), (50, 100));
    assert_eq!(o.window(&p, 3), (0, 50));

    let whole = plan(&o, None, 250, &[true, true, true]);
    assert_eq!((whole.status, whole.cache_status), (200, CacheStatus::Hit));
    let empty = plan(&o, None, 0, &[]);
    assert_eq!((empty.status, empty.cache_status), (200, CacheStatus::Hit));
    assert!(o.indices(&empty).is_empty());
}

#[test]
fn a_range_behind_the_end_cannot_be_satisfied() {
    let o = Orchestrator::new(100, 4);
    let err = o
        .plan(
            requested(Some("bytes=1000-")),
            object_id("/k"),
            meta(1000),
            &Vec::new(),
            None,
        )
        .unwrap_err();
    assert_eq!(
        err,
        OrchestratorError::Unsatisfiable {
            total_len: 1000,
            current: Validators::new(Some("\"v1\"".into()), None),
        }
    );
    assert_eq!(
        err.message(),
        "range is not satisfiable for a 1000-byte object"
    );
    assert_eq!(o.span(requested(Some("bytes=1000-")), &meta(1000)), Err(err));
    assert_eq!(o.span(None, &meta(0)), Ok(None));
    assert_eq!(o.span(None, &meta(250)).unwrap().unwrap().count(), 3);
}

#[test]
fn the_slice_that_was_probed_for_a_request_is_no_hit() {
    let o = Orchestrator::new(100, 4);
    let p = o
        .plan(None, object_id("/k"), meta(100), &vec![true], Some(0))
        .unwrap();
    assert_eq!(p.cache_status, CacheStatus::Miss);
}

#[test]
fn a_slice_comes_from_its_own_range() {
    let o = Orchestrator::new(100, 4);
    let p = plan(&o, None, 250, &[false, false, false]);
    assert_eq!(o.source(&p, 2), Source::Range { start: 200, end: 249 });
    let mut m = meta(250);
    m.no_ranges = true;
    let p = o
        .plan(None, object_id("/k"), m, &vec![false; 3], None)
        .unwrap();
    assert_eq!(o.source(&p, 2), Source::WholeObject);
}

#[test]
fn bytes_of_another_version_are_never_kept() {
    let o = Orchestrator::new(4, 4);
    let p = plan(&o, None, 10, &[false; 3]);
    let kept = o
        .accept_slice(&p, "u", 0, response(206, &[("etag", "\"v1\"")], b"0123"))
        .unwrap();
    assert_eq!(kept.payload, b"0123");
    let err = o
        .accept_slice(&p, "u", 0, response(206, &[("etag", "\"v2\"")], b"0123"))
        .unwrap_err();
    assert_eq!(
        err.message(),
        "validators for u changed mid-object (Some(\"\\\"v1\\\"\") -> Some(\"\\\"v2\\\"\")); aborting so the client retries"
    );
    let err = o
        .accept_slice(&p, "u", 2, response(206, &[("etag", "\"v1\"")], b"89x"))
        .unwrap_err();
    assert_eq!(err.message(), "slice 2 of u: expected 2 bytes, upstream sent 3");
}

#[test]
fn only_a_streaming_client_is_read_ahead_for() {
    let o = Orchestrator::new(100, 4);
    let mut policy = ReadaheadPolicy::new(2);
    for i in 0..4u64 {
        let range = format!("bytes={}-{}", i * 100, i * 100 + 99);
        let p = plan(&o, Some(&range), 1000, &[false]);
        let ahead = o.maybe_prefetch(&mut policy, &p, i);
        if i < 3 {
            assert!(ahead.is_empty(), "slice {i}");
        } else {
            assert_eq!(ahead, 4..6);
        }
    }
}

#[test]
fn a_body_is_cut_into_slices_as_it_arrives() {
    let mut cutter = Cutter::new(4);
    assert!(cutter.push(b"012").is_empty());
    assert_eq!(cutter.push(b"3456789a"), vec![b"0123".to_vec(), b"4567".to_vec()]);
    let (last, count) = cutter.finish();
    assert_eq!((last, count), (Some(b"89a".to_vec()), 3));
    let mut exact = Cutter::new(2);
    assert_eq!(exact.push(b"abcd").len(), 2);
    assert_eq!(exact.finish(), (None, 2));
}

#[test]
fn everyone_learns_how_a_fill_ended() {
    assert_eq!(
        fill_outcome("u", 1, Ok(2)),
        (Progress::Complete { count: 2 }, Ok(()))
    );
    let (progress, told) = fill_outcome("u", 5, Ok(2));
    assert_eq!(progress, Progress::Complete { count: 2 });
    assert_eq!(
        told.unwrap_err().message(),
        "filling u: fill produced 2 slices; slice 5 was never reached"
    );
    let (progress, told) = fill_outcome("u", 0, Err(OrchestratorError::NoLength { url: "u".into() }));
    assert!(matches!(progress, Progress::Failed { .. }));
    assert!(told.is_err());
    assert!(missing_after_fill("u", 7)
        .message()
        .contains("slice 7 was reported ready"));
}

#[test]
fn a_window_that_a_slice_does_not_reach_is_an_error() {
    let value = SliceValue::new(header_for(&meta(10), 4), b"0123".to_vec());
    assert_eq!(payload_window(&value, (1, 3)).unwrap(), b"12");
    assert!(payload_window(&value, (1, 5)).is_err());
    assert!(payload_window(&value, (3, 1)).is_err());
}
