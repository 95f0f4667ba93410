//! What is done next on the way to an answer.
use cachic::orchestrator::filler::{FillRegistry, Progress};
use cachic::orchestrator::flow::{FillAction, FillEvent, Learn, SliceAction, SliceEvent};
use cachic::orchestrator::{requested, Cutter, Orchestrator, OrchestratorError, Plan};
use cachic::proxy::headers::HeaderMap;
use cachic::store::hybrid::StoreError;
use cachic::store::index::{IndexError, ObjectMeta};
use cachic::store::slice::{object_id, SliceKey, SliceValue};
use cachic::store::space::SpaceError;
use cachic::upstream::client::{UpstreamError, UpstreamResponse};
use cachic::upstream::resolver::ResolveError;

fn meta(total_len: u64, no_ranges: bool) -> ObjectMeta {
    ObjectMeta {
        key: "/k".into(),
        total_len,
        generation: 3,
        etag: Some("\"v1\"".into()),
        last_modified: None,
        content_type: None,
        no_ranges,
        created: 1,
        last_seen: 1,
        stale: false,
    }
}

fn plan(o: &Orchestrator, range: Option<&str>, total: u64, no_ranges: bool) -> Plan {
    let meta = meta(total, no_ranges);
    let span = o.span(requested(range), &meta).unwrap().unwrap();
    let resident = vec![false; span.count() as usize];
    o.plan(requested(range), object_id("/k"), meta, &resident, None)
        .unwrap()
}

fn answer(etag: &str, body: &[u8]) -> SliceEvent {
    let mut headers = HeaderMap::new();
    headers.append("etag", etag.as_bytes());
    SliceEvent::Answered(UpstreamResponse {
        status: 206,
        headers,
        body: body.to_vec(),
    })
}

#[test]
fn an_object_is_probed_only_where_the_index_cannot_be_trusted() {
    let o = Orchestrator::new(100, 4);
    let range = requested(Some("bytes=250-260"));
    match o.metadata(range, Some(meta(1000, false))) {
        Learn::Known(m) => assert_eq!(m, meta(1000, false)),
        other => panic!("{other:?}"),
    }
    let mut stale = meta(1000, false);
    stale.stale = true;
    for found in [None, Some(stale)] {
        match o.metadata(range, found) {
            Learn::Probe { index, start, end } => assert_eq!((index, start, end), (2, 200, 299)),
            other => panic!("{other:?}"),
        }
    }
}

#[test]
fn a_slice_is_fetched_once_and_kept_if_it_is_right() {
    let o = Orchestrator::new(4, 4);
    let p = plan(&o, None, 10, false);
    let key = SliceKey::new(object_id("/k"), 3, 2);
    match o.slice(&p, "u", 2, SliceEvent::Wanted) {
        SliceAction::Share { key: k, start, end } => assert_eq!((k, start, end), (key, 8, 9)),
        other => panic!("{other:?}"),
    }
    match o.slice(&p, "u", 2, answer("\"v1\"", b"89")) {
        SliceAction::Keep(k, v) => {
            assert_eq!((k, v.payload.as_slice()), (key, &b"89"[..]));
            assert_eq!(v.header.generation, 3);
        }
        other => panic!("{other:?}"),
    }
    match o.slice(&p, "u", 2, answer("\"v1\"", b"8")) {
        SliceAction::Fail(e) => {
            assert_eq!(e.message(), "slice 2 of u: expected 2 bytes, upstream sent 1")
        }
        other => panic!("{other:?}"),
    }
}

#[test]
fn a_changed_object_is_invalidated_before_the_request_fails() {
    let o = Orchestrator::new(4, 4);
    let p = plan(&o, None, 10, false);
    match o.slice(&p, "u", 0, answer("\"v2\"", b"0123")) {
        SliceAction::Invalidate(object, OrchestratorError::ValidatorChanged { had, now, .. }) => {
            assert_eq!(object, object_id("/k"));
            assert_eq!(had.as_deref(), Some("\"v1\""));
            assert_eq!(now.as_deref(), Some("\"v2\""));
        }
        other => panic!("{other:?}"),
    }
    let (generation, entry) = ObjectMeta::invalidate(Some(meta(10, false)));
    assert_eq!(generation, 4);
    let old = SliceKey::new(object_id("/k"), 3, 0);
    let new = SliceKey::new(object_id("/k"), generation, 0);
    assert_ne!(old.encode(), new.encode());
    assert!(matches!(o.metadata(None, entry), Learn::Probe { .. }));
}

#[test]
fn an_origin_without_ranges_is_filled_and_read_back() {
    let o = Orchestrator::new(4, 4);
    let p = plan(&o, None, 10, true);
    assert!(matches!(o.slice(&p, "u", 1, SliceEvent::Wanted), SliceAction::Fill));
    let key = SliceKey::new(object_id("/k"), 3, 1);
    match o.slice(&p, "u", 1, SliceEvent::Filled(Ok(()))) {
        SliceAction::Read(k) => assert_eq!(k, key),
        other => panic!("{other:?}"),
    }
    let failed = OrchestratorError::NoLength { url: "u".into() };
    assert!(matches!(
        o.slice(&p, "u", 1, SliceEvent::Filled(Err(failed))),
        SliceAction::Fail(OrchestratorError::NoLength { .. })
    ));
    match o.slice(&p, "u", 1, SliceEvent::Found(None)) {
        SliceAction::Fail(e) => assert_eq!(
            e.message(),
            "filling u: slice 1 was reported ready but is not in the store"
        ),
        other => panic!("{other:?}"),
    }
}

#[test]
fn one_caller_fills_and_the_others_wait() {
    let o = Orchestrator::new(4, 4);
    let mut registry = FillRegistry::new();
    let id = object_id("/k");
    let wanted = || FillEvent::Wanted { stored: false };
    assert!(matches!(
        o.ensure_filled(&mut registry, id, "u", 1, FillEvent::Wanted { stored: true }),
        FillAction::Done(Ok(()))
    ));
    assert_eq!(registry.active(), 0);
    assert!(matches!(
        o.ensure_filled(&mut registry, id, "u", 1, wanted()),
        FillAction::Run
    ));
    assert!(matches!(
        o.ensure_filled(&mut registry, id, "u", 1, wanted()),
        FillAction::Wait
    ));
    let progressed = |p| FillEvent::Progressed(p);
    assert!(matches!(
        o.ensure_filled(&mut registry, id, "u", 1, progressed(Some(Progress::Ready { count: 1 }))),
        FillAction::Wait
    ));
    assert!(matches!(
        o.ensure_filled(&mut registry, id, "u", 1, progressed(Some(Progress::Ready { count: 2 }))),
        FillAction::Done(Ok(()))
    ));
    match o.ensure_filled(&mut registry, id, "u", 1, progressed(None)) {
        FillAction::Done(Err(e)) => assert_eq!(
            e.message(),
            "filling u: the fill was abandoned without completing"
        ),
        other => panic!("{other:?}"),
    }
    assert_eq!(registry.active(), 1);
    let over = FillEvent::Over(Err(OrchestratorError::NoLength { url: "u".into() }));
    match o.ensure_filled(&mut registry, id, "u", 1, over) {
        FillAction::Tell(Progress::Failed { reason }, Err(e)) => assert_eq!(reason, e.message()),
        other => panic!("{other:?}"),
    }
    assert_eq!(registry.active(), 0, "a failed fill leaves the object fillable");
}

#[test]
fn a_fill_produces_every_slice_in_order() {
    let o = Orchestrator::new(4, 4);
    let p = plan(&o, None, 10, true);
    let mut cutter = Cutter::new(4);
    assert!(o.run_fill(&p, &mut cutter, b"012").is_empty());
    let pieces = o.run_fill(&p, &mut cutter, b"345678");
    let seen: Vec<(u32, &[u8], u32)> = pieces
        .iter()
        .map(|piece| (piece.key.index, piece.value.payload.as_slice(), piece.ready))
        .collect();
    assert_eq!(seen, vec![(0, &b"0123"[..], 1), (1, &b"4567"[..], 2)]);
    assert!(o.run_fill(&p, &mut cutter, b"9").is_empty());
    let (last, count) = o.end_fill(&p, cutter);
    let last = last.unwrap();
    assert_eq!((last.key.index, last.value.payload.as_slice()), (2, &b"89"[..]));
    assert_eq!((last.ready, count), (3, 3));
}

#[test]
fn the_pieces_of_an_answer_are_the_bytes_that_were_asked_for() {
    let o = Orchestrator::new(4, 4);
    let p = plan(&o, Some("bytes=2-8"), 10, false);
    let body = b"0123456789";
    let mut sent = Vec::new();
    for index in o.indices(&p) {
        let from = index as usize * 4;
        let to = (from + 4).min(10);
        match o.slice(&p, "u", index, answer("\"v1\"", &body[from..to])) {
            SliceAction::Keep(_, value) => {
                sent.extend(o.body_piece(&p, "u", index, &value).unwrap())
            }
            other => panic!("{other:?}"),
        }
    }
    assert_eq!(sent, b"2345678");
    let torn = match o.slice(&p, "u", 1, answer("\"v1\"", b"4567")) {
        SliceAction::Keep(_, value) => SliceValue::new(value.header, b"45".to_vec()),
        other => panic!("{other:?}"),
    };
    assert_eq!(
        o.body_piece(&p, "u", 1, &torn).unwrap_err().message(),
        "slice 1 of u: expected 4 bytes, upstream sent 2"
    );
}

#[test]
fn outside_errors_keep_their_words() {
    let source = || "boom".to_string();
    let store = OrchestratorError::Store(StoreError::Fetch { source: source() });
    assert_eq!(store.message(), "slice fetch failed: boom");
    let open = StoreError::Open { source: source() };
    assert_eq!(open.message(), "cannot open the slice store: boom");
    let directory = StoreError::Directory { path: "/d".into(), source: source() };
    assert_eq!(directory.message(), "cannot create cache directory /d: boom");
    let upstream = OrchestratorError::Upstream(UpstreamError::Build { source: source() });
    assert_eq!(upstream.message(), "building the upstream client failed: boom");
    let resolve = UpstreamError::Resolve(ResolveError::NoResolvers);
    assert_eq!(resolve.message(), ResolveError::NoResolvers.message());
    let index = IndexError::Commit { source: source() };
    assert_eq!(index.message(), "index commit error: boom");
    let space = SpaceError { path: "/d".into(), source: source() };
    assert_eq!(space.message(), "cannot read free space for /d: boom");
}

#[test]
fn a_change_that_was_noticed_while_sharing_invalidates_the_object() {
    let o = Orchestrator::new(4, 4);
    let p = plan(&o, None, 10, false);
    let source = || StoreError::Fetch {
        source: "validators changed".into(),
    };
    let changed = match o.slice(&p, "u", 0, answer("\"v2\"", b"0123")) {
        SliceAction::Invalidate(_, e) => e,
        other => panic!("{other:?}"),
    };
    let event = SliceEvent::Unshared {
        source: source(),
        changed: Some(changed),
    };
    match o.slice(&p, "u", 0, event) {
        SliceAction::Invalidate(object, e) => {
            assert_eq!(object, object_id("/k"));
            assert!(matches!(e, OrchestratorError::ValidatorChanged { .. }));
        }
        other => panic!("{other:?}"),
    }
    let event = SliceEvent::Unshared {
        source: source(),
        changed: None,
    };
    match o.slice(&p, "u", 0, event) {
        SliceAction::Fail(e) => assert_eq!(e, OrchestratorError::Store(source())),
        other => panic!("{other:?}"),
    }
}
