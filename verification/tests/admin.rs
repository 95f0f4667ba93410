//! The admin surface.
use cachic::admin::api::{
    constant_time_eq, drain, purge, purge_plan, refuse_unauthenticated_mutation, services, stats,
    unreadable, ApiState, AuthToken, LateApiState, PurgeParams, Readings, Scope, ServiceInfo,
};
use cachic::admin::{healthz, readyz, Readiness};
use cachic::proxy::headers::HeaderMap;
use cachic::proxy::server::Reply;
use cachic::proxy::shutdown::Drain;
use cachic::store::index::{IndexError, ObjectMeta};
use cachic::store::slice::{object_id, ObjectId, SliceKey};
use cachic::store::space::DiskSpace;

fn bearer(token: &str) -> HeaderMap {
    authorization(&format!("Bearer {token}"))
}

fn authorization(value: &str) -> HeaderMap {
    let mut h = HeaderMap::new();
    h.insert("authorization", value.as_bytes());
    h
}

fn body(reply: &Reply) -> (u16, String) {
    (
        reply.head.status,
        String::from_utf8(reply.body.clone()).unwrap(),
    )
}

#[test]
fn no_token_permits_everything() {
    assert!(AuthToken::none().permits(&HeaderMap::new()));
}

#[test]
fn a_configured_token_is_required() {
    let token = AuthToken::new("s3cret");
    assert!(token.permits(&bearer("s3cret")));
    assert!(
        !token.permits(&HeaderMap::new()),
        "missing header was accepted"
    );
    assert!(!token.permits(&bearer("wrong")));
}

#[test]
fn authentication_fails_closed_on_malformed_headers() {
    let token = AuthToken::new("s3cret");
    assert!(
        !token.permits(&authorization("s3cret")),
        "a bare token without the Bearer scheme was accepted"
    );
    assert!(!token.permits(&authorization("Basic s3cret")));
    assert!(!token.permits(&authorization("Bearer ")));
}

#[test]
fn an_empty_configured_token_is_treated_as_absent() {
    // Otherwise it looks like authentication is on while permitting everything.
    let token = AuthToken::new("");
    assert!(!token.is_set());
    assert!(!token.is_configured());
    assert!(token.permits(&HeaderMap::new()));
}

#[test]
fn token_comparison_is_length_safe() {
    let token = AuthToken::new("s3cret");
    assert!(!token.permits(&bearer("s3cre")));
    assert!(!token.permits(&bearer("s3crets")));
    assert!(!token.permits(&bearer("")));
}

#[test]
fn constant_time_eq_matches_ordinary_equality() {
    // Byte literals rather than words, since this compares opaque secrets, not prose.
    assert!(constant_time_eq(&[1, 2, 3], &[1, 2, 3]));
    assert!(!constant_time_eq(&[1, 2, 3], &[1, 2, 4]));
    assert!(!constant_time_eq(&[1, 2, 3], &[1, 2]));
    assert!(constant_time_eq(&[], &[]));
}

#[test]
fn healthz_is_up_before_the_store_is() {
    assert_eq!(body(&healthz()), (200, "ok\n".into()));
}

#[test]
fn readyz_fails_until_the_store_and_listeners_are_up() {
    let mut r = Readiness::new();
    assert_eq!(body(&readyz(&r)), (503, "starting\n".into()));
    r.set_store_open(true);
    assert_eq!(body(&readyz(&r)), (503, "starting\n".into()));
    r.set_listeners_bound(true);
    assert_eq!(body(&readyz(&r)), (200, "ready\n".into()));
    r.set_store_open(false);
    assert!(!r.is_ready());
}

#[test]
fn readyz_fails_immediately_on_drain() {
    let mut r = Readiness::new();
    r.set_store_open(true);
    r.set_listeners_bound(true);
    assert_eq!(body(&readyz(&r)).0, 200);

    r.begin_drain();
    assert!(r.is_draining());
    assert_eq!(body(&readyz(&r)), (503, "draining\n".into()));
}

fn state(token: &str, exposed: bool) -> ApiState {
    ApiState {
        token: AuthToken::new(token),
        services: vec![ServiceInfo {
            name: "steam".into(),
            patterns: 3,
        }],
        configured_disk_bytes: 1_000,
        min_free_bytes: 100,
        slice_size: 10,
        mutations_need_token: exposed,
    }
}

fn published(token: &str, exposed: bool) -> LateApiState {
    let mut late = LateApiState::new();
    assert!(late.get().is_none());
    assert!(late.set(state(token, exposed)));
    assert!(!late.set(state("other", false)));
    late
}

fn everything() -> PurgeParams {
    PurgeParams {
        prefix: None,
        all: true,
    }
}

#[test]
fn nothing_is_answered_before_the_store_is_open() {
    let late = LateApiState::new();
    let none = HeaderMap::new();
    let opening = (503, "the store is still opening\n".to_string());
    assert_eq!(body(&services(&late, &none).unwrap_err()), opening);
    assert_eq!(body(&purge(&late, &none, everything()).unwrap_err()), opening);
    assert_eq!(body(&drain(&late, &none, &mut Readiness::new())), opening);
}

#[test]
fn every_endpoint_wants_the_token() {
    let late = published("s3cret", false);
    let none = HeaderMap::new();
    let unauthorised = (401, "unauthorised\n".to_string());
    assert_eq!(body(&services(&late, &none).unwrap_err()), unauthorised);
    assert_eq!(
        body(&purge(&late, &none, everything()).unwrap_err()),
        unauthorised
    );
    let mut readiness = Readiness::new();
    assert_eq!(body(&drain(&late, &none, &mut readiness)), unauthorised);
    assert!(!readiness.is_draining());

    let with = bearer("s3cret");
    assert_eq!(services(&late, &with).unwrap()[0].name, "steam");
    assert_eq!(purge(&late, &with, everything()), Ok(Scope::All));
    assert_eq!(
        body(&drain(&late, &with, &mut readiness)),
        (202, "draining\n".into())
    );
    assert!(readiness.is_draining());
}

#[test]
fn a_reachable_api_without_a_token_changes_nothing() {
    let late = published("", true);
    let none = HeaderMap::new();
    assert!(services(&late, &none).is_ok(), "reads are not covered");
    let (status, text) = body(&purge(&late, &none, everything()).unwrap_err());
    assert_eq!(status, 403);
    assert!(text.contains("ADMIN_TOKEN"), "{text}");
    assert_eq!(body(&drain(&late, &none, &mut Readiness::new())).0, 403);
    assert!(refuse_unauthenticated_mutation(&state("", true)).is_some());
    assert!(refuse_unauthenticated_mutation(&state("t", true)).is_none());
    assert!(refuse_unauthenticated_mutation(&state("", false)).is_none());
}

#[test]
fn a_purge_names_what_it_is_about() {
    let late = published("", false);
    let none = HeaderMap::new();
    let params = |prefix: Option<&str>, all: bool| PurgeParams {
        prefix: prefix.map(|p| p.to_string()),
        all,
    };
    assert_eq!(
        purge(&late, &none, params(Some("/a"), true)),
        Ok(Scope::Prefix("/a".into()))
    );
    assert_eq!(
        body(&purge(&late, &none, params(None, false)).unwrap_err()),
        (400, "specify ?prefix=... or ?all=true\n".into())
    );
}

#[test]
fn stats_are_read_off() {
    let late = published("", false);
    let mut draining = Drain::new();
    let _a = draining.enter();
    let s = stats(
        &late,
        &HeaderMap::new(),
        &draining,
        Readings {
            objects: Some(3),
            indexed_bytes: Some(50),
            disk: Some(DiskSpace {
                total: 2_000,
                available: 300,
            }),
        },
    )
    .unwrap();
    assert_eq!((s.objects, s.indexed_bytes), (3, 50));
    assert_eq!(s.effective_disk_bytes, 250);
    assert!(s.disk_guard_engaged);
    assert_eq!((s.draining, s.inflight), (false, 1));
    assert_eq!(s.filesystem_total_bytes, 2_000);

    let s = stats(
        &late,
        &HeaderMap::new(),
        &draining,
        Readings {
            objects: None,
            indexed_bytes: None,
            disk: None,
        },
    )
    .unwrap();
    assert_eq!((s.objects, s.indexed_bytes, s.effective_disk_bytes), (0, 0, 0));
}

fn entry(key: &str, len: u64, generation: u32) -> (ObjectId, Vec<u8>) {
    let meta = ObjectMeta {
        key: key.into(),
        total_len: len,
        generation,
        etag: None,
        last_modified: None,
        content_type: None,
        no_ranges: false,
        created: 0,
        last_seen: 0,
        stale: false,
    };
    (object_id(key), meta.encode())
}

#[test]
fn a_purge_removes_objects_with_all_their_slices() {
    let entries = vec![entry("/a/1", 25, 2), entry("/b/1", 10, 0), entry("/a/2", 0, 0)];
    let plan = purge_plan(&entries, &Scope::Prefix("/a".into()), 10).unwrap();
    assert_eq!(plan.objects, vec![entries[0].0, entries[2].0]);
    assert_eq!(
        plan.slices,
        vec![
            SliceKey::new(entries[0].0, 2, 0),
            SliceKey::new(entries[0].0, 2, 1),
            SliceKey::new(entries[0].0, 2, 2)
        ]
    );
    let result = plan.result();
    assert_eq!((result.objects_removed, result.slices_removed), (2, 3));

    let plan = purge_plan(&entries, &Scope::All, 10).unwrap();
    assert_eq!(plan.objects.len(), 3);
    assert_eq!(plan.slices.len(), 4);
}

#[test]
fn an_unreadable_entry_stops_a_purge_by_prefix_only() {
    let bad: (ObjectId, Vec<u8>) = ([9; 16], vec![1]);
    let entries = vec![entry("/a/1", 25, 2), bad];
    let err = purge_plan(&entries, &Scope::Prefix("/a".into()), 10).unwrap_err();
    assert!(matches!(err, IndexError::Corrupt { .. }));
    let (status, text) = body(&unreadable(&err));
    assert_eq!(status, 500);
    assert!(text.starts_with("cannot read the index: "), "{text}");
    let plan = purge_plan(&entries, &Scope::All, 10).unwrap();
    assert_eq!(plan.objects.len(), 2);
    assert_eq!(plan.slices.len(), 3);
}
