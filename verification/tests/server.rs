//! What the client-facing server answers.
use cachic::config::rules::{NamedRule, Rules, ServiceRule};
use cachic::config::LogFormat;
use cachic::orchestrator::{requested, Orchestrator, OrchestratorError, Plan};
use cachic::proxy::headers::HeaderMap;
use cachic::proxy::server::{
    access_event, after_plan, bad_gateway, route, shutting_down, strip_internal_headers, Head,
    Lookup, Next, Reply, Request, Route, ServerConfig,
};
use cachic::services::domains::{DomainList, Pattern, Service};
use cachic::services::key::CompiledRule;
use cachic::store::index::ObjectMeta;
use cachic::store::slice::object_id;

fn config() -> ServerConfig {
    let list = DomainList {
        services: vec![Service {
            name: "steam".into(),
            description: "".into(),
            patterns: vec![Pattern::Suffix("example.com".into())],
        }],
    };
    ServerConfig::with_defaults(Orchestrator::new(100, 4), list, "cache01".into())
}

fn request(method: &str, target: &str, pairs: &[(&str, &str)]) -> Request {
    let mut headers = HeaderMap::new();
    for (name, value) in pairs {
        headers.append(name, value.as_bytes());
    }
    Request {
        method: method.into(),
        path: target.split('?').next().unwrap().into(),
        path_and_query: Some(target.into()),
        headers,
    }
}

fn answer(route: Route) -> (u16, String) {
    match route {
        Route::Answer(reply) => body(&reply),
        other => panic!("{other:?}"),
    }
}

fn body(reply: &Reply) -> (u16, String) {
    (
        reply.head.status,
        String::from_utf8(reply.body.clone()).unwrap(),
    )
}

fn lookup(route: Route) -> Lookup {
    match route {
        Route::Lookup(lookup) => lookup,
        other => panic!("{other:?}"),
    }
}

#[test]
fn a_plain_configuration_has_no_rules() {
    let c = config();
    assert_eq!(c.log_format, LogFormat::Json);
    assert!(c.rules.services.is_empty());
    assert_eq!(c.connections.max(), 10_000);
    assert!(!c.passthrough_unknown_hosts);
}

#[test]
fn the_heartbeat_is_answered_for_any_host_and_method() {
    match route(&config(), &request("POST", "/lancache-heartbeat", &[])) {
        Route::Answer(reply) => {
            assert_eq!(reply.head.status, 204);
            assert_eq!(
                reply.head.headers.get_text("x-lancache-processed-by"),
                Some("cache01".into())
            );
        }
        other => panic!("{other:?}"),
    }
}

#[test]
fn only_reads_of_listed_hosts_are_served() {
    let c = config();
    let known = [("Host", "a.example.com")];
    assert_eq!(
        answer(route(&c, &request("PUT", "/x", &known))),
        (405, "cachic caches GET and HEAD\n".into())
    );
    assert_eq!(
        answer(route(&c, &request("GET", "/x", &[("Host", "www.google.com")]))),
        (404, "no cached service matches this host\n".into())
    );
    assert_eq!(answer(route(&c, &request("GET", "/x", &[]))).0, 404);
    let mut open = config();
    open.passthrough_unknown_hosts = true;
    assert_eq!(answer(route(&open, &request("GET", "/x", &[]))).0, 501);
}

#[test]
fn a_read_becomes_a_lookup() {
    let l = lookup(route(
        &config(),
        &request(
            "GET",
            "/depot/%41?token=1",
            &[
                ("Host", "A.example.com:80"),
                ("Range", "bytes=0-9"),
                ("If-Range", "\"v1\""),
                ("User-Agent", "client"),
                ("Connection", "close"),
            ],
        ),
    ));
    assert_eq!(l.service, "steam");
    assert_eq!(l.key.key, "/depot/A");
    assert_eq!(l.url, "http://A.example.com:80/depot/%41?token=1");
    assert_eq!(l.range.as_deref(), Some("bytes=0-9"));
    assert_eq!(l.if_range.as_deref(), Some("\"v1\""));
    assert!(!l.is_head);
    assert_eq!(l.forwarded.get_text("user-agent"), Some("client".into()));
    assert!(l.forwarded.get("host").is_none());
    assert!(l.forwarded.get("range").is_none());
    assert!(l.forwarded.get("connection").is_none());
}

#[test]
fn a_rule_decides_on_keys_schemes_and_paths() {
    let mut c = config();
    let rule = ServiceRule {
        keep_query: true,
        upstream_https: true,
        exclude_paths: vec!["^/status$".into()],
        ..ServiceRule::default()
    };
    c.compiled
        .insert("steam".into(), CompiledRule::compile("steam", &rule).unwrap());
    let known = [("Host", "a.example.com")];
    let l = lookup(route(&c, &request("HEAD", "/x?v=1", &known)));
    assert_eq!(l.key.key, "/x?v=1");
    assert_eq!(l.url, "https://a.example.com/x?v=1");
    assert!(l.is_head);
    assert_eq!(answer(route(&c, &request("GET", "/status", &known))).0, 501);
}

fn meta(total_len: u64) -> ObjectMeta {
    ObjectMeta {
        key: "/k".into(),
        total_len,
        generation: 0,
        etag: Some("\"v1\"".into()),
        last_modified: Some("a\nb".into()),
        content_type: Some("text/plain".into()),
        no_ranges: false,
        created: 1,
        last_seen: 1,
        stale: false,
    }
}

fn planned(range: Option<&str>, total: u64, slices: usize) -> Result<Plan, OrchestratorError> {
    Orchestrator::new(100, 4).plan(
        requested(range),
        object_id("/k"),
        meta(total),
        &vec![false; slices],
        None,
    )
}

fn asked(if_range: Option<&str>, is_head: bool) -> Lookup {
    let mut l = lookup(route(
        &config(),
        &request("GET", "/k", &[("Host", "a.example.com")]),
    ));
    l.if_range = if_range.map(|s| s.to_string());
    l.is_head = is_head;
    l
}

#[test]
fn a_partial_answer_says_which_bytes_it_carries() {
    let next = after_plan(
        "cache01",
        &asked(None, false),
        planned(Some("bytes=150-349"), 1000, 3),
        false,
    );
    match next {
        Next::Stream { head, plan } => {
            assert_eq!(head.status, 206);
            let h = |name: &str| head.headers.get_text(name);
            assert_eq!(h("content-length"), Some("200".into()));
            assert_eq!(h("content-range"), Some("bytes 150-349/1000".into()));
            assert_eq!(h("accept-ranges"), Some("bytes".into()));
            assert_eq!(h("x-cache"), Some("MISS".into()));
            assert_eq!(h("x-cachic-service"), Some("steam".into()));
            assert_eq!(h("etag"), Some("\"v1\"".into()));
            assert_eq!(h("content-type"), Some("text/plain".into()));
            assert_eq!(h("last-modified"), None, "it cannot stand in a header");
            assert_eq!(plan.wanted.len(), 200);
        }
        other => panic!("{other:?}"),
    }
}

#[test]
fn a_head_request_and_an_empty_object_have_no_body() {
    for (lookup, plan) in [
        (asked(None, true), planned(None, 250, 3)),
        (asked(None, false), planned(None, 0, 0)),
    ] {
        match after_plan("cache01", &lookup, plan, false) {
            Next::Answer(reply) => {
                assert_eq!(reply.head.status, 200);
                assert!(reply.body.is_empty());
                assert!(reply.head.headers.get("content-range").is_none());
                let len = if lookup.is_head { "250" } else { "0" };
                assert_eq!(
                    reply.head.headers.get_text("content-length"),
                    Some(len.into())
                );
            }
            other => panic!("{other:?}"),
        }
    }
}

#[test]
fn an_outdated_client_gets_the_whole_object() {
    let outdated = asked(Some("\"v0\""), false);
    let plan = || planned(Some("bytes=0-9"), 1000, 1);
    assert!(matches!(
        after_plan("cache01", &outdated, plan(), false),
        Next::Replan
    ));
    // The second time it is served as planned.
    assert!(matches!(
        after_plan("cache01", &outdated, planned(None, 1000, 10), true),
        Next::Stream { .. }
    ));
    assert!(matches!(
        after_plan("cache01", &asked(Some("\"v1\""), false), plan(), false),
        Next::Stream { .. }
    ));
}

#[test]
fn an_unsatisfiable_range_is_a_416() {
    let unsatisfiable = || planned(Some("bytes=5000-"), 1000, 0);
    match after_plan("cache01", &asked(None, false), unsatisfiable(), false) {
        Next::Answer(reply) => {
            assert_eq!(reply.head.status, 416);
            assert_eq!(
                reply.head.headers.get_text("content-range"),
                Some("bytes */1000".into())
            );
        }
        other => panic!("{other:?}"),
    }
    assert!(matches!(
        after_plan("cache01", &asked(None, false), unsatisfiable(), true),
        Next::Fail(_)
    ));
    let failed = || Err(OrchestratorError::NoLength { url: "u".into() });
    match after_plan("cache01", &asked(None, false), failed(), false) {
        Next::Fail(e) => assert_eq!(
            body(&bad_gateway(&e)),
            (
                502,
                "upstream error: upstream did not report a length for u, so the object cannot be sliced\n".into()
            )
        ),
        other => panic!("{other:?}"),
    }
    assert_eq!(
        body(&shutting_down()),
        (503, "cachic is shutting down\n".into())
    );
}

#[test]
fn every_answer_is_logged_and_tells_the_client_nothing_internal() {
    let req = request(
        "GET",
        "/k?x=1",
        &[
            ("Host", "a.example.com"),
            ("Range", "bytes=0-9"),
            ("User-Agent", "ua"),
        ],
    );
    let mut head = match after_plan(
        "cache01",
        &asked(None, false),
        planned(Some("bytes=0-9"), 1000, 1),
        false,
    ) {
        Next::Stream { head, .. } => head,
        other => panic!("{other:?}"),
    };
    let e = access_event("10.0.0.9".into(), &req, &head, 5, 86_400);
    assert_eq!(e.service, "steam");
    assert_eq!(e.host, "a.example.com");
    assert_eq!(e.path, "/k");
    assert_eq!((e.status, e.bytes), (206, 10));
    assert_eq!(e.cache_status, "MISS");
    assert_eq!(e.range.as_deref(), Some("bytes=0-9"));
    assert_eq!(e.user_agent.as_deref(), Some("ua"));
    assert_eq!(e.upstream_nanos, 5);
    assert_eq!(e.timestamp, "02/Jan/1970:00:00:00 +0000");

    strip_internal_headers(&mut head);
    assert!(head.headers.get("x-cachic-service").is_none());
    assert!(head.headers.get("x-cache").is_some());

    let refused: Head = shutting_down().head;
    let e = access_event("10.0.0.9".into(), &req, &refused, 0, 0);
    assert_eq!((e.service.as_str(), e.cache_status.as_str(), e.bytes), ("-", "-", 0));
}

#[test]
fn an_outdated_range_past_the_end_gets_the_whole_object_too() {
    // The object has shrunk: the range refers to the version that is gone.
    let unsatisfiable = || planned(Some("bytes=5000-"), 1000, 0);
    assert!(matches!(
        after_plan("cache01", &asked(Some("\"v0\""), false), unsatisfiable(), false),
        Next::Replan
    ));
    assert!(matches!(
        after_plan("cache01", &asked(Some("\"v0\""), false), planned(None, 1000, 10), true),
        Next::Stream { .. }
    ));
    // The client has the current version: then the range is its own mistake.
    match after_plan("cache01", &asked(Some("\"v1\""), false), unsatisfiable(), false) {
        Next::Answer(reply) => assert_eq!(reply.head.status, 416),
        other => panic!("{other:?}"),
    }
}

#[test]
fn a_service_that_comes_with_a_refresh_follows_the_rules() {
    let mut c = config();
    c.rules = Rules {
        defaults: ServiceRule {
            include_host: true,
            upstream_https: true,
            exclude_paths: vec!["^/status$".into()],
            ..ServiceRule::default()
        },
        services: vec![NamedRule {
            service: "steam".into(),
            rule: ServiceRule {
                keep_query: true,
                ..ServiceRule::default()
            },
        }],
    };
    let refreshed = DomainList {
        services: vec![Service {
            name: "new".into(),
            description: "".into(),
            patterns: vec![Pattern::Exact("new.example.org".into())],
        }],
    };
    let known = [("Host", "a.example.com")];
    let l = lookup(route(&c, &request("GET", "/x?v=1", &known)));
    assert_eq!((l.key.key.as_str(), l.url.as_str()), ("/x?v=1", "http://a.example.com/x?v=1"));
    assert!(c.services.refresh(Ok(refreshed)));
    let new = [("Host", "new.example.org")];
    let l = lookup(route(&c, &request("GET", "/x?v=1", &new)));
    assert_eq!(l.service, "new");
    assert_eq!(l.key.key, "new.example.org/x");
    assert_eq!(l.url, "https://new.example.org/x?v=1");
    assert_eq!(answer(route(&c, &request("GET", "/status", &new))).0, 501);

    // Defaults that cannot be compiled are as good as none.
    c.rules.defaults.exclude_paths = vec!["(".into()];
    let l = lookup(route(&c, &request("GET", "/status", &new)));
    assert_eq!((l.key.key.as_str(), l.url.as_str()), ("/status", "http://new.example.org/status"));
}
