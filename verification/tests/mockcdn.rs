//! The mock origin. Everything downstream trusts these behaviours, so they are asserted directly.
use cachic::proxy::headers::HeaderMap;
use cachic::proxy::server::{Head, Request};
use cachic::testkit::content;
use cachic::testkit::mockcdn::{
    handle, next_chunk, object_path, parse_path, parse_single_range, Answer, Config,
    RangeBehaviour, Stats,
};

fn request(method: &str, path: &str, range: Option<&str>) -> Request {
    let mut headers = HeaderMap::new();
    headers.append("Host", b"origin");
    if let Some(range) = range {
        headers.append("Range", range.as_bytes());
    }
    Request {
        method: method.to_string(),
        path: path.to_string(),
        path_and_query: Some(path.to_string()),
        headers,
    }
}

/// The head of an answer and the bytes that follow it.
fn fetch(config: &Config, stats: &mut Stats, req: &Request) -> (Head, Vec<u8>) {
    match handle(req, config, stats) {
        Answer::Refused(reply) => (reply.head, reply.body),
        Answer::Served {
            head,
            seed,
            start,
            len,
        } => {
            let mut body = Vec::new();
            while (body.len() as u64) < len {
                let chunk = next_chunk(seed, start, len, body.len() as u64);
                body.extend_from_slice(&chunk);
            }
            (head, body)
        }
    }
}

fn value(head: &Head, name: &str) -> Option<String> {
    head.headers.get_text(name)
}

#[test]
fn parses_object_paths() {
    assert_eq!(
        parse_path("/o/game/1000"),
        Some((content::seed_for("game"), 1000))
    );
    assert_eq!(parse_path("/nope"), None);
    assert_eq!(parse_path("/o/game/notanumber"), None);
}

#[test]
fn parses_ranges() {
    assert_eq!(parse_single_range("bytes=0-99", 1000), Some((0, 99)));
    assert_eq!(parse_single_range("bytes=500-", 1000), Some((500, 999)));
    assert_eq!(parse_single_range("bytes=-100", 1000), Some((900, 999)));
    // Clamped to the object, not rejected: RFC 9110 allows an over-long end.
    assert_eq!(parse_single_range("bytes=900-5000", 1000), Some((900, 999)));
    // Unsatisfiable and malformed cases.
    assert_eq!(parse_single_range("bytes=1000-1001", 1000), None);
    assert_eq!(parse_single_range("bytes=50-10", 1000), None);
    assert_eq!(parse_single_range("bytes=0-10,20-30", 1000), None);
    assert_eq!(parse_single_range("items=0-10", 1000), None);
}

#[test]
fn serves_full_object_matching_the_generator() {
    let size = 10_000u64;
    let path = object_path("alpha", size);
    let (head, body) = fetch(
        &Config::default(),
        &mut Stats::default(),
        &request("GET", &path, None),
    );
    assert_eq!(head.status, 200);
    assert_eq!(body.len() as u64, size);
    assert_eq!(
        body,
        content::range(content::seed_for("alpha"), 0, size as usize)
    );
}

#[test]
fn honours_single_ranges() {
    let size = 10_000u64;
    let path = object_path("beta", size);
    let seed = content::seed_for("beta");

    for (start, end) in [(0u64, 0u64), (0, 1023), (999, 2048), (9_000, 9_999)] {
        let (head, body) = fetch(
            &Config::default(),
            &mut Stats::default(),
            &request("GET", &path, Some(&format!("bytes={start}-{end}"))),
        );
        assert_eq!(head.status, 206);
        assert_eq!(
            value(&head, "content-range"),
            Some(format!("bytes {start}-{end}/{size}"))
        );
        let expected = content::range(seed, start, (end - start + 1) as usize);
        assert_eq!(body, expected, "range {start}-{end}");
    }
}

#[test]
fn rejects_unsatisfiable_ranges_with_416() {
    let path = object_path("gamma", 1_000);
    let (head, _) = fetch(
        &Config::default(),
        &mut Stats::default(),
        &request("GET", &path, Some("bytes=5000-6000")),
    );
    assert_eq!(head.status, 416);
    assert_eq!(value(&head, "content-range"), Some("bytes */1000".into()));
}

#[test]
fn range_ignoring_mode_returns_the_whole_object() {
    let config = Config {
        range_behaviour: RangeBehaviour::Ignore,
        ..Config::default()
    };
    let size = 5_000u64;
    let path = object_path("delta", size);
    let (head, body) = fetch(
        &config,
        &mut Stats::default(),
        &request("GET", &path, Some("bytes=0-99")),
    );
    assert_eq!(head.status, 200);
    assert_eq!(body.len() as u64, size);
    assert_eq!(value(&head, "accept-ranges"), Some("none".into()));
}

#[test]
fn head_returns_metadata_without_a_body() {
    let path = object_path("epsilon", 4_242);
    let (head, body) = fetch(
        &Config::default(),
        &mut Stats::default(),
        &request("HEAD", &path, None),
    );
    assert_eq!(head.status, 200);
    assert_eq!(value(&head, "content-length"), Some("4242".into()));
    assert!(body.is_empty());
}

#[test]
fn counts_requests_for_coalescing_assertions() {
    let mut stats = Stats::default();
    let path = object_path("zeta", 1_000);
    assert_eq!(stats.requests(), 0);
    for _ in 0..3 {
        fetch(
            &Config::default(),
            &mut stats,
            &request("GET", &path, Some("bytes=0-99")),
        );
    }
    assert_eq!(stats.requests(), 3);
    assert_eq!(stats.range_requests(), 3);
    assert_eq!(stats.bytes_served(), 300);
    stats.reset();
    assert_eq!(stats, Stats::default());
}

#[test]
fn unknown_paths_and_methods_are_refused() {
    let mut stats = Stats::default();
    let (head, _) = fetch(&Config::default(), &mut stats, &request("GET", "/x", None));
    assert_eq!(head.status, 404);
    let path = object_path("eta", 10);
    let (head, _) = fetch(&Config::default(), &mut stats, &request("PUT", &path, None));
    assert_eq!(head.status, 405);
    assert_eq!(stats.requests(), 2);
    assert_eq!(stats.bytes_served(), 0);
}

#[test]
fn several_ranges_are_answered_in_full() {
    let path = object_path("theta", 100);
    let (head, body) = fetch(
        &Config::default(),
        &mut Stats::default(),
        &request("GET", &path, Some("bytes=0-1,5-6")),
    );
    assert_eq!(head.status, 200);
    assert_eq!(body.len(), 100);
}

#[test]
fn the_etag_names_the_object_and_its_version() {
    let mut config = Config::default();
    let path = object_path("iota", 255);
    let seed = content::seed_for("iota");
    let (head, _) = fetch(&config, &mut Stats::default(), &request("GET", &path, None));
    assert_eq!(value(&head, "etag"), Some(format!("\"{seed:016x}-ff-0\"")));
    config.change_validators();
    let (head, _) = fetch(&config, &mut Stats::default(), &request("GET", &path, None));
    assert_eq!(value(&head, "etag"), Some(format!("\"{seed:016x}-ff-1\"")));
}

#[test]
fn names_with_slashes_read_back() {
    let path = object_path("a/b", 7);
    assert_eq!(path, "/o/a/b/7");
    assert_eq!(parse_path(&path), Some((content::seed_for("a/b"), 7)));
}

#[test]
fn a_body_is_streamed_in_chunks() {
    let len = 262_144 * 2 + 5;
    let first = next_chunk(1, 10, len, 0);
    assert_eq!(first.len(), 262_144);
    let last = next_chunk(1, 10, len, 262_144 * 2);
    assert_eq!(last, content::range(1, 10 + 262_144 * 2, 5));
}
