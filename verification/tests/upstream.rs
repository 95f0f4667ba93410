//! Reaching an origin: which addresses may be fetched from, and what becomes of an answer.
use cachic::proxy::headers::HeaderMap;
use cachic::upstream::client::{
    check_host, check_url, range_header, target_of, ClientConfig, Fetch, FetchAction, FetchEvent, ServiceLimit,
    UpstreamError, UpstreamResponse,
};
use cachic::upstream::guard::{check, check_v4, check_v6, IpAddr, Refusal};
use cachic::upstream::resolver::{name_servers, resolve, ResolveError};

/// Reads an address as it is usually written.
fn ip(s: &str) -> IpAddr {
    fn v4(s: &str) -> [u8; 4] {
        let parts: Vec<u8> = s.split('.').map(|p| p.parse().unwrap()).collect();
        [parts[0], parts[1], parts[2], parts[3]]
    }
    fn groups(s: &str) -> Vec<u16> {
        let mut out = Vec::new();
        for part in s.split(':').filter(|p| !p.is_empty()) {
            if part.contains('.') {
                let [a, b, c, d] = v4(part);
                out.push(u16::from_be_bytes([a, b]));
                out.push(u16::from_be_bytes([c, d]));
            } else {
                out.push(u16::from_str_radix(part, 16).unwrap());
            }
        }
        out
    }
    if !s.contains(':') {
        return IpAddr::V4(v4(s));
    }
    let (head, tail) = match s.split_once("::") {
        Some((head, tail)) => (groups(head), groups(tail)),
        None => (groups(s), Vec::new()),
    };
    let mut all = [0u16; 8];
    all[..head.len()].copy_from_slice(&head);
    all[8 - tail.len()..].copy_from_slice(&tail);
    IpAddr::V6(all)
}

fn refused(s: &str) -> Refusal {
    check(ip(s), false).expect_err(&format!("{s} should be refused"))
}

fn allowed(s: &str) {
    check(ip(s), false).unwrap_or_else(|e| panic!("{s} should be allowed: {e:?}"));
}

#[test]
fn allows_ordinary_public_addresses() {
    for a in ["1.1.1.1", "8.8.8.8", "23.55.144.1", "2606:4700:4700::1111"] {
        allowed(a);
    }
}

#[test]
fn refuses_rfc1918() {
    assert_eq!(refused("10.0.0.1"), Refusal::Private);
    assert_eq!(refused("172.16.0.1"), Refusal::Private);
    assert_eq!(refused("192.168.1.1"), Refusal::Private);
}

#[test]
fn refuses_loopback_and_unspecified() {
    assert_eq!(refused("127.0.0.1"), Refusal::Loopback);
    assert_eq!(refused("0.0.0.0"), Refusal::Unspecified);
    assert_eq!(refused("::1"), Refusal::Loopback);
    assert_eq!(refused("::"), Refusal::Unspecified);
}

#[test]
fn refuses_the_cloud_metadata_endpoint() {
    // The single most valuable target for an SSRF against a caching proxy.
    assert_eq!(refused("169.254.169.254"), Refusal::LinkLocal);
}

#[test]
fn refuses_ipv4_mapped_private_addresses() {
    // ::ffff:192.168.1.1 must be judged by IPv4 rules, or the guard is trivially bypassed.
    assert_eq!(refused("::ffff:192.168.1.1"), Refusal::Private);
    assert_eq!(refused("::ffff:127.0.0.1"), Refusal::Loopback);
}

#[test]
fn refuses_ipv6_unique_local_and_link_local() {
    assert_eq!(refused("fc00::1"), Refusal::Private);
    assert_eq!(refused("fd12:3456::1"), Refusal::Private);
    assert_eq!(refused("fe80::1"), Refusal::LinkLocal);
}

#[test]
fn refuses_carrier_grade_nat_and_reserved_ranges() {
    assert_eq!(refused("100.64.0.1"), Refusal::Reserved);
    assert_eq!(refused("100.127.255.255"), Refusal::Reserved);
    assert_eq!(refused("240.0.0.1"), Refusal::Reserved);
    assert_eq!(refused("192.0.2.1"), Refusal::Reserved);
    assert_eq!(refused("198.51.100.1"), Refusal::Reserved);
    assert_eq!(refused("203.0.113.1"), Refusal::Reserved);
    assert_eq!(refused("198.18.0.1"), Refusal::Reserved);
    assert_eq!(refused("2001:db8::1"), Refusal::Reserved);
}

#[test]
fn allows_addresses_adjacent_to_reserved_ranges() {
    // Off-by-one in a range check silently blocks real CDNs.
    allowed("100.63.255.255");
    allowed("100.128.0.1");
    allowed("198.17.255.255");
    allowed("198.20.0.1");
    allowed("223.255.255.255");
}

#[test]
fn refuses_multicast_and_broadcast() {
    assert_eq!(refused("224.0.0.1"), Refusal::MulticastOrBroadcast);
    assert_eq!(refused("255.255.255.255"), Refusal::MulticastOrBroadcast);
    assert_eq!(refused("ff02::1"), Refusal::MulticastOrBroadcast);
}

#[test]
fn allow_private_opens_everything_deliberately() {
    // For an operator pointing the cache at an internal mirror. Off by default.
    for a in ["10.0.0.1", "127.0.0.1", "169.254.169.254", "fc00::1"] {
        check(ip(a), true).unwrap();
    }
}

#[test]
fn a_refusal_says_what_kind_of_address_it_was() {
    assert_eq!(Refusal::Private.message(), "private address");
    assert_eq!(Refusal::Loopback.message(), "loopback address");
}

#[test]
fn refuses_to_build_without_resolvers() {
    // There is no fallback to the system resolver, so no servers means no way to resolve
    // anything. Failing at construction makes that a startup error.
    let err = name_servers(&Vec::new()).unwrap_err();
    assert!(matches!(err, ResolveError::NoResolvers));
    let servers = name_servers(&vec![ip("1.1.1.1")]).unwrap();
    assert!(servers.iter().all(|s| s.port == 53 && s.ip == ip("1.1.1.1")));
}

#[test]
fn applies_the_guard_to_literal_addresses() {
    // A literal needs no DNS, but must still be guarded.
    assert!(resolve("192.168.1.1", &vec![ip("192.168.1.1")], 80, false).is_err());
    assert!(resolve("127.0.0.1", &vec![ip("127.0.0.1")], 80, false).is_err());
    let ok = resolve("93.184.216.34", &vec![ip("93.184.216.34")], 80, false).unwrap();
    assert_eq!(ok.len(), 1);
    assert_eq!(ok[0].port, 80);
}

#[test]
fn allow_private_permits_literals_deliberately() {
    assert!(resolve("192.168.1.1", &vec![ip("192.168.1.1")], 80, true).is_ok());
}

#[test]
fn a_refusal_explains_why_and_what_to_do() {
    let err = resolve("10.0.0.1", &vec![ip("10.0.0.1")], 80, false).unwrap_err();
    let text = err.message();
    assert!(text.contains("open proxy"), "{text}");
    assert!(text.contains("allow-private"), "{text}");
}

#[test]
fn only_the_public_addresses_of_a_host_are_kept() {
    let answers = vec![ip("10.0.0.1"), ip("93.184.216.34"), ip("::1")];
    let ok = resolve("h", &answers, 443, false).unwrap();
    assert_eq!(ok.len(), 1);
    assert_eq!(ok[0].ip, ip("93.184.216.34"));
    assert!(matches!(
        resolve("h", &Vec::new(), 443, false),
        Err(ResolveError::NoAddresses { .. })
    ));
}

/// The system resolver is unreachable by construction: only the servers that are configured are
/// ever asked, and none are made up where none are given.
#[test]
fn system_resolver_constructors_are_not_compiled_in() {
    assert_eq!(name_servers(&Vec::new()), Err(ResolveError::NoResolvers));
}

#[test]
fn derives_host_and_port_from_the_url() {
    // A Host header carries "example.com:8080", which is neither a hostname nor an address
    // literal. Deriving from the URL is what stops that reaching the resolver.
    assert_eq!(
        check_url("http://192.168.1.1:8080/x"),
        Ok(("192.168.1.1".into(), 8080))
    );
    assert!(resolve("192.168.1.1", &vec![ip("192.168.1.1")], 8080, false).is_err());
    assert_eq!(
        check_url("http://93.184.216.34/x"),
        Ok(("93.184.216.34".into(), 80))
    );
    assert_eq!(check_url("https://h/x"), Ok(("h".into(), 443)));
    assert_eq!(
        check_url("not a url"),
        Err(UpstreamError::Status {
            url: "not a url".into(),
            status: 400
        })
    );
}

#[test]
fn a_url_without_a_port_of_its_own_is_http() {
    assert_eq!(
        target_of("u", Some((Some("h".into()), None))),
        Ok(("h".into(), 80))
    );
    assert!(target_of("u", None).is_err());
}

#[test]
fn a_service_without_a_limit_is_bounded_only_globally() {
    assert_eq!(ClientConfig::default().service_permits("steam"), None);
}

fn limited(limits: &[(&str, usize)]) -> ClientConfig {
    ClientConfig {
        per_service_inflight: limits
            .iter()
            .map(|(service, limit)| ServiceLimit {
                service: service.to_string(),
                limit: *limit,
            })
            .collect(),
        ..ClientConfig::default()
    }
}

#[test]
fn per_service_limits_are_independent() {
    // One origin stalling must not consume the global budget and starve every other service.
    let c = limited(&[("steam", 2), ("wsus", 1)]);
    assert_eq!(c.service_permits("steam"), Some(2));
    assert_eq!(c.service_permits("wsus"), Some(1));
}

#[test]
fn a_zero_service_limit_is_treated_as_one() {
    // Configuration rejects zero, but a zero here would deadlock rather than throttle, so it
    // is clamped rather than trusted.
    assert_eq!(limited(&[("steam", 0)]).service_permits("steam"), Some(1));
}

#[test]
fn parses_the_total_length_from_content_range() {
    let mut headers = HeaderMap::new();
    headers.insert("content-range", b"bytes 0-1023/98765");
    let r = UpstreamResponse {
        status: 206,
        headers,
        body: Vec::new(),
    };
    assert_eq!(r.content_range_total(), Some(98765));
}

#[test]
fn a_malformed_content_range_yields_no_length_rather_than_a_wrong_one() {
    for value in ["bytes 0-1023", "nonsense", "bytes */", "bytes 0-1/abc"] {
        let mut headers = HeaderMap::new();
        headers.insert("content-range", value.as_bytes());
        let r = UpstreamResponse {
            status: 206,
            headers,
            body: Vec::new(),
        };
        assert_eq!(r.content_range_total(), None, "value {value:?}");
    }
    let r = UpstreamResponse::for_test_with_content_range("bytes 0-1/2").unwrap();
    assert_eq!(r.content_range_total(), Some(2));
    assert!(UpstreamResponse::for_test_with_content_range("a\nb").is_none());
}

#[test]
fn only_transport_failures_are_retried() {
    let mut fetch = Fetch::new("http://h/x", 1);
    let failed = || FetchEvent::Failed {
        transient: true,
        reason: "reset".into(),
    };
    assert_eq!(fetch.step(failed()), FetchAction::Retry);
    assert_eq!(
        fetch.step(failed()),
        FetchAction::Fail(UpstreamError::Request {
            url: "http://h/x".into(),
            source: "reset".into()
        })
    );
    let answered = |status: u16, location: Option<&str>| FetchEvent::Answered {
        status,
        location: location.map(|l| l.to_string()),
    };
    let mut fetch = Fetch::new("u", 1);
    assert_eq!(fetch.step(answered(206, None)), FetchAction::Accept);
    match fetch.step(answered(503, None)) {
        FetchAction::Fail(e) => assert_eq!(
            e.message(),
            "upstream u answered 503 Service Unavailable, which is not cacheable"
        ),
        other => panic!("{other:?}"),
    }
    match fetch.step(answered(302, Some("/y"))) {
        FetchAction::Fail(e) => assert!(e.message().contains("redirected to \"/y\"")),
        other => panic!("{other:?}"),
    }
}

#[test]
fn a_range_is_asked_for_with_both_ends() {
    assert_eq!(range_header(10, 19), "bytes=10-19");
}

#[test]
fn refuses_a_private_host_before_making_a_request() {
    // Fails identically whether or not anything is listening, so the guard cannot be probed
    // for what exists on the LAN.
    let host = "192.168.1.1";
    let err = check_host(resolve(host, &vec![ip(host)], 80, false)).unwrap_err();
    assert!(matches!(err, UpstreamError::Resolve(_)), "{}", err.message());
}

#[test]
fn allows_a_public_literal() {
    let host = "93.184.216.34";
    check_host(resolve(host, &vec![ip(host)], 80, false)).unwrap();
}

#[test]
fn response_headers_are_found_in_any_case() {
    let mut headers = HeaderMap::new();
    headers.append("ETag", b"\"v1\"");
    let r = UpstreamResponse {
        status: 200,
        headers,
        body: Vec::new(),
    };
    for name in ["ETag", "etag", "ETAG"] {
        assert_eq!(r.header(name), Some("\"v1\"".into()));
    }
    assert_eq!(r.header("Last-Modified"), None);
}

#[test]
fn the_blocks_of_ipv6_end_where_they_should() {
    assert_eq!(refused("::"), Refusal::Unspecified);
    assert_eq!(refused("::1"), Refusal::Loopback);
    assert_eq!(refused("ff00::"), Refusal::MulticastOrBroadcast);
    assert_eq!(refused("fdff:ffff::"), Refusal::Private);
    assert_eq!(refused("febf:ffff::"), Refusal::LinkLocal);
    assert_eq!(refused("2001:db8:ffff::"), Refusal::Reserved);
    assert_eq!(refused("::ffff:10.0.0.1"), refused("10.0.0.1"));
    for v4 in [[10, 0, 0, 1], [8, 8, 8, 8], [169, 254, 0, 1], [255, 255, 255, 255], [0, 0, 0, 1]] {
        let [a, b, c, d] = v4;
        let (high, low) = (u16::from_be_bytes([a, b]), u16::from_be_bytes([c, d]));
        assert_eq!(check_v6([0, 0, 0, 0, 0, 0xffff, high, low]), check_v4(v4));
    }
    for a in ["::2", "fbff::1", "fe00::1", "fe7f::1", "fec0::1", "2001:db9::1", "::ffff:8.8.8.8"] {
        allowed(a);
    }
}
