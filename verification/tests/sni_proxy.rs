//! SNI pass-through.
use cachic::config::units::Duration;
use cachic::sni::proxy::{hello_timed_out, Dial, Hello, HelloStep, SniError, SniStats};
use cachic::upstream::guard::IpAddr;
use cachic::upstream::resolver::{resolve, ResolveError, SocketAddr};

/// A minimal ClientHello for `host`.
fn client_hello(host: &str) -> Vec<u8> {
    let mut name = vec![0u8];
    name.extend_from_slice(&(host.len() as u16).to_be_bytes());
    name.extend_from_slice(host.as_bytes());
    let mut list = (name.len() as u16).to_be_bytes().to_vec();
    list.extend_from_slice(&name);
    let mut extensions = 0u16.to_be_bytes().to_vec();
    extensions.extend_from_slice(&(list.len() as u16).to_be_bytes());
    extensions.extend_from_slice(&list);

    let mut hello = vec![0x03, 0x03];
    hello.extend_from_slice(&[0u8; 32]);
    hello.push(0);
    hello.extend_from_slice(&2u16.to_be_bytes());
    hello.extend_from_slice(&[0x13, 0x01]);
    hello.push(1);
    hello.push(0);
    hello.extend_from_slice(&(extensions.len() as u16).to_be_bytes());
    hello.extend_from_slice(&extensions);

    let mut body = vec![0x01];
    body.push((hello.len() >> 16) as u8);
    body.extend_from_slice(&((hello.len() & 0xffff) as u16).to_be_bytes());
    body.extend_from_slice(&hello);

    let mut record = vec![0x16, 0x03, 0x01];
    record.extend_from_slice(&(body.len() as u16).to_be_bytes());
    record.extend_from_slice(&body);
    record
}

#[test]
fn splices_to_a_real_origin() {
    let hello = client_hello("127.0.0.1");
    let mut stats = SniStats::default();
    stats.accept();
    let mut reader = Hello::new();
    // The hello may come in pieces; nothing is concluded from a partial one.
    assert_eq!(reader.push(&hello[..20]), HelloStep::More);
    let host = match reader.push(&hello[20..]) {
        HelloStep::Host(host) => host,
        other => panic!("{other:?}"),
    };
    assert_eq!(host, "127.0.0.1");
    let found = resolve(&host, &vec![IpAddr::V4([127, 0, 0, 1])], 443, true);
    let dial = Dial::resolved(host, found, &mut stats).unwrap();
    assert_eq!(
        dial.address(),
        Some(SocketAddr {
            ip: IpAddr::V4([127, 0, 0, 1]),
            port: 443
        })
    );
    // The origin must receive the replayed hello, not an empty stream.
    assert_eq!(reader.replay(), &hello[..]);
    stats.established(reader.replay().len());
    stats.finished(5, 7);
    assert_eq!(stats.accepted, 1);
    assert_eq!(stats.spliced, 1);
    assert_eq!(stats.bytes_client_to_origin, hello.len() as u64 + 5);
    assert_eq!(stats.bytes_origin_to_client, 7);
}

#[test]
fn refuses_a_private_sni_target() {
    let mut stats = SniStats::default();
    let mut reader = Hello::new();
    let host = match reader.push(&client_hello("192.168.1.1")) {
        HelloStep::Host(host) => host,
        other => panic!("{other:?}"),
    };
    let found = resolve(&host, &vec![IpAddr::V4([192, 168, 1, 1])], 443, false);
    let refused = Dial::resolved(host, found, &mut stats).unwrap_err();
    assert!(matches!(refused, SniError::Refused { .. }));
    assert!(refused.message().starts_with("refusing 192.168.1.1: "));
    assert_eq!(stats.refused, 1);
    assert_eq!(stats.spliced, 0);
}

#[test]
fn closes_a_connection_with_no_sni() {
    // A handshake record with no extensions at all.
    let mut hello = vec![0x03, 0x03];
    hello.extend_from_slice(&[0u8; 32]);
    hello.push(0);
    hello.extend_from_slice(&2u16.to_be_bytes());
    hello.extend_from_slice(&[0x13, 0x01]);
    hello.push(1);
    hello.push(0);
    hello.extend_from_slice(&0u16.to_be_bytes());
    let mut body = vec![0x01];
    body.push((hello.len() >> 16) as u8);
    body.extend_from_slice(&((hello.len() & 0xffff) as u16).to_be_bytes());
    body.extend_from_slice(&hello);
    let mut record = vec![0x16, 0x03, 0x01];
    record.extend_from_slice(&(body.len() as u16).to_be_bytes());
    record.extend_from_slice(&body);

    let step = Hello::new().push(&record);
    assert_eq!(step, HelloStep::Close(SniError::NoServerName));
    let mut stats = SniStats::default();
    stats.turned_away(&SniError::NoServerName);
    stats.turned_away(&SniError::NotTls);
    assert_eq!(stats.no_sni, 1);
}

#[test]
fn closes_a_non_tls_connection_immediately() {
    let step = Hello::new().push(b"GET / HTTP/1.1\r\n\r\n");
    assert_eq!(step, HelloStep::Close(SniError::NotTls));
    assert_eq!(Hello::new().push(b""), HelloStep::Close(SniError::NotTls));
}

#[test]
fn a_silent_client_does_not_hold_a_task_forever() {
    let e = hello_timed_out();
    assert_eq!(e, SniError::HelloTimeout(Duration::from_secs(10)));
    assert_eq!(e.message(), "client sent no ClientHello within 10s");
}

#[test]
fn a_hello_that_never_ends_is_cut_off() {
    let mut reader = Hello::new();
    let mut chunk = vec![0u8; 16 * 1024];
    chunk[0] = 0x16;
    chunk[3] = 0xff;
    chunk[4] = 0xff;
    assert_eq!(reader.push(&chunk), HelloStep::More);
    assert_eq!(
        reader.push(&[0; 6]),
        HelloStep::Close(SniError::HelloTooLarge(16 * 1024 + 5))
    );
}

#[test]
fn every_address_is_tried_before_giving_up() {
    let mut stats = SniStats::default();
    let at = |last: u8| SocketAddr {
        ip: IpAddr::V4([8, 8, 8, last]),
        port: 443,
    };
    let dial = Dial::resolved("h".into(), Ok(vec![at(1), at(2)]), &mut stats).unwrap();
    assert_eq!(dial.address(), Some(at(1)));
    let dial = dial.failed(None);
    assert_eq!(dial.address(), Some(at(2)));
    let dial = dial.failed(Some("refused".into()));
    assert_eq!(dial.address(), None);
    let e = dial.give_up(&mut stats);
    assert_eq!(e.message(), "cannot reach h: refused");
    assert_eq!(stats.upstream_failed, 1);

    let none = Dial::resolved("h".into(), Ok(Vec::new()), &mut stats).unwrap();
    assert_eq!(none.give_up(&mut stats).message(), "cannot reach h: no addresses");
    let e = Dial::resolved("h".into(), Err(ResolveError::NoResolvers), &mut stats);
    assert!(e.is_err());
}

#[test]
fn only_what_the_guard_refused_counts_as_refused() {
    let mut stats = SniStats::default();
    let lookup = ResolveError::Lookup {
        host: "h".into(),
        source: "timed out".into(),
    };
    let none = resolve("h", &Vec::new(), 443, false).map(|_| ()).unwrap_err();
    for e in [lookup, none, ResolveError::NoResolvers] {
        assert!(!matches!(e, ResolveError::Refused { .. }));
        assert!(Dial::resolved("h".into(), Err(e), &mut stats).is_err());
        assert_eq!(stats.refused, 0);
    }
    let refused = resolve("h", &vec![IpAddr::V4([10, 0, 0, 1])], 443, false);
    assert!(Dial::resolved("h".into(), refused, &mut stats).is_err());
    assert_eq!(stats.refused, 1);
}
