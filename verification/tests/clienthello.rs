//! The name in a TLS hello.
use cachic::sni::clienthello::{
    looks_like_tls, record_length, server_name, EXT_SERVER_NAME, HANDSHAKE_CLIENT_HELLO,
    NAME_TYPE_HOST, RECORD_HANDSHAKE,
};

/// Build a ClientHello carrying the given SNI host.
fn client_hello(host: Option<&str>) -> Vec<u8> {
    let mut extensions = Vec::new();
    if let Some(host) = host {
        let mut name = vec![NAME_TYPE_HOST];
        name.extend_from_slice(&(host.len() as u16).to_be_bytes());
        name.extend_from_slice(host.as_bytes());

        let mut list = (name.len() as u16).to_be_bytes().to_vec();
        list.extend_from_slice(&name);

        extensions.extend_from_slice(&EXT_SERVER_NAME.to_be_bytes());
        extensions.extend_from_slice(&(list.len() as u16).to_be_bytes());
        extensions.extend_from_slice(&list);
    }

    let mut body = vec![HANDSHAKE_CLIENT_HELLO];
    let mut hello = Vec::new();
    hello.extend_from_slice(&[0x03, 0x03]); // client version
    hello.extend_from_slice(&[0u8; 32]); // random
    hello.push(0); // session id length
    hello.extend_from_slice(&2u16.to_be_bytes()); // cipher suites length
    hello.extend_from_slice(&[0x13, 0x01]);
    hello.push(1); // compression methods length
    hello.push(0);
    hello.extend_from_slice(&(extensions.len() as u16).to_be_bytes());
    hello.extend_from_slice(&extensions);

    let len = hello.len();
    body.push((len >> 16) as u8);
    body.extend_from_slice(&((len & 0xffff) as u16).to_be_bytes());
    body.extend_from_slice(&hello);

    let mut record = vec![RECORD_HANDSHAKE, 0x03, 0x01];
    record.extend_from_slice(&(body.len() as u16).to_be_bytes());
    record.extend_from_slice(&body);
    record
}

#[test]
fn extracts_the_server_name() {
    let record = client_hello(Some("lancache.steamcontent.com"));
    assert_eq!(
        server_name(&record).as_deref(),
        Some("lancache.steamcontent.com")
    );
}

#[test]
fn lowercases_the_name() {
    let record = client_hello(Some("CDN.Example.COM"));
    assert_eq!(server_name(&record).as_deref(), Some("cdn.example.com"));
}

#[test]
fn a_hello_without_sni_yields_nothing() {
    // Valid TLS, just no SNI. We have no way to know where to send the bytes, so the caller
    // closes rather than guessing.
    let record = client_hello(None);
    assert_eq!(server_name(&record), None);
}

#[test]
fn rejects_non_handshake_records() {
    let mut record = client_hello(Some("example.com"));
    record[0] = 0x17; // application data
    assert_eq!(server_name(&record), None);
    assert!(!looks_like_tls(&record));
}

#[test]
fn truncation_at_every_offset_yields_none_rather_than_panicking() {
    // Every length in this format is attacker-controlled. Truncating at each byte exercises
    // every bounds check in turn.
    let record = client_hello(Some("cdn.example.com"));
    for cut in 0..record.len() {
        let _ = server_name(&record[..cut]);
    }
}

#[test]
fn a_lying_length_prefix_does_not_read_past_the_buffer() {
    let mut record = client_hello(Some("cdn.example.com"));
    // Claim the record is far longer than it is.
    record[3] = 0xff;
    record[4] = 0xff;
    let _ = server_name(&record);
}

#[test]
fn arbitrary_bytes_never_panic() {
    let mut seed = 0x5eed_1234_abcd_ef01u64;
    for _ in 0..20_000 {
        seed = seed
            .wrapping_mul(6364136223846793005)
            .wrapping_add(1442695040888963407);
        let len = (seed % 300) as usize;
        let bytes: Vec<u8> = (0..len)
            .map(|i| ((seed >> (i % 8 * 8)) & 0xff) as u8)
            .collect();
        let _ = server_name(&bytes);
        let _ = record_length(&bytes);
        let _ = looks_like_tls(&bytes);
    }
}

#[test]
fn reads_the_declared_record_length() {
    let record = client_hello(Some("cdn.example.com"));
    assert_eq!(record_length(&record), Some(record.len()));
    assert_eq!(record_length(&record[..4]), None);
}

#[test]
fn rejects_a_non_ascii_name() {
    // Not resolvable, and not something to pass to a resolver.
    let mut record = client_hello(Some("aaaaaaaa"));
    let position = record.len() - 8;
    record[position] = 0xff;
    assert_eq!(server_name(&record), None);
}
