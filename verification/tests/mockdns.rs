//! The DNS responder.
use cachic::testkit::mockdns::respond;

/// A query for `example.invalid`, type A.
fn query() -> Vec<u8> {
    let mut q = vec![0x12, 0x34, 0x01, 0x00];
    q.extend_from_slice(&1u16.to_be_bytes()); // QDCOUNT
    q.extend_from_slice(&[0, 0, 0, 0, 0, 0]);
    for label in ["example", "invalid"] {
        q.push(label.len() as u8);
        q.extend_from_slice(label.as_bytes());
    }
    q.push(0);
    q.extend_from_slice(&1u16.to_be_bytes()); // A
    q.extend_from_slice(&1u16.to_be_bytes()); // IN
    q
}

#[test]
fn answers_an_a_query_with_the_configured_address() {
    let response = respond(&query(), [10, 1, 2, 3]).unwrap();
    assert_eq!(&response[0..2], &[0x12, 0x34], "id not echoed");
    assert_eq!(
        u16::from_be_bytes([response[6], response[7]]),
        1,
        "no answer"
    );
    assert_eq!(&response[response.len() - 4..], &[10, 1, 2, 3]);
}

#[test]
fn answers_a_non_a_query_with_an_empty_noerror() {
    let mut q = query();
    let len = q.len();
    q[len - 4..len - 2].copy_from_slice(&28u16.to_be_bytes()); // AAAA
    let response = respond(&q, [10, 1, 2, 3]).unwrap();
    assert_eq!(u16::from_be_bytes([response[6], response[7]]), 0);
}

#[test]
fn refuses_to_answer_malformed_queries() {
    assert!(respond(&[], [127, 0, 0, 1]).is_none());
    assert!(respond(&[0u8; 8], [127, 0, 0, 1]).is_none());
    // A compression pointer in the question is invalid.
    let mut q = query();
    q[12] = 0xc0;
    assert!(respond(&q, [127, 0, 0, 1]).is_none());
}

#[test]
fn mockdns_never_panics_on_arbitrary_input() {
    let mut seed = 0xdead_beef_1234_5678u64;
    for _ in 0..20_000 {
        seed = seed
            .wrapping_mul(6364136223846793005)
            .wrapping_add(1442695040888963407);
        let len = (seed % 80) as usize;
        let bytes: Vec<u8> = (0..len)
            .map(|i| ((seed >> (i % 8 * 8)) & 0xff) as u8)
            .collect();
        let _ = respond(&bytes, [127, 0, 0, 1]);
    }
}

#[test]
fn a_response_is_laid_out_as_a_resolver_expects() {
    let q = query();
    let question = &q[12..];
    let mut expected = vec![0x12, 0x34, 0x81, 0x80, 0, 1, 0, 1, 0, 0, 0, 0];
    expected.extend_from_slice(question);
    expected.extend_from_slice(&[0xc0, 0x0c, 0, 1, 0, 1, 0, 0, 0, 30, 0, 4, 10, 1, 2, 3]);
    assert_eq!(respond(&q, [10, 1, 2, 3]), Some(expected));
}

#[test]
fn a_question_without_its_class_is_dropped() {
    let q = query();
    assert!(respond(&q[..q.len() - 1], [10, 1, 2, 3]).is_none());
    assert!(respond(&q[..q.len() - 3], [10, 1, 2, 3]).is_none());
}

#[test]
fn a_query_with_several_questions_is_dropped() {
    let mut q = query();
    q[5] = 2;
    assert!(respond(&q, [10, 1, 2, 3]).is_none());
    q[4] = 1;
    q[5] = 1;
    assert!(respond(&q, [10, 1, 2, 3]).is_none());
}
