//! Slices and index entries on disk, and how much room there is.
use cachic::store::index::{total_bytes, IndexError, ObjectMeta, LAST_SEEN_GRANULARITY};
use cachic::store::slice::{
    object_id, CodeError, ObjectId, SliceHeader, SliceKey, SliceValue,
};
use cachic::store::space::{effective_cap, from_blocks, is_engaged, DiskSpace};

fn header() -> SliceHeader {
    SliceHeader {
        slice_size: 1024,
        total_len: 10_000,
        generation: 3,
        etag: Some("\"abc123\"".into()),
        last_modified: None,
        content_type: Some("application/octet-stream".into()),
    }
}

fn roundtrip(value: &SliceValue) -> Result<SliceValue, CodeError> {
    SliceValue::decode(&value.encode()?)
}

#[test]
fn slice_key_roundtrips() {
    let key = SliceKey::new(object_id("/o/game/1000"), 7, 42);
    assert_eq!(SliceKey::decode(&key.encode()).unwrap(), key);
    assert_eq!(key.estimated_size(), SliceKey::ENCODED_LEN);
}

#[test]
fn slice_value_roundtrips() {
    let value = SliceValue::new(header(), b"hello world".to_vec());
    assert_eq!(roundtrip(&value).unwrap(), value);
}

#[test]
fn estimated_size_matches_encoded_length() {
    // foyer uses the estimate to pick between engines, so a wrong estimate is a silent
    // capacity-accounting bug rather than a crash.
    let value = SliceValue::new(header(), vec![7u8; 4096]);
    let buf = value.encode().unwrap();
    assert_eq!(value.estimated_size(), buf.len());
}

#[test]
fn absent_and_empty_header_strings_are_distinct() {
    let mut h = header();
    h.etag = Some(String::new());
    h.last_modified = None;
    let value = SliceValue::new(h.clone(), b"x".to_vec());
    let decoded = roundtrip(&value).unwrap();
    assert_eq!(decoded.header.etag.as_deref(), Some(""));
    assert_eq!(decoded.header.last_modified, None);
}

#[test]
fn corrupt_payload_fails_to_decode() {
    let value = SliceValue::new(header(), vec![1u8; 512]);
    let mut buf = value.encode().unwrap();
    // Flip a bit in the payload, which is the last 512 bytes.
    let last = buf.len() - 1;
    buf[last] ^= 0x01;
    let err = SliceValue::decode(&buf).unwrap_err();
    assert!(
        err.message().contains("checksum mismatch"),
        "unexpected error: {err:?}"
    );
}

#[test]
fn foreign_bytes_fail_to_decode() {
    let mut buf = vec![0u8; 64];
    buf[..4].copy_from_slice(&0xDEAD_BEEFu32.to_le_bytes());
    let err = SliceValue::decode(&buf).unwrap_err();
    assert!(
        err.message().contains("magic mismatch"),
        "unexpected: {err:?}"
    );
}

#[test]
fn truncated_payload_fails_to_decode() {
    // A torn write must read back as an error, not as a short slice.
    let value = SliceValue::new(header(), vec![9u8; 1024]);
    let mut buf = value.encode().unwrap();
    buf.truncate(buf.len() - 100);
    assert!(SliceValue::decode(&buf).is_err());
}

#[test]
fn object_ids_differ_per_key() {
    assert_ne!(object_id("/o/a/1"), object_id("/o/b/1"));
    assert_eq!(object_id("/o/a/1"), object_id("/o/a/1"));
}

#[test]
fn every_way_to_fail_has_its_error() {
    assert_eq!(SliceKey::decode(&[0; 23]), Err(CodeError::Short));
    assert_eq!(SliceValue::decode(&[]), Err(CodeError::Short));
    // A header string that is no UTF-8.
    let mut buf = SliceValue::new(header(), vec![1, 2, 3]).encode().unwrap();
    let at = buf.windows(6).position(|w| w == b"abc123").unwrap();
    buf[at] = 0xff;
    let err = SliceValue::decode(&buf).unwrap_err();
    assert!(matches!(err, CodeError::Parse { .. }));
    assert_eq!(
        err.message(),
        "header string is not utf-8: invalid utf-8 sequence of 1 bytes from index 1"
    );
    assert_eq!(CodeError::Short.message(), "failed to fill whole buffer");
    // Another format.
    buf[0] ^= 1;
    assert!(matches!(
        SliceValue::decode(&buf),
        Err(CodeError::MagicMismatch { .. })
    ));
    assert_eq!(
        CodeError::MagicMismatch { found: 0xbeef }.message(),
        "slice magic mismatch: expected 0x43414331, found 0xbeef"
    );
}

#[test]
fn object_ids_are_the_start_of_the_hash() {
    let hash = blake3::hash(b"/o/a/1");
    assert_eq!(&object_id("/o/a/1")[..], &hash.as_bytes()[..16]);
}

#[test]
fn a_slice_carries_the_checksum_of_its_payload() {
    let value = SliceValue::new(header(), b"payload".to_vec());
    let buf = value.encode().unwrap();
    let sum = xxhash_rust::xxh3::xxh3_64(b"payload").to_le_bytes();
    assert!(buf.windows(8).any(|w| w == sum));
    assert!(buf.ends_with(b"payload"));
}

const NOW: u64 = 1_700_000_000;

fn meta(key: &str, len: u64) -> ObjectMeta {
    ObjectMeta {
        key: key.into(),
        total_len: len,
        generation: 0,
        etag: Some("\"v1\"".into()),
        last_modified: None,
        content_type: Some("application/octet-stream".into()),
        no_ranges: false,
        created: NOW,
        last_seen: NOW,
        stale: false,
    }
}

#[test]
fn stores_and_returns_metadata() {
    let id = object_id("/a");
    let m = meta("/a", 1234);
    assert_eq!(ObjectMeta::decode(&m.encode(), &id), Ok(m));
}

#[test]
fn round_trips_absent_and_present_optional_fields() {
    let id = object_id("/b");
    let mut m = meta("/b", 1);
    m.etag = None;
    m.last_modified = Some(String::new());
    m.content_type = None;
    let got = ObjectMeta::decode(&m.encode(), &id).unwrap();
    assert_eq!(got.etag, None);
    assert_eq!(got.last_modified.as_deref(), Some(""));
    assert_eq!(got.content_type, None);
}

#[test]
fn touch_does_not_write_when_recently_seen() {
    // Writing on every hit would turn a busy LAN party into a stream of index writes.
    assert!(
        ObjectMeta::touch(Some(meta("/d", 1)), NOW).is_none(),
        "fresh entry should not be rewritten"
    );
}

#[test]
fn touch_writes_once_the_entry_is_stale() {
    let mut m = meta("/e", 1);
    m.last_seen = NOW - LAST_SEEN_GRANULARITY - 60;
    let before = m.last_seen;
    assert!(ObjectMeta::touch(Some(m), NOW).unwrap().last_seen > before);
}

#[test]
fn touching_an_unknown_object_is_not_an_error() {
    assert!(ObjectMeta::touch(None, NOW).is_none());
}

#[test]
fn prunes_only_entries_older_than_max_age() {
    let fresh = object_id("/fresh");
    let stale = object_id("/stale");
    let mut old = meta("/stale", 1);
    old.last_seen = NOW - 10_000;
    let entries: Vec<(ObjectId, Vec<u8>)> = vec![
        (fresh, meta("/fresh", 1).encode()),
        (stale, old.encode()),
    ];
    assert_eq!(ObjectMeta::prune(&entries, NOW, 5_000), Ok(vec![stale]));
}

#[test]
fn prune_on_an_empty_index_is_a_no_op() {
    assert_eq!(ObjectMeta::prune(&Vec::new(), NOW, 1), Ok(Vec::new()));
}

#[test]
fn invalidate_bumps_the_generation_and_marks_the_entry_stale() {
    // The generation must persist so the previous version's slices stay unreachable across a
    // restart; everything else is unreliable and must be re-probed.
    let (generation, got) = ObjectMeta::invalidate(Some(meta("/i", 100)));
    assert_eq!(generation, 1);
    let got = got.unwrap();
    assert!(got.stale, "entry was not marked stale");
    assert_eq!(got.generation, 1);

    // A second change bumps again rather than resetting.
    assert_eq!(ObjectMeta::invalidate(Some(got)).0, 2);
}

#[test]
fn invalidating_an_unknown_object_starts_at_generation_one() {
    // Not zero: generation 0 slices may already be on disk from a previous run.
    assert_eq!(ObjectMeta::invalidate(None).0, 1);
}

#[test]
fn a_truncated_entry_is_reported_rather_than_silently_wrong() {
    // If the index is corrupt we must notice and rebuild from slices, not serve bytes
    // described by half-read metadata.
    let id = object_id("/g");
    let encoded = meta("/g", 1).encode();
    let err = ObjectMeta::decode(&encoded[..encoded.len() / 2], &id).unwrap_err();
    assert!(matches!(err, IndexError::Corrupt { .. }), "{err:?}");
    for cut in 0..encoded.len() {
        assert!(ObjectMeta::decode(&encoded[..cut], &id).is_err());
    }
}

#[test]
fn indexed_bytes_are_added_up() {
    let entries: Vec<(ObjectId, Vec<u8>)> = vec![
        (object_id("/a"), meta("/a", 10).encode()),
        (object_id("/b"), meta("/b", 32).encode()),
    ];
    assert_eq!(total_bytes(&entries), Ok(42));
    let broken: Vec<(ObjectId, Vec<u8>)> = vec![([7; 16], vec![1, 2, 3])];
    match total_bytes(&broken) {
        Err(IndexError::Corrupt { id, .. }) => assert_eq!(id, "07".repeat(16)),
        other => panic!("{other:?}"),
    }
}

const GIB: u64 = 1 << 30;

fn disk(total: u64, available: u64) -> DiskSpace {
    DiskSpace { total, available }
}

#[test]
fn a_roomy_disk_leaves_the_configured_cap_alone() {
    let cap = effective_cap(100 * GIB, 10 * GIB, 20 * GIB, disk(500 * GIB, 400 * GIB));
    assert_eq!(cap, 100 * GIB);
    assert!(!is_engaged(100 * GIB, cap));
}

#[test]
fn a_full_disk_reduces_the_cap_to_what_is_already_used() {
    // Something else filled the volume. The cache keeps what it has and grows no further,
    // rather than writing until the filesystem returns ENOSPC.
    let cap = effective_cap(100 * GIB, 10 * GIB, 20 * GIB, disk(500 * GIB, 2 * GIB));
    assert_eq!(cap, 20 * GIB);
    assert!(is_engaged(100 * GIB, cap));
}

#[test]
fn the_reserve_is_honoured_rather_than_consumed() {
    // 30 GiB available, 10 GiB reserved, so 20 GiB is claimable on top of the 5 GiB in use.
    let cap = effective_cap(100 * GIB, 10 * GIB, 5 * GIB, disk(500 * GIB, 30 * GIB));
    assert_eq!(cap, 25 * GIB);
}

#[test]
fn less_free_space_than_the_reserve_freezes_the_cache_at_its_current_size() {
    let cap = effective_cap(100 * GIB, 10 * GIB, 40 * GIB, disk(500 * GIB, 4 * GIB));
    assert_eq!(
        cap,
        40 * GIB,
        "the cache must not be asked to shrink below what it holds"
    );
}

#[test]
fn a_completely_full_disk_does_not_underflow() {
    let cap = effective_cap(100 * GIB, 10 * GIB, 0, disk(500 * GIB, 0));
    assert_eq!(cap, 0);
}

#[test]
fn the_guard_never_raises_the_configured_cap() {
    // An enormous disk must not licence exceeding what the operator asked for.
    let cap = effective_cap(10 * GIB, GIB, 0, disk(100_000 * GIB, 90_000 * GIB));
    assert_eq!(cap, 10 * GIB);
}


#[test]
fn blocks_are_counted_in_fragments() {
    assert_eq!(
        from_blocks(100, 40, 4096, 512),
        DiskSpace {
            total: 409_600,
            available: 163_840
        }
    );
    assert_eq!(from_blocks(100, 40, 0, 512).total, 51_200);
}
