//! Byte ranges and the slices they span.
use cachic::proxy::range::{
    parse_range, payload_window, plan, resolve, slice_extent, whole, ByteRange, RangeError,
    RangeSpec,
};

#[test]
fn parses_the_three_range_forms() {
    assert_eq!(parse_range("bytes=0-99"), Ok(RangeSpec::FromTo(0, 99)));
    assert_eq!(parse_range("bytes=500-"), Ok(RangeSpec::From(500)));
    assert_eq!(parse_range("bytes=-100"), Ok(RangeSpec::Suffix(100)));
    assert_eq!(parse_range(" bytes=0-0 "), Ok(RangeSpec::FromTo(0, 0)));
}

#[test]
fn rejects_malformed_and_multiple_ranges() {
    assert_eq!(parse_range("items=0-99"), Err(RangeError::Malformed));
    assert_eq!(parse_range("bytes=99-0"), Err(RangeError::Malformed));
    assert_eq!(parse_range("bytes=-"), Err(RangeError::Malformed));
    assert_eq!(parse_range("bytes=abc-def"), Err(RangeError::Malformed));
    assert_eq!(parse_range("bytes=0-10,20-30"), Err(RangeError::Multiple));
}

#[test]
fn resolves_against_object_length() {
    assert_eq!(
        resolve(RangeSpec::FromTo(0, 99), 1000),
        Ok(ByteRange { start: 0, end: 99 })
    );
    // Over-long end is clamped.
    assert_eq!(
        resolve(RangeSpec::FromTo(900, 5000), 1000),
        Ok(ByteRange {
            start: 900,
            end: 999
        })
    );
    assert_eq!(
        resolve(RangeSpec::From(500), 1000),
        Ok(ByteRange {
            start: 500,
            end: 999
        })
    );
    assert_eq!(
        resolve(RangeSpec::Suffix(100), 1000),
        Ok(ByteRange {
            start: 900,
            end: 999
        })
    );
    // A suffix longer than the object is the whole object.
    assert_eq!(
        resolve(RangeSpec::Suffix(5000), 1000),
        Ok(ByteRange { start: 0, end: 999 })
    );
}

#[test]
fn detects_unsatisfiable_ranges() {
    assert_eq!(
        resolve(RangeSpec::FromTo(1000, 2000), 1000),
        Err(RangeError::Unsatisfiable)
    );
    assert_eq!(
        resolve(RangeSpec::From(1000), 1000),
        Err(RangeError::Unsatisfiable)
    );
    assert_eq!(
        resolve(RangeSpec::Suffix(0), 1000),
        Err(RangeError::Unsatisfiable)
    );
    // Zero-length objects satisfy nothing.
    assert_eq!(
        resolve(RangeSpec::FromTo(0, 0), 0),
        Err(RangeError::Unsatisfiable)
    );
    assert_eq!(whole(0), None);
}

#[test]
fn plans_slice_spans() {
    let p = plan(ByteRange { start: 0, end: 999 }, 1024);
    assert_eq!((p.first, p.last, p.count()), (0, 0, 1));

    let p = plan(
        ByteRange {
            start: 0,
            end: 1024,
        },
        1024,
    );
    assert_eq!((p.first, p.last, p.count()), (0, 1, 2));

    // A range starting exactly on a boundary must not pull the preceding slice.
    let p = plan(
        ByteRange {
            start: 1024,
            end: 2047,
        },
        1024,
    );
    assert_eq!((p.first, p.last, p.count()), (1, 1, 1));

    let p = plan(
        ByteRange {
            start: 1023,
            end: 1024,
        },
        1024,
    );
    assert_eq!((p.first, p.last, p.count()), (0, 1, 2));
}

#[test]
fn computes_slice_extents_including_the_short_final_slice() {
    assert_eq!(
        slice_extent(0, 1024, 2500),
        ByteRange {
            start: 0,
            end: 1023
        }
    );
    assert_eq!(
        slice_extent(1, 1024, 2500),
        ByteRange {
            start: 1024,
            end: 2047
        }
    );
    // Final slice is short.
    assert_eq!(
        slice_extent(2, 1024, 2500),
        ByteRange {
            start: 2048,
            end: 2499
        }
    );
    // Exact multiple: final slice is full width.
    assert_eq!(
        slice_extent(1, 1024, 2048),
        ByteRange {
            start: 1024,
            end: 2047
        }
    );
}

#[test]
fn computes_payload_windows() {
    // Entire first slice.
    assert_eq!(
        payload_window(
            0,
            1024,
            ByteRange {
                start: 0,
                end: 2047
            }
        ),
        (0, 1024)
    );
    // Tail of the first slice.
    assert_eq!(
        payload_window(
            0,
            1024,
            ByteRange {
                start: 100,
                end: 2047
            }
        ),
        (100, 1024)
    );
    // Head of the second slice.
    assert_eq!(
        payload_window(
            1,
            1024,
            ByteRange {
                start: 0,
                end: 1100
            }
        ),
        (0, 77)
    );
    // A range wholly inside one slice.
    assert_eq!(
        payload_window(
            1,
            1024,
            ByteRange {
                start: 1100,
                end: 1200
            }
        ),
        (76, 177)
    );
}

#[test]
fn payload_windows_tile_the_requested_range_exactly() {
    // The property that matters: concatenating each slice's window reproduces the request
    // byte-for-byte, with no gaps and no overlaps.
    let slice_size = 64u32;
    let total = 1000u64;
    for start in [0u64, 1, 63, 64, 65, 500, 999] {
        for end in [start, start + 1, start + 63, start + 200, 999] {
            if end >= total {
                continue;
            }
            let wanted = ByteRange { start, end };
            let p = plan(wanted, slice_size);
            let mut covered = 0u64;
            for i in p.indices() {
                let (from, to) = payload_window(i, slice_size, wanted);
                assert!(to > from, "empty window for slice {i}");
                covered += (to - from) as u64;
            }
            assert_eq!(covered, wanted.len(), "range {start}-{end}");
        }
    }
}

#[test]
fn numbers_that_do_not_fit_are_malformed() {
    assert_eq!(
        parse_range("bytes=0-99999999999999999999"),
        Err(RangeError::Malformed)
    );
    assert_eq!(parse_range("bytes=+1-2"), Ok(RangeSpec::FromTo(1, 2)));
    assert_eq!(parse_range(""), Err(RangeError::Malformed));
}

#[test]
fn a_whole_object_is_one_range() {
    assert_eq!(whole(10), Some(ByteRange { start: 0, end: 9 }));
    assert_eq!(ByteRange { start: 3, end: 5 }.len(), 3);
}

#[test]
fn every_byte_lies_in_exactly_one_slice() {
    for total in 1..40u64 {
        for byte in 0..total {
            let holding: Vec<u32> = (0..20)
                .filter(|i| {
                    let extent = slice_extent(*i, 4, total);
                    extent.start <= byte && byte <= extent.end
                })
                .collect();
            assert_eq!(holding, vec![(byte / 4) as u32], "byte {byte} of {total}");
        }
    }
}
