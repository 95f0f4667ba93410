//! Generated cases and the comparison of bodies.
use cachic::testkit::content;
use cachic::testkit::differ::{compare, Case, Generator, Rng};

#[test]
fn the_same_seed_produces_the_same_cases() {
    // Without this a printed seed is not a reproducer.
    let a: Vec<_> = (0..20)
        .map(|_| Generator::new(42, 4, 100_000, 4096).next_case())
        .collect();
    let mut gen_b = Generator::new(42, 4, 100_000, 4096);
    let b: Vec<_> = (0..20).map(|_| gen_b.next_case()).collect();
    let mut gen_a = Generator::new(42, 4, 100_000, 4096);
    let a2: Vec<_> = (0..20).map(|_| gen_a.next_case()).collect();
    assert_eq!(a2, b);
    assert_eq!(a.len(), 20);
}

#[test]
fn different_seeds_produce_different_cases() {
    let mut a = Generator::new(1, 4, 100_000, 4096);
    let mut b = Generator::new(2, 4, 100_000, 4096);
    let ca: Vec<_> = (0..10).map(|_| a.next_case()).collect();
    let cb: Vec<_> = (0..10).map(|_| b.next_case()).collect();
    assert_ne!(ca, cb);
}

#[test]
fn every_case_is_within_the_object() {
    let mut g = Generator::new(7, 3, 10_000, 1024);
    for _ in 0..500 {
        let c = g.next_case();
        assert!(c.start <= c.end, "{}", c.message());
        assert!(c.end < c.size, "{} runs past the end", c.message());
        assert!(!c.is_empty());
    }
}

#[test]
fn boundary_cases_are_actually_generated() {
    // Uniform random ranges essentially never hit a slice edge, which is where the
    // off-by-one errors live.
    let mut g = Generator::new(11, 2, 10_000, 1024);
    let cases: Vec<_> = (0..600).map(|_| g.next_case()).collect();
    assert!(
        cases.iter().any(|c| c.start == 0 && c.end == 0),
        "no single-first-byte case"
    );
    assert!(
        cases.iter().any(|c| c.end == c.size - 1),
        "no case touching the final byte"
    );
    assert!(
        cases.iter().any(|c| c.start % 1024 == 0),
        "no slice-aligned case"
    );
}

#[test]
fn a_matching_response_passes() {
    let case = Case {
        object: "obj-0".into(),
        size: 10_000,
        start: 100,
        end: 199,
    };
    let bytes = content::range(content::seed_for("obj-0"), 100, 100);
    compare(1, &case, &bytes).unwrap();
}

#[test]
fn a_corrupt_byte_is_shrunk_to_its_offset() {
    let case = Case {
        object: "obj-0".into(),
        size: 10_000,
        start: 100,
        end: 199,
    };
    let mut bytes = content::range(content::seed_for("obj-0"), 100, 100);
    bytes[37] ^= 0xff;
    let m = compare(0xabc, &case, &bytes).unwrap_err();
    assert_eq!(m.offset, 37);
    let text = m.message();
    assert!(text.contains("0xabc"), "seed missing from report: {text}");
    assert!(text.contains("offset 37"), "{text}");
    assert!(text.contains("absolute 137"), "{text}");
}

#[test]
fn a_short_response_is_reported_at_the_boundary() {
    let case = Case {
        object: "obj-0".into(),
        size: 10_000,
        start: 0,
        end: 99,
    };
    let bytes = content::range(content::seed_for("obj-0"), 0, 50);
    let m = compare(1, &case, &bytes).unwrap_err();
    assert_eq!(m.offset, 50);
    assert_eq!(m.actual_len, 50);
    assert!(m.message().contains("50 bytes, expected 100"));
}

#[test]
fn content_from_the_wrong_object_is_caught() {
    // The failure a cache-key bug produces: right length, wrong bytes.
    let case = Case {
        object: "obj-0".into(),
        size: 10_000,
        start: 0,
        end: 99,
    };
    let wrong = content::range(content::seed_for("obj-1"), 0, 100);
    assert!(compare(1, &case, &wrong).is_err());
}

#[test]
fn numbers_are_below_their_bound() {
    let mut rng = Rng::new(3);
    for n in 1..200u64 {
        assert!(rng.below(n) < n);
    }
    let mut a = Rng::new(9);
    let before = a.below(0);
    assert_eq!(before, 0);
    assert_eq!(a.next_u64(), Rng::new(9).next_u64());
}

#[test]
fn a_case_is_shown_with_its_object_and_range() {
    let case = Case {
        object: "obj-2".into(),
        size: 10,
        start: 3,
        end: 4,
    };
    assert_eq!(case.message(), "obj-2 (10 bytes), range 3-4");
    assert_eq!(case.range_header(), "bytes=3-4");
    assert_eq!(case.len(), 2);
}

#[test]
fn a_mismatch_is_reported_in_full() {
    let case = Case {
        object: "obj-0".into(),
        size: 10_000,
        start: 100,
        end: 101,
    };
    let mut bytes = content::range(content::seed_for("obj-0"), 100, 2);
    let right = bytes[1];
    bytes[1] = right ^ 0x0f;
    let m = compare(0x2a, &case, &bytes).unwrap_err();
    assert_eq!(
        m.message(),
        format!(
            "differential mismatch (seed 0x2a): obj-0 (10000 bytes), range 100-101\n  first differing byte at offset 1 of the range (absolute 101): expected {:#04x}, got {:#04x}\n  response was 2 bytes, expected 2",
            right,
            right ^ 0x0f
        )
    );
}

#[test]
fn a_long_response_is_reported_at_the_end_of_the_expected_one() {
    let case = Case {
        object: "obj-0".into(),
        size: 10_000,
        start: 0,
        end: 9,
    };
    let bytes = content::range(content::seed_for("obj-0"), 0, 11);
    let m = compare(1, &case, &bytes).unwrap_err();
    assert_eq!(m.offset, 10);
    assert_eq!(m.expected, 0);
    assert_eq!(m.actual, bytes[10]);
}

#[test]
fn a_one_byte_object_and_a_slice_larger_than_the_object_are_fine() {
    let mut g = Generator::new(5, 0, 1, 4096);
    for _ in 0..200 {
        let c = g.next_case();
        assert_eq!((c.start, c.end), (0, 0));
        assert_eq!(c.object, "obj-0");
    }
    let mut g = Generator::new(5, 1, 100, u64::MAX);
    for _ in 0..200 {
        let c = g.next_case();
        assert!(c.start <= c.end && c.end < 100);
    }
}
