//! Deterministic content.
use cachic::testkit::content::{fill, range, seed_for, splitmix64};

#[test]
fn content_is_position_independent() {
    // The whole design rests on this: reading a range directly must equal reading the same
    // span out of a larger buffer. If it does not, every differential test is meaningless.
    let seed = seed_for("obj-a");
    let whole = range(seed, 0, 4096);
    for (offset, len) in [(0u64, 1usize), (1, 7), (7, 9), (63, 65), (1000, 3096)] {
        let direct = range(seed, offset, len);
        let expected = &whole[offset as usize..offset as usize + len];
        assert_eq!(direct, expected, "mismatch at offset {offset} len {len}");
    }
}

#[test]
fn distinct_seeds_produce_distinct_content() {
    let a = range(seed_for("obj-a"), 0, 256);
    let b = range(seed_for("obj-b"), 0, 256);
    assert_ne!(a, b);
}

#[test]
fn fill_matches_range_across_block_boundaries() {
    let seed = seed_for("boundary");
    let mut buf = vec![0u8; 100];
    fill(seed, 3, &mut buf);
    assert_eq!(buf, range(seed, 3, 100));
}

#[test]
fn the_generator_is_splitmix64() {
    // The first two outputs of SplitMix64 seeded with zero.
    assert_eq!(splitmix64(0), 0xE220_A839_7B1D_CDAF);
    assert_eq!(splitmix64(0x9E37_79B9_7F4A_7C15), 0x6E78_9E6A_A1B9_65F4);
}

#[test]
fn seeds_are_fnv_1a_of_the_name() {
    assert_eq!(seed_for(""), 0xcbf2_9ce4_8422_2325);
    assert_eq!(seed_for("a"), 0xaf63_dc4c_8601_ec8c);
    assert_eq!(seed_for("foobar"), 0x8594_4171_f739_67e8);
}

#[test]
fn the_first_block_is_the_generator_output_in_little_endian() {
    assert_eq!(range(0, 0, 8), splitmix64(0).to_le_bytes());
    assert_eq!(range(7, 3, 2), &splitmix64(7).to_le_bytes()[3..5]);
}
