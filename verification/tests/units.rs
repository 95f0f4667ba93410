//! Sizes and durations.
use cachic::config::units::{format_size, parse_duration, parse_size, power_of_two, ParseError};

#[test]
fn parses_the_prd_defaults() {
    // Every default must parse.
    assert_eq!(parse_size("1000g").unwrap(), 1000 * (1 << 30));
    assert_eq!(parse_size("2g").unwrap(), 2 * (1 << 30));
    assert_eq!(parse_size("1m").unwrap(), 1 << 20);
    assert_eq!(parse_size("10g").unwrap(), 10 * (1 << 30));
    assert_eq!(parse_duration("3560d").unwrap().as_secs(), 3560 * 86_400);
    assert_eq!(parse_duration("24h").unwrap().as_secs(), 86_400);
}

#[test]
fn nginx_units_are_binary() {
    // This is the compatibility point: an operator's existing 1000g must mean what it meant
    // before, not 7% less.
    assert_eq!(parse_size("1g").unwrap(), 1_073_741_824);
    assert_eq!(parse_size("1k").unwrap(), 1024);
}

#[test]
fn si_units_are_decimal() {
    assert_eq!(parse_size("1GB").unwrap(), 1_000_000_000);
    assert_eq!(parse_size("1gb").unwrap(), 1_000_000_000);
    assert_ne!(parse_size("1GB").unwrap(), parse_size("1g").unwrap());
}

#[test]
fn iec_units_match_nginx_units() {
    assert_eq!(parse_size("1GiB").unwrap(), parse_size("1g").unwrap());
    assert_eq!(parse_size("512MiB").unwrap(), parse_size("512m").unwrap());
}

#[test]
fn bare_numbers_are_bytes_and_seconds() {
    assert_eq!(parse_size("4096").unwrap(), 4096);
    assert_eq!(parse_duration("90").unwrap().as_secs(), 90);
}

#[test]
fn whitespace_is_tolerated() {
    assert_eq!(parse_size("  16 MiB ").unwrap(), 16 << 20);
    assert_eq!(parse_duration(" 7 d ").unwrap().as_secs(), 7 * 86_400);
}

#[test]
fn rejects_malformed_input_without_panicking() {
    for bad in ["", "  ", "g", "abc", "-1", "1.5g", "1x", "m1", "1 2 g"] {
        assert!(parse_size(bad).is_err(), "size {bad:?} should not parse");
    }
    for bad in ["", "d", "abc", "-1", "1.5h", "1y"] {
        assert!(
            parse_duration(bad).is_err(),
            "duration {bad:?} should not parse"
        );
    }
}

#[test]
fn reports_overflow_rather_than_wrapping() {
    // A silently wrapped cache size would configure a tiny cache from a huge number.
    let err = parse_size("99999999999999999999g").unwrap_err();
    assert!(matches!(err, ParseError::Overflow(_)), "got {err:?}");
    let err = parse_size("18446744073709551615t").unwrap_err();
    assert!(matches!(err, ParseError::Overflow(_)), "got {err:?}");
}

#[test]
fn errors_name_the_offending_input() {
    let err = parse_size("5quatloos").unwrap_err();
    let text = err.message();
    assert!(text.contains("quatloos"), "unhelpful error: {text}");
    assert!(text.contains("5quatloos"), "error omits the input: {text}");
}

#[test]
fn formats_sizes_readably() {
    assert_eq!(format_size(1 << 30), "1 GiB");
    assert_eq!(format_size(1536 << 20), "1536 MiB");
    assert_eq!(format_size(1000), "1000 B");
}

#[test]
fn units_never_panics_on_arbitrary_input() {
    // The parsers are total.
    let mut seed = 0x1234_5678_9abc_def0u64;
    for _ in 0..20_000 {
        seed = seed
            .wrapping_mul(6364136223846793005)
            .wrapping_add(1442695040888963407);
        let len = (seed % 12) as usize;
        let s: String = (0..len)
            .map(|i| {
                let b = ((seed >> (i % 8 * 8)) & 0xff) as u8;
                // Bias towards characters that appear in real values.
                match b % 5 {
                    0 => (b'0' + b % 10) as char,
                    1 => (b'a' + b % 26) as char,
                    2 => ' ',
                    3 => (b'A' + b % 26) as char,
                    _ => b as char,
                }
            })
            .collect();
        let _ = parse_size(&s);
        let _ = parse_duration(&s);
    }
}

#[test]
fn every_error_says_what_is_wrong() {
    assert_eq!(parse_size(" ").unwrap_err(), ParseError::Empty);
    assert_eq!(parse_size("").unwrap_err().message(), "empty value");
    assert_eq!(
        parse_size("abc").unwrap_err(),
        ParseError::Malformed("abc".into())
    );
    assert_eq!(
        parse_size("1x").unwrap_err(),
        ParseError::UnknownUnit {
            input: "1x".into(),
            unit: "x".into()
        }
    );
    // The input is shown as a quoted string, with what would break a line escaped.
    let text = parse_size("a\tb").unwrap_err().message();
    assert!(text.starts_with("\"a\\tb\" is not a number"), "{text}");
}

#[test]
fn formatted_sizes_read_back() {
    for bytes in [1u64, 1000, 1 << 10, 3 << 20, 7 << 30, 2 << 40] {
        assert_eq!(parse_size(&format_size(bytes)), Ok(bytes));
    }
    assert_eq!(format_size(0), "0 B");
}

#[test]
fn powers_of_two_are_recognised() {
    assert!(power_of_two(1) && power_of_two(1 << 20) && power_of_two(1 << 63));
    assert!(!power_of_two(0) && !power_of_two(3) && !power_of_two(1_000_000));
}
