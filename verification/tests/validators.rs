//! Comparing what identifies a version of an object.
use cachic::orchestrator::validators::{if_range_matches, Validators};

fn v(etag: Option<&str>, modified: Option<&str>) -> Validators {
    Validators::new(etag.map(str::to_owned), modified.map(str::to_owned))
}

#[test]
fn identical_etags_match() {
    assert!(v(Some("\"abc\""), None).matches(&v(Some("\"abc\""), None)));
}

#[test]
fn different_etags_do_not_match() {
    assert!(!v(Some("\"abc\""), None).matches(&v(Some("\"def\""), None)));
}

#[test]
fn a_weak_etag_never_matches() {
    // Weak means semantically equivalent, not byte-identical. We assemble one response from
    // slices fetched at different times, so semantic equivalence is not sufficient.
    assert!(!v(Some("W/\"abc\""), None).matches(&v(Some("W/\"abc\""), None)));
    assert!(!v(Some("W/\"abc\""), None).matches(&v(Some("\"abc\""), None)));
}

#[test]
fn an_etag_appearing_or_disappearing_is_a_mismatch() {
    // Either the entity changed or the origin is inconsistent. Both mean "do not assume
    // these are the same bytes".
    assert!(!v(Some("\"abc\""), None).matches(&v(None, None)));
    assert!(!v(None, None).matches(&v(Some("\"abc\""), None)));
}

#[test]
fn last_modified_is_the_fallback_when_neither_side_has_an_etag() {
    let a = v(None, Some("Wed, 21 Oct 2015 07:28:00 GMT"));
    assert!(a.matches(&a));
    assert!(!a.matches(&v(None, Some("Thu, 22 Oct 2015 07:28:00 GMT"))));
}

#[test]
fn an_etag_wins_over_last_modified() {
    // A CDN that rewrites Last-Modified per edge but keeps a stable ETag must not be treated
    // as changing on every request.
    let a = v(Some("\"abc\""), Some("Wed, 21 Oct 2015 07:28:00 GMT"));
    let b = v(Some("\"abc\""), Some("Thu, 22 Oct 2015 07:28:00 GMT"));
    assert!(a.matches(&b));
}

#[test]
fn no_validators_at_all_is_treated_as_a_match() {
    // Refusing to serve because the origin is silent about versioning would break a large
    // part of the CDN population for no benefit.
    assert!(v(None, None).matches(&v(None, None)));
    assert!(v(None, None).is_empty());
}

#[test]
fn if_range_accepts_a_matching_etag() {
    let current = v(Some("\"abc\""), None);
    assert!(if_range_matches("\"abc\"", &current));
    assert!(!if_range_matches("\"def\"", &current));
}

#[test]
fn if_range_rejects_a_weak_etag() {
    let current = v(Some("W/\"abc\""), None);
    assert!(!if_range_matches("W/\"abc\"", &current));
}

#[test]
fn if_range_accepts_a_matching_date() {
    let current = v(None, Some("Wed, 21 Oct 2015 07:28:00 GMT"));
    assert!(if_range_matches("Wed, 21 Oct 2015 07:28:00 GMT", &current));
    assert!(!if_range_matches("Thu, 22 Oct 2015 07:28:00 GMT", &current));
}

#[test]
fn if_range_against_an_object_with_no_validators_is_a_mismatch() {
    // We cannot prove the entity is unchanged, so the safe answer is the whole object.
    assert!(!if_range_matches("\"abc\"", &v(None, None)));
    assert!(!if_range_matches(
        "Wed, 21 Oct 2015 07:28:00 GMT",
        &v(None, None)
    ));
}

#[test]
fn an_empty_if_range_is_a_mismatch() {
    assert!(!if_range_matches("", &v(Some("\"abc\""), None)));
    assert!(!if_range_matches("   ", &v(Some("\"abc\""), None)));
}

#[test]
fn comparison_is_symmetric_and_transitive() {
    let all = [
        v(None, None),
        v(Some("\"a\""), None),
        v(Some("\"a\""), Some("x")),
        v(Some("W/\"a\""), None),
        v(None, Some("x")),
        v(None, Some("y")),
    ];
    for a in &all {
        for b in &all {
            assert_eq!(a.matches(b), b.matches(a));
            for c in &all {
                if a.matches(b) && b.matches(c) {
                    assert!(a.matches(c));
                }
            }
        }
    }
}

#[test]
fn validators_are_empty_without_either() {
    assert!(v(None, None).is_empty());
    assert!(!v(None, Some("x")).is_empty());
}
