//! Refreshing the domain list.
use cachic::config::units::Duration;
use cachic::services::domains::{DomainFile, DomainList, DomainsError, IndexEntry};
use cachic::services::refresh::{files_to_fetch, LiveServices, RefreshError, RefreshSource};

fn list(host: &str) -> DomainList {
    let index = vec![IndexEntry {
        name: "x".into(),
        description: "".into(),
        domain_files: vec!["x.txt".into()],
    }];
    let files = vec![DomainFile {
        name: "x.txt".into(),
        body: format!("{host}\n"),
    }];
    DomainList::parse(&index, &files).unwrap()
}

fn unreachable_host() -> RefreshError {
    RefreshError::Fetch {
        url: "https://mirror.internal/cache_domains.json".into(),
        source: "timed out".into(),
    }
}

#[test]
fn a_new_list_is_applied_and_visible_immediately() {
    let mut live = LiveServices::new(list("old.example.com"));
    assert_eq!(live.matcher().service_for("old.example.com"), Some("x"));

    assert!(live.apply(list("new.example.com")));
    assert_eq!(live.matcher().service_for("new.example.com"), Some("x"));
    assert_eq!(live.matcher().service_for("old.example.com"), None);
    assert_eq!(live.stats().applied, 1);
}

#[test]
fn an_identical_list_is_not_reapplied() {
    // Rebuilding the matcher for an unchanged list is pure waste, and it would make the
    // "applied" metric meaningless as a signal that something actually moved.
    let mut live = LiveServices::new(list("a.example.com"));
    assert!(!live.apply(list("a.example.com")));
    assert_eq!(live.stats().unchanged, 1);
    assert_eq!(live.stats().applied, 0);
}

#[test]
fn an_empty_list_is_rejected_and_the_previous_one_keeps_serving() {
    // The failure this whole design exists to prevent: an automatic update that silently
    // stops the cache caching anything.
    let mut live = LiveServices::new(list("a.example.com"));
    assert!(!live.apply(DomainList { services: Vec::new() }));
    assert_eq!(live.matcher().service_for("a.example.com"), Some("x"));
    assert_eq!(live.stats().rejected, 1);
}

#[test]
fn rewrites_a_github_url_to_raw_content() {
    // A GitHub web URL is not fetchable as raw files, and the default is a web URL.
    let source = RefreshSource {
        repo: "https://github.com/uklans/cache-domains".into(),
        interval: Duration::from_secs(60),
    };
    assert_eq!(
        source.raw_base(),
        "https://raw.githubusercontent.com/uklans/cache-domains/master"
    );
}

#[test]
fn tolerates_a_trailing_slash_or_git_suffix() {
    for repo in [
        "https://github.com/uklans/cache-domains/",
        "https://github.com/uklans/cache-domains.git",
    ] {
        let source = RefreshSource {
            repo: repo.into(),
            interval: Duration::from_secs(60),
        };
        assert_eq!(
            source.raw_base(),
            "https://raw.githubusercontent.com/uklans/cache-domains/master"
        );
    }
}

#[test]
fn a_non_github_repo_is_used_as_given() {
    // An air-gapped site serving the list from its own mirror.
    let source = RefreshSource {
        repo: "https://mirror.internal/cache-domains".into(),
        interval: Duration::from_secs(60),
    };
    assert_eq!(source.raw_base(), "https://mirror.internal/cache-domains");
}

#[test]
fn a_failed_refresh_keeps_the_previous_list() {
    let mut live = LiveServices::new(list("a.example.com"));
    assert!(!live.refresh(Err(unreachable_host())));
    assert_eq!(live.stats().failed, 1);
    assert_eq!(live.stats().attempts, 1);
    assert_eq!(live.matcher().service_for("a.example.com"), Some("x"));
    assert!(live.refresh(Ok(list("b.example.com"))));
    assert_eq!(live.stats().attempts, 2);
    assert_eq!(live.list().services.len(), 1);
}

#[test]
fn a_refresh_asks_for_each_file_once() {
    let index = vec![
        IndexEntry {
            name: "a".into(),
            description: "".into(),
            domain_files: vec!["a.txt".into(), "shared.txt".into()],
        },
        IndexEntry {
            name: "b".into(),
            description: "".into(),
            domain_files: vec!["b.txt".into()],
        },
    ];
    assert_eq!(files_to_fetch(&index), vec!["a.txt", "shared.txt", "b.txt"]);
    let source = RefreshSource {
        repo: "https://mirror.internal/cache-domains".into(),
        interval: Duration::from_secs(0),
    };
    assert!(!source.enabled());
    assert_eq!(
        source.url_of("a.txt"),
        "https://mirror.internal/cache-domains/a.txt"
    );
}

#[test]
fn every_attempt_is_counted_by_what_came_of_it() {
    let mut live = LiveServices::new(list("a.example.com"));
    assert!(!live.refresh(Err(unreachable_host())));
    assert!(!live.refresh(Ok(DomainList { services: Vec::new() })));
    assert!(!live.refresh(Ok(list("a.example.com"))));
    assert!(live.refresh(Ok(list("b.example.com"))));
    let s = live.stats();
    assert_eq!(s.attempts, 4);
    assert_eq!((s.failed, s.rejected, s.unchanged, s.applied), (1, 1, 1, 1));
    // What was fetched but cannot be read is rejected, not failed.
    for e in [
        DomainsError::Json {
            source: "expected value".into(),
        },
        DomainsError::MissingFile {
            service: "x".into(),
            file: "x.txt".into(),
        },
        DomainsError::Empty,
    ] {
        assert!(!live.refresh(Err(RefreshError::Invalid(e))));
    }
    let s = live.stats();
    assert_eq!(s.attempts, 7);
    assert_eq!((s.failed, s.rejected, s.unchanged, s.applied), (1, 4, 1, 1));
    assert_eq!(live.matcher().service_for("b.example.com"), Some("x"));
}

#[test]
fn files_are_asked_for_in_the_order_in_which_they_are_first_named() {
    let entry = |files: &[&str]| IndexEntry {
        name: "x".into(),
        description: "".into(),
        domain_files: files.iter().map(|f| f.to_string()).collect(),
    };
    let index = vec![
        entry(&["c.txt", "a.txt", "c.txt"]),
        entry(&["b.txt", "a.txt", "d.txt"]),
    ];
    assert_eq!(files_to_fetch(&index), vec!["c.txt", "a.txt", "b.txt", "d.txt"]);
}
