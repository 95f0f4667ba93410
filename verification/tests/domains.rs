//! The domain list, and the service that a host belongs to.
use cachic::services::domains::{DomainFile, DomainList, DomainsError, IndexEntry, Pattern};
use cachic::services::matcher::Matcher;

/// The domain list that an index and its files describe.
fn parse(index: &str, files: &[(&str, &str)]) -> Result<DomainList, DomainsError> {
    let json = |source: String| DomainsError::Json { source };
    let value: serde_json::Value = serde_json::from_str(index).map_err(|e| json(e.to_string()))?;
    let text = |v: &serde_json::Value| v.as_str().unwrap_or_default().to_string();
    let entries: Vec<IndexEntry> = value["cache_domains"]
        .as_array()
        .ok_or_else(|| json("missing field `cache_domains`".into()))?
        .iter()
        .map(|s| IndexEntry {
            name: text(&s["name"]),
            description: text(&s["description"]),
            domain_files: s["domain_files"]
                .as_array()
                .map(|a| a.iter().map(text).collect())
                .unwrap_or_default(),
        })
        .collect();
    let files: Vec<DomainFile> = files
        .iter()
        .map(|(name, body)| DomainFile {
            name: name.to_string(),
            body: body.to_string(),
        })
        .collect();
    DomainList::parse(&entries, &files)
}

/// A few services of the public list.
fn bundled() -> DomainList {
    parse(
        r#"{"cache_domains":[
            {"name":"steam","description":"CDN for steam","domain_files":["steam.txt"]},
            {"name":"blizzard","domain_files":["blizzard.txt"]},
            {"name":"epicgames","domain_files":["epicgames.txt"]},
            {"name":"riot","domain_files":["riot.txt"]},
            {"name":"wsus","domain_files":["windowsupdates.txt"]},
            {"name":"xboxlive","domain_files":["xboxlive.txt"]}
        ]}"#,
        &[
            ("steam.txt", "lancache.steamcontent.com\n*.content.steampowered.com\n"),
            ("blizzard.txt", "cdn.blizzard.com\n*.cdn.blizzard.com\n"),
            ("epicgames.txt", "cdn1.epicgames.com\ncdn.unrealengine.com\n"),
            ("riot.txt", "l3cdn.riotgames.com\n"),
            ("windowsupdates.txt", "*.windowsupdate.com\n*.dl.delivery.mp.microsoft.com\n"),
            ("xboxlive.txt", "assets1.xboxlive.com\nassets2.xboxlive.com\n"),
        ],
    )
    .unwrap()
}

#[test]
fn parses_wildcards_and_exact_hosts() {
    let list = parse(
        r#"{"cache_domains":[{"name":"x","domain_files":["x.txt"]}]}"#,
        &[("x.txt", "*.cdn.example.com\ncdn.example.com\n")],
    )
    .unwrap();
    let p = &list.services[0].patterns;
    assert!(p.contains(&Pattern::Suffix("cdn.example.com".into())));
    assert!(p.contains(&Pattern::Exact("cdn.example.com".into())));
}

#[test]
fn ignores_comments_blank_lines_and_case() {
    let list = parse(
        r#"{"cache_domains":[{"name":"x","domain_files":["x.txt"]}]}"#,
        &[("x.txt", "# a comment\n\n  CDN.Example.COM  \n\n")],
    )
    .unwrap();
    assert_eq!(
        list.services[0].patterns,
        vec![Pattern::Exact("cdn.example.com".into())]
    );
}

#[test]
fn deduplicates_repeated_hosts() {
    let list = parse(
        r#"{"cache_domains":[{"name":"x","domain_files":["a.txt","b.txt"]}]}"#,
        &[
            ("a.txt", "cdn.example.com\n"),
            ("b.txt", "cdn.example.com\n"),
        ],
    )
    .unwrap();
    assert_eq!(list.services[0].patterns.len(), 1);
}

#[test]
fn rejects_a_missing_domain_file_naming_the_service() {
    let err = parse(
        r#"{"cache_domains":[{"name":"steam","domain_files":["gone.txt"]}]}"#,
        &[],
    )
    .unwrap_err();
    let err = err.message();
    assert!(err.contains("steam"), "{err}");
    assert!(err.contains("gone.txt"), "{err}");
}

#[test]
fn rejects_a_line_with_multiple_tokens() {
    let err = parse(
        r#"{"cache_domains":[{"name":"x","domain_files":["x.txt"]}]}"#,
        &[("x.txt", "cdn.example.com extra\n")],
    )
    .unwrap_err();
    match err {
        DomainsError::Malformed { line, .. } => assert_eq!(line, 1),
        other => panic!("expected Malformed, got {other:?}"),
    }
}

#[test]
fn rejects_an_empty_list_rather_than_disabling_caching() {
    // A refresh that yields nothing must not be applied; it would silently stop the cache
    // caching anything at all.
    let err = parse(
        r#"{"cache_domains":[{"name":"x","domain_files":["x.txt"]}]}"#,
        &[("x.txt", "# nothing but comments\n")],
    )
    .unwrap_err();
    assert!(matches!(err, DomainsError::Empty));
}

#[test]
fn rejects_invalid_json() {
    let err = parse("{not json", &[]).unwrap_err();
    assert!(err.message().starts_with("cache_domains.json is not valid JSON: "));
}

#[test]
fn domains_never_panics_on_arbitrary_input() {
    let mut seed = 0xfeed_face_dead_beefu64;
    for _ in 0..5_000 {
        seed = seed
            .wrapping_mul(6364136223846793005)
            .wrapping_add(1442695040888963407);
        let len = (seed % 40) as usize;
        let body: String = (0..len)
            .map(|i| {
                let b = ((seed >> (i % 8 * 8)) & 0xff) as u8;
                match b % 6 {
                    0 => '.',
                    1 => '*',
                    2 => '#',
                    3 => '\n',
                    4 => ' ',
                    _ => (b'a' + b % 26) as char,
                }
            })
            .collect();
        let _ = parse(
            r#"{"cache_domains":[{"name":"x","domain_files":["x.txt"]}]}"#,
            &[("x.txt", &body)],
        );
    }
}

fn matcher_from(files: &[(&str, &str)], services: &[&str]) -> Matcher {
    let index = format!(
        r#"{{"cache_domains":[{}]}}"#,
        services
            .iter()
            .zip(files)
            .map(|(name, (file, _))| format!(
                r#"{{"name":"{name}","domain_files":["{file}"]}}"#
            ))
            .collect::<Vec<_>>()
            .join(",")
    );
    Matcher::build(&parse(&index, files).unwrap())
}

#[test]
fn matches_exact_hosts() {
    let m = matcher_from(&[("a.txt", "cdn.example.com\n")], &["svc"]);
    assert_eq!(m.service_for("cdn.example.com"), Some("svc"));
    assert_eq!(m.service_for("other.example.com"), None);
}

#[test]
fn matches_wildcards_at_any_depth() {
    let m = matcher_from(&[("a.txt", "*.cdn.example.com\n")], &["svc"]);
    assert_eq!(m.service_for("a.cdn.example.com"), Some("svc"));
    assert_eq!(m.service_for("a.b.c.cdn.example.com"), Some("svc"));
}

#[test]
fn a_wildcard_does_not_match_its_own_parent() {
    // cache-domains lists *.cdn.blizzard.com and cdn.blizzard.com separately. Treating the
    // wildcard as covering the parent would match hosts that nobody listed.
    let m = matcher_from(&[("a.txt", "*.cdn.example.com\n")], &["svc"]);
    assert_eq!(m.service_for("cdn.example.com"), None);
}

#[test]
fn longest_suffix_wins() {
    // Attributing traffic to the shorter match would normalise the key with another
    // service's rules.
    let m = matcher_from(
        &[
            ("a.txt", "*.example.com\n"),
            ("b.txt", "*.cdn.example.com\n"),
        ],
        &["broad", "specific"],
    );
    assert_eq!(m.service_for("x.cdn.example.com"), Some("specific"));
    assert_eq!(m.service_for("x.other.example.com"), Some("broad"));
}

#[test]
fn exact_beats_wildcard() {
    let m = matcher_from(
        &[
            ("a.txt", "*.example.com\n"),
            ("b.txt", "special.example.com\n"),
        ],
        &["wild", "exact"],
    );
    assert_eq!(m.service_for("special.example.com"), Some("exact"));
}

#[test]
fn strips_ports_and_normalises_case_and_trailing_dots() {
    let m = matcher_from(&[("a.txt", "cdn.example.com\n")], &["svc"]);
    for host in [
        "cdn.example.com:80",
        "CDN.Example.com",
        "cdn.example.com.",
        "  cdn.example.com:8080  ",
    ] {
        assert_eq!(m.service_for(host), Some("svc"), "host {host:?}");
    }
}

#[test]
fn handles_ipv6_literals_without_mistaking_colons_for_ports() {
    let m = matcher_from(&[("a.txt", "cdn.example.com\n")], &["svc"]);
    assert_eq!(m.service_for("[::1]:80"), None);
    assert_eq!(m.service_for("[2001:db8::1]"), None);
}

#[test]
fn rejects_empty_and_degenerate_hosts() {
    let m = matcher_from(&[("a.txt", "cdn.example.com\n")], &["svc"]);
    for host in ["", "   ", ".", ":80"] {
        assert_eq!(m.service_for(host), None, "host {host:?}");
    }
}

#[test]
fn matches_real_cache_domains_hosts() {
    // These are hostnames that real clients actually request.
    let m = Matcher::build(&bundled());
    assert_eq!(m.service_for("lancache.steamcontent.com"), Some("steam"));
    assert_eq!(m.service_for("cdn.blizzard.com"), Some("blizzard"));
    assert_eq!(
        m.service_for("level3.blizzard.com.cdn.blizzard.com"),
        Some("blizzard")
    );
    assert_eq!(m.service_for("cdn1.epicgames.com"), Some("epicgames"));
    assert_eq!(m.service_for("assets1.xboxlive.com"), Some("xboxlive"));
    assert_eq!(m.service_for("l3cdn.riotgames.com"), Some("riot"));
    // Not a CDN we cache.
    assert_eq!(m.service_for("www.google.com"), None);
    assert_eq!(m.service_for("example.org"), None);
}

#[test]
fn lookup_is_fast_enough_to_run_on_every_request() {
    // The matcher is on the hot path, so a regression here costs throughput on every
    // request.
    let m = Matcher::build(&bundled());
    let hosts = [
        "lancache.steamcontent.com",
        "level3.blizzard.com.cdn.blizzard.com",
        "cdn1.epicgames.com",
        "www.google.com",
        "a.b.c.d.e.f.example.com",
    ];
    let iterations = 200_000;
    let start = std::time::Instant::now();
    let mut hits = 0usize;
    for i in 0..iterations {
        if m.service_for(hosts[i % hosts.len()]).is_some() {
            hits += 1;
        }
    }
    let elapsed = start.elapsed();
    assert!(hits > 0);
    let per_second = iterations as f64 / elapsed.as_secs_f64();
    println!(
        "matcher: {per_second:.0} lookups/s ({:.0} ns each)",
        1e9 / per_second
    );
    // Generous: this catches an accidental linear scan, not a few percent of drift.
    assert!(
        per_second > 200_000.0,
        "matcher managed only {per_second:.0} lookups/s; something has turned this into a scan"
    );
}

#[test]
fn every_bundled_pattern_matches_itself() {
    // A pattern that cannot match the host it was written for is a rule that does nothing.
    let list = bundled();
    let m = Matcher::build(&list);
    for service in &list.services {
        for pattern in &service.patterns {
            let host = match pattern {
                Pattern::Exact(h) => h.clone(),
                Pattern::Suffix(parent) => format!("probe.{parent}"),
            };
            assert!(
                m.service_for(&host).is_some(),
                "pattern {pattern:?} in service {} matches nothing",
                service.name
            );
        }
    }
}

#[test]
fn patterns_are_counted() {
    let list = bundled();
    assert_eq!(list.services.len(), 6);
    assert_eq!(list.pattern_count(), 11);
    let m = Matcher::build(&list);
    assert_eq!(m.service_count(), 6);
    assert_eq!(m.pattern_count(), 11);
    assert!(list.equals(&bundled()));
    assert!(!list.equals(&DomainList { services: Vec::new() }));
}

#[test]
fn a_pattern_matches_however_it_was_written() {
    let m = matcher_from(
        &[
            ("a.txt", " CDN.Example.COM. \n*.Example.ORG\ncdn.example.com\n"),
            ("b.txt", "cdn.example.com\n*.example.net\n"),
        ],
        &["a", "b"],
    );
    assert_eq!(m.service_for("cdn.example.com"), Some("b"));
    assert_eq!(m.service_for("probe.example.org"), Some("a"));
    assert_eq!(m.service_for("a.b.example.net"), Some("b"));
    assert_eq!(m.service_count(), 2);
    assert_eq!(m.pattern_count(), 3, "one is listed by both");
}
