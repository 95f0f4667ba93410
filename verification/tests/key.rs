//! Cache keys, and the rules that services ship with.
use cachic::config::rules::{NamedRule, Rules, ServiceRule};
use cachic::services::defaults::{merge, shipped};
use cachic::services::key::{cacheable, normalise, normalise_path, CacheKey, CompiledRule};

fn rule() -> CompiledRule {
    CompiledRule::default()
}

#[test]
fn drops_the_query_string_by_default() {
    // CDN tokens live in the query. Keeping them would make every request a miss, which is
    // the single most important default in this module.
    let a = normalise(
        "steam",
        "cdn1.example.com",
        "/depot/1.chunk?token=aaa",
        &rule(),
    );
    let b = normalise(
        "steam",
        "cdn1.example.com",
        "/depot/1.chunk?token=bbb",
        &rule(),
    );
    assert_eq!(a, b);
    assert_eq!(a.key, "/depot/1.chunk");
}

#[test]
fn excludes_the_host_by_default() {
    // The reason a LAN cache works: the same bytes from many CDN hostnames are one object.
    let a = normalise("epicgames", "cdn1.epicgames.com", "/x/y.bin", &rule());
    let b = normalise("epicgames", "cdn2.epicgames.com", "/x/y.bin", &rule());
    assert_eq!(a.object_id(), b.object_id());
}

#[test]
fn keeps_the_query_when_the_service_asks() {
    let mut r = rule();
    r.keep_query = true;
    let a = normalise("svc", "h", "/x?v=1", &r);
    let b = normalise("svc", "h", "/x?v=2", &r);
    assert_ne!(a, b);
    assert_eq!(a.key, "/x?v=1");
}

#[test]
fn includes_the_host_when_the_service_asks() {
    let mut r = rule();
    r.include_host = true;
    let a = normalise("svc", "a.example.com", "/x", &r);
    let b = normalise("svc", "b.example.com", "/x", &r);
    assert_ne!(a.object_id(), b.object_id());
    assert_eq!(a.key, "a.example.com/x");
}

#[test]
fn host_is_normalised_when_included() {
    let mut r = rule();
    r.include_host = true;
    let a = normalise("svc", "A.Example.com:80", "/x", &r);
    let b = normalise("svc", "a.example.com", "/x", &r);
    assert_eq!(a, b);
}

#[test]
fn paths_stay_case_sensitive() {
    // RFC 3986, and Steam's depot paths rely on it. Lowercasing would merge distinct objects.
    let a = normalise("svc", "h", "/Depot/A.chunk", &rule());
    let b = normalise("svc", "h", "/depot/a.chunk", &rule());
    assert_ne!(a.object_id(), b.object_id());
}

#[test]
fn different_services_never_collide_on_the_same_path() {
    let a = normalise("steam", "h", "/x", &rule());
    let b = normalise("blizzard", "h", "/x", &rule());
    assert_ne!(a.object_id(), b.object_id());
}

#[test]
fn the_service_separator_prevents_boundary_collisions() {
    // Without a separator, service "ab" + key "c" would hash the same as "a" + "bc".
    let a = CacheKey {
        service: "ab".into(),
        key: "c".into(),
    };
    let b = CacheKey {
        service: "a".into(),
        key: "bc".into(),
    };
    assert_ne!(a.object_id(), b.object_id());
}

#[test]
fn object_ids_are_stable() {
    // A change here silently invalidates every cache in the field, so it must be deliberate.
    let key = normalise(
        "steam",
        "lancache.steamcontent.com",
        "/depot/1.chunk",
        &rule(),
    );
    let id = key.object_id();
    assert_eq!(id, key.object_id(), "hashing is not deterministic");
    assert_eq!(id.len(), 16);
}

#[test]
fn include_and_exclude_patterns_gate_cacheability() {
    let compiled = CompiledRule::compile(
        "svc",
        &ServiceRule {
            include_paths: vec![r"^/depot/".into()],
            exclude_paths: vec![r"\.manifest$".into()],
            ..Default::default()
        },
    )
    .unwrap();
    assert!(compiled.is_cacheable("/depot/1.chunk"));
    assert!(
        !compiled.is_cacheable("/other/1.chunk"),
        "include did not gate"
    );
    // Exclusion wins even though the include matches.
    assert!(
        !compiled.is_cacheable("/depot/1.manifest"),
        "exclude did not win"
    );
}

#[test]
fn no_patterns_means_everything_is_cacheable() {
    assert!(rule().is_cacheable("/anything"));
}

#[test]
fn an_invalid_regex_names_the_service_and_the_pattern() {
    let err = CompiledRule::compile(
        "steam",
        &ServiceRule {
            exclude_paths: vec!["([unclosed".into()],
            ..Default::default()
        },
    )
    .unwrap_err();
    let text = err.message();
    assert!(text.contains("steam"), "{text}");
    assert!(text.contains("([unclosed"), "{text}");
    assert!(text.contains("exclude_paths"), "{text}");
}

#[test]
fn targets_without_a_leading_slash_are_normalised() {
    let a = normalise("svc", "h", "depot/x", &rule());
    assert_eq!(a.key, "/depot/x");
}

#[test]
fn percent_escapes_are_decoded_as_nginx_decodes_them() {
    // nginx keys on $uri, which is decoded. Without this, a client sending %41 for A
    // caches the same object a second time under a different key.
    assert_eq!(normalise_path("/depot/%41"), "/depot/A");
    assert_eq!(normalise_path("/a%20b"), "/a b");
    assert_eq!(
        normalise("s", "h", "/depot/%41", &rule()).object_id(),
        normalise("s", "h", "/depot/A", &rule()).object_id()
    );
}

#[test]
fn duplicate_slashes_and_dot_segments_collapse() {
    assert_eq!(normalise_path("/a//b"), "/a/b");
    assert_eq!(normalise_path("/a/./b"), "/a/b");
    assert_eq!(normalise_path("/a/b/../c"), "/a/c");
    assert_eq!(normalise_path("//"), "/");
}

#[test]
fn a_dot_dot_cannot_escape_the_root() {
    // nginx rejects such a request outright; a key that walks above the root is meaningless.
    assert_eq!(normalise_path("/../etc/passwd"), "/etc/passwd");
    assert_eq!(normalise_path("/a/../../b"), "/b");
}

#[test]
fn a_trailing_slash_is_preserved() {
    // Significant to a CDN, so it is part of the key.
    assert_eq!(normalise_path("/a/b/"), "/a/b/");
    assert_ne!(normalise_path("/a/b/"), normalise_path("/a/b"));
}

#[test]
fn malformed_escapes_are_left_alone() {
    // A key must be stable. Guessing at a broken escape would make it depend on our guess.
    assert_eq!(normalise_path("/a%zz"), "/a%zz");
    assert_eq!(normalise_path("/a%"), "/a%");
    assert_eq!(normalise_path("/a%4"), "/a%4");
}

#[test]
fn a_non_utf8_decode_leaves_the_path_as_written() {
    // Lossy conversion would map distinct paths onto one another.
    assert_eq!(normalise_path("/%ff%fe"), "/%ff%fe");
}

#[test]
fn normalisation_never_panics_on_arbitrary_input() {
    let mut seed = 0x1357_9bdf_2468_ace0u64;
    for _ in 0..20_000 {
        seed = seed
            .wrapping_mul(6364136223846793005)
            .wrapping_add(1442695040888963407);
        let len = (seed % 40) as usize;
        let path: String = (0..len)
            .map(|i| {
                let b = ((seed >> (i % 8 * 8)) & 0xff) as u8;
                match b % 6 {
                    0 => '/',
                    1 => '%',
                    2 => '.',
                    3 => (b'a' + b % 26) as char,
                    4 => (b'0' + b % 10) as char,
                    _ => b as char,
                }
            })
            .collect();
        let _ = normalise_path(&path);
    }
}

#[test]
fn an_empty_query_is_not_the_same_as_no_query_when_kept() {
    let mut r = rule();
    r.keep_query = true;
    assert_eq!(normalise("s", "h", "/x?", &r).key, "/x?");
    assert_eq!(normalise("s", "h", "/x", &r).key, "/x");
}

fn compiled(service: &str) -> CompiledRule {
    CompiledRule::compile(service, shipped().for_service(service)).unwrap()
}

#[test]
fn every_shipped_rule_compiles() {
    // A rule with a bad regex would fail at startup, which is a poor time to find out.
    for entry in &shipped().services {
        let service = &entry.service;
        CompiledRule::compile(service, shipped().for_service(service))
            .unwrap_or_else(|e| panic!("service {service}: {}", e.message()));
    }
}

#[test]
fn riot_release_listings_are_not_cached() {
    let rule = compiled("riot");
    assert!(!rule.is_cacheable("/releases/releaselisting_EUW"));
    assert!(!rule.is_cacheable("/projects/lol/releases/0.0.1.version"));
    // Ordinary content still caches.
    assert!(rule.is_cacheable("/releases/patcher/content.bin"));
}

#[test]
fn arenanet_latest64_is_not_cached() {
    // Prefix-anchored, as `location ^~` is.
    let rule = compiled("arenanet");
    assert!(!rule.is_cacheable("/latest64"));
    assert!(!rule.is_cacheable("/latest64/manifest"));
    assert!(rule.is_cacheable("/program/data.dat"));
    // Not anchored mid-path: only a prefix match counts.
    assert!(rule.is_cacheable("/other/latest64"));
}

#[test]
fn wsus_certificate_trust_lists_are_not_cached() {
    // A stale revocation list is a security problem, not a cache miss.
    let rule = compiled("wsus");
    for name in [
        "authrootstl.cab",
        "pinrulesstl.cab",
        "disallowedcertstl.cab",
    ] {
        assert!(!rule.is_cacheable(&format!("/msdownload/update/v3/static/trustedr/en/{name}")));
        // Matched without regard to case.
        assert!(!rule.is_cacheable(&format!("/x/{}", name.to_uppercase())));
    }
    assert!(rule.is_cacheable("/msdownload/update/software/windows10.0-kb.msu"));
}

#[test]
fn steam_server_status_is_not_cached() {
    // An exact match, as `location =` is.
    let rule = compiled("steam");
    assert!(!rule.is_cacheable("/server-status"));
    assert!(rule.is_cacheable("/server-status/detail"));
    assert!(rule.is_cacheable("/depot/440/chunk"));
}

#[test]
fn services_with_no_special_rules_cache_everything() {
    // The majority. Most of cache-domains needs nothing beyond the defaults.
    let rules = shipped();
    for service in ["blizzard", "epicgames", "sony", "nintendo", "xboxlive"] {
        let rule = CompiledRule::compile(service, rules.for_service(service)).unwrap();
        assert!(rule.is_cacheable("/anything/at/all"));
        assert!(!rule.keep_query, "{service} should drop the query string");
        assert!(!rule.include_host, "{service} should exclude the host");
    }
}

#[test]
fn an_operator_rule_replaces_the_shipped_one_outright() {
    // Field-by-field merging would produce a configuration nobody wrote.
    let mut operator = Rules::default();
    operator.services.push(NamedRule {
        service: "steam".into(),
        rule: ServiceRule {
            keep_query: true,
            ..Default::default()
        },
    });
    let merged = merge(operator);
    let steam = merged.for_service("steam");
    assert!(steam.keep_query);
    assert!(
        steam.exclude_paths.is_empty(),
        "the shipped exclusion leaked into an overridden rule"
    );
    // Other services keep their shipped rules.
    assert!(!merged.for_service("wsus").exclude_paths.is_empty());
}

#[test]
fn the_shipped_set_covers_exactly_the_services_monolithic_special_cases() {
    let names: Vec<_> = shipped()
        .services
        .iter()
        .map(|entry| entry.service.clone())
        .collect();
    assert_eq!(names, vec!["arenanet", "riot", "steam", "wsus"]);
}

#[test]
fn an_exclusion_always_wins() {
    assert!(cacheable(false, None));
    assert!(cacheable(false, Some(true)));
    assert!(!cacheable(false, Some(false)));
    assert!(!cacheable(true, Some(true)));
    assert!(!cacheable(true, None));
}

#[test]
fn an_object_id_is_the_start_of_the_hash() {
    // BLAKE3 of the service, a NUL and the key.
    let id = CacheKey {
        service: "steam".into(),
        key: "/x".into(),
    }
    .object_id();
    let hash = blake3::hash(b"steam\0/x");
    assert_eq!(&id[..], &hash.as_bytes()[..16]);
}

#[test]
fn a_normalised_path_stays_as_it_is() {
    for path in ["", "/", "//", "a", "/a//b/", "/a/./b/../c", "/../..", "/.../..a/", "x/../y//"] {
        let once = normalise_path(path);
        assert_eq!(normalise_path(&once), once, "{path}");
        assert!(once.starts_with('/') && !once.contains("//"), "{path}");
        assert!(once.split('/').all(|s| s != "." && s != ".."), "{path}");
        assert_eq!(once.ends_with('/'), once == "/" || path.ends_with('/'), "{path}");
    }
    assert_eq!(normalise_path("/.../..a/"), "/.../..a/");
    assert_eq!(normalise_path("x/../y//"), "/y/");
    // What an escape decodes to can be part of another.
    assert_eq!(normalise_path("/%2541"), "/%41");
    assert_eq!(normalise_path("/%41"), "/A");
}
