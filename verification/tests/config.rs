//! The configuration, and what is settled at startup.
use cachic::config::guard::GuardAction;
use cachic::config::reference::{render, Setting};
use cachic::config::rules::{NamedRule, Rules, RulesError, ServiceRule};
use cachic::config::{Config, ConfigError, LogFormat};
use cachic::services::domains::{DomainList, Pattern, Service};
use cachic::startup::{
    bind_failed, chain, compile_rules, hostname, per_service_inflight, prepare, service_infos,
    Fatal, Listener, EXIT_CONFIG, EXIT_UNAVAILABLE,
};
use cachic::store::hybrid::{StoreConfig, DEFAULT_BLOCK_SIZE};
use cachic::upstream::guard::IpAddr;

fn base() -> Config {
    Config::default()
}

#[test]
fn the_defaults_are_sound() {
    let c = base();
    assert_eq!(c.cache_disk_size, 1000 * (1 << 30));
    assert_eq!(c.cache_mem_size, 2 * (1 << 30));
    assert_eq!(c.cache_max_age.as_secs(), 3560 * 86_400);
    assert_eq!(c.cache_slice_size, 1 << 20);
    assert_eq!(c.min_free_disk, 10 * (1 << 30));
    assert_eq!(c.cache_data_dir, "/data/cache");
    assert_eq!(c.http_port, 80);
    assert_eq!(c.https_port, 443);
    assert_eq!(c.admin_port, 9090);
    assert_eq!(c.readahead_slices, 4);
    assert_eq!(c.upstream_max_inflight, 256);
    assert!(!c.passthrough_unknown_hosts);
    assert_eq!(c.log_format, LogFormat::Json);
    assert_eq!(
        c.upstream_dns,
        vec![IpAddr::V4([1, 1, 1, 1]), IpAddr::V4([1, 0, 0, 1])]
    );
    c.validate().unwrap();
}

#[test]
fn rejects_a_non_power_of_two_slice_size() {
    let c = Config {
        cache_slice_size: 1_000_000,
        ..base()
    };
    let err = c.validate().unwrap_err();
    assert!(err.message().contains("power of two"), "{}", err.message());
}

#[test]
fn rejects_a_slice_larger_than_the_tiers() {
    let c = Config {
        cache_slice_size: 4 << 30,
        cache_mem_size: 1 << 30,
        ..base()
    };
    assert!(c.validate().is_err());
    let c = Config {
        cache_slice_size: 2 << 30,
        cache_mem_size: 1 << 30,
        ..base()
    };
    assert_eq!(
        c.validate().unwrap_err().message(),
        "CACHE_SLICE_SIZE (2 GiB) must not exceed CACHE_MEM_SIZE (1 GiB)"
    );
    let c = Config {
        cache_slice_size: 2 << 20,
        cache_disk_size: 1 << 20,
        ..base()
    };
    assert!(matches!(
        c.validate().unwrap_err(),
        ConfigError::Exceeds { b: "CACHE_DISK_SIZE", .. }
    ));
}

#[test]
fn rejects_an_admin_port_on_the_data_plane() {
    // Serving the admin API on the same port as cached traffic would expose purge and drain
    // to every client on the LAN.
    let c = Config {
        admin_port: 80,
        ..base()
    };
    let err = c.validate().unwrap_err();
    assert!(err.message().contains("data plane"), "{}", err.message());
    let c = Config {
        https_port: 80,
        ..base()
    };
    assert!(c.validate().unwrap_err().message().starts_with("HTTPS_PORT is 80"));
}

#[test]
fn rejects_zero_readahead_and_zero_inflight() {
    assert!(Config {
        readahead_slices: 0,
        ..base()
    }
    .validate()
    .is_err());
    assert!(Config {
        upstream_max_inflight: 0,
        ..base()
    }
    .validate()
    .is_err());
}

#[test]
fn rejects_a_configuration_without_resolvers() {
    let c = Config {
        upstream_dns: Vec::new(),
        ..base()
    };
    assert!(c.validate().unwrap_err().message().contains("UPSTREAM_DNS"));
}

#[test]
fn reports_the_readahead_memory_arithmetic() {
    // The number an operator needs to size a box.
    let c = Config {
        readahead_slices: 8,
        cache_slice_size: 1 << 20,
        ..base()
    };
    assert_eq!(c.readahead_bytes_per_connection(), 8 << 20);
}

#[test]
fn invalid_values_name_the_variable_and_the_requirement() {
    let err = Config {
        readahead_slices: 0,
        ..base()
    }
    .validate()
    .unwrap_err();
    let text = err.message();
    assert!(text.contains("READAHEAD_SLICES"), "{text}");
    assert!(text.contains("at least 1"), "{text}");
}

fn setting(env: &str, long: &str, default: &[&str], help: &str) -> Setting {
    Setting {
        id: long.replace('-', "_"),
        hidden: false,
        env: Some(env.into()),
        long: Some(long.into()),
        default_values: default.iter().map(|s| s.to_string()).collect(),
        long_help: None,
        help: Some(help.into()),
    }
}

#[test]
fn every_setting_appears_with_its_environment_variable() {
    let names = [
        "CACHE_DISK_SIZE",
        "CACHE_MEM_SIZE",
        "CACHE_MAX_AGE",
        "CACHE_SLICE_SIZE",
        "CACHE_DATA_DIR",
        "MIN_FREE_DISK",
        "FORCE_CONFIG",
        "HTTP_PORT",
        "HTTPS_PORT",
        "ADMIN_PORT",
        "UPSTREAM_DNS",
        "UPSTREAM_MAX_INFLIGHT",
        "READAHEAD_SLICES",
        "PASSTHROUGH_UNKNOWN_HOSTS",
        "CACHE_DOMAINS_REPO",
        "CACHE_DOMAINS_REFRESH",
        "LOG_FORMAT",
        "LOG_LEVEL",
    ];
    let settings: Vec<Setting> = names
        .iter()
        .map(|n| setting(n, &n.to_lowercase().replace('_', "-"), &[], "help"))
        .collect();
    let rendered = render(&settings);
    for env in names {
        assert!(rendered.contains(env), "reference omits {env}");
    }
}

#[test]
fn a_setting_is_one_row_of_the_reference() {
    let mut hidden = setting("X", "x", &[], "not shown");
    hidden.hidden = true;
    let mut help = setting("H", "help", &[], "not shown");
    help.env = None;
    let shown = setting("UPSTREAM_DNS", "upstream-dns", &["1.1.1.1", "1.0.0.1"], "a|b\nc");
    let rendered = render(&vec![hidden, help, shown]);
    assert!(!rendered.contains("not shown"));
    assert!(rendered.contains(
        "| `UPSTREAM_DNS` | `--upstream-dns` | `1.1.1.1 1.0.0.1` | a\\|b c |\n"
    ));
}

fn named(service: &str, rule: ServiceRule) -> NamedRule {
    NamedRule {
        service: service.into(),
        rule,
    }
}

#[test]
fn loads_defaults_and_per_service_overrides() {
    let rules = Rules {
        defaults: ServiceRule::default(),
        services: vec![
            named(
                "steam",
                ServiceRule {
                    keep_query: true,
                    max_inflight: Some(32),
                    ..ServiceRule::default()
                },
            ),
            named(
                "wsus",
                ServiceRule {
                    include_host: true,
                    slice_size: Some("4m".into()),
                    ..ServiceRule::default()
                },
            ),
        ],
    };
    rules.validate().unwrap();
    assert!(rules.for_service("steam").keep_query);
    assert_eq!(rules.for_service("steam").max_inflight, Some(32));
    assert!(rules.for_service("wsus").include_host);
    // An unknown service falls back to the defaults rather than erroring: the domain list gains
    // services faster than they can be enumerated.
    assert!(!rules.for_service("something-new").keep_query);

    let limits = per_service_inflight(&rules);
    assert_eq!(limits.len(), 1);
    assert_eq!((limits[0].service.as_str(), limits[0].limit), ("steam", 32));
}

#[test]
fn rejects_an_invalid_slice_size_naming_the_service() {
    let rules = Rules {
        defaults: ServiceRule::default(),
        services: vec![named(
            "steam",
            ServiceRule {
                slice_size: Some("3m".into()),
                ..ServiceRule::default()
            },
        )],
    };
    let err = rules.validate().unwrap_err();
    assert!(err.message().contains("steam"), "{}", err.message());
    assert!(err.message().contains("power of two"), "{}", err.message());
}

#[test]
fn rejects_zero_max_inflight() {
    let rules = Rules {
        defaults: ServiceRule::default(),
        services: vec![named(
            "steam",
            ServiceRule {
                max_inflight: Some(0),
                ..ServiceRule::default()
            },
        )],
    };
    assert_eq!(
        rules.validate().unwrap_err(),
        RulesError::Invalid {
            service: "steam".into(),
            reason: "max_inflight must be at least 1".into()
        }
    );
}

#[test]
fn a_start_is_prepared_or_refused() {
    let c = base();
    let text = match prepare(&c, None, "p").unwrap() {
        GuardAction::Write(text) => text,
        other => panic!("{other:?}"),
    };
    assert_eq!(prepare(&c, Some(&text), "p"), Ok(GuardAction::Keep));
    let changed = Config {
        cache_slice_size: 4 << 20,
        ..base()
    };
    let refused = prepare(&changed, Some(&text), "p").unwrap_err();
    assert_eq!(refused.exit_code(), EXIT_CONFIG);
    assert!(refused.report().starts_with("configuration error: cache directory was created with"));
    let bad = Config {
        readahead_slices: 0,
        ..base()
    };
    assert!(matches!(prepare(&bad, None, "p"), Err(Fatal::Config(_))));
    match prepare(&c, Some("slice_size=x"), "the/path") {
        Err(Fatal::Config(m)) => assert!(m.starts_with("the/path is malformed at line 1"), "{m}"),
        other => panic!("{other:?}"),
    }
}

#[test]
fn the_host_name_falls_back() {
    assert_eq!(hostname(Some("a"), Some("b")), "a");
    assert_eq!(hostname(Some(""), Some(" b\n")), "b");
    assert_eq!(hostname(None, Some(" \n")), "cachic");
    assert_eq!(hostname(None, None), "cachic");
}

#[test]
fn causes_are_listed_below_an_error() {
    assert_eq!(chain("top", &Vec::new()), "top");
    assert_eq!(
        chain("top", &vec!["a".to_string(), "b".to_string()]),
        "top\n  caused by: a\n  caused by: b"
    );
}

#[test]
fn a_port_that_may_not_be_bound_comes_with_a_hint() {
    let e = bind_failed(Listener::Http, "0.0.0.0:80", "denied", true);
    assert_eq!(e.exit_code(), EXIT_UNAVAILABLE);
    assert_eq!(
        e.report(),
        "startup failed: cannot bind the HTTP port 0.0.0.0:80: denied\n  Ports below 1024 need CAP_NET_BIND_SERVICE when running as a non-root user."
    );
    assert_eq!(
        bind_failed(Listener::Admin, "a", "in use", true),
        Fatal::Unavailable("cannot bind the admin port a: in use".into())
    );
    let text = bind_failed(Listener::Https, "a", "e", true).report();
    assert!(text.contains("HTTPS port") && text.contains("setcap"), "{text}");
}

fn list() -> DomainList {
    DomainList {
        services: vec![
            Service {
                name: "steam".into(),
                description: "".into(),
                patterns: vec![
                    Pattern::Exact("a.example".into()),
                    Pattern::Suffix("b.example".into()),
                ],
            },
            Service {
                name: "riot".into(),
                description: "".into(),
                patterns: Vec::new(),
            },
        ],
    }
}

#[test]
fn services_are_listed_with_their_patterns() {
    let infos = service_infos(&list());
    assert_eq!(infos.len(), 2);
    assert_eq!((infos[0].name.as_str(), infos[0].patterns), ("steam", 2));
    assert_eq!((infos[1].name.as_str(), infos[1].patterns), ("riot", 0));
}

#[test]
fn the_rules_of_every_listed_service_are_compiled() {
    let mut rules = Rules::default();
    rules.services.push(named(
        "steam",
        ServiceRule {
            keep_query: true,
            exclude_paths: vec!["^/x".into()],
            ..ServiceRule::default()
        },
    ));
    let compiled = compile_rules(&list(), &rules).unwrap();
    assert!(compiled.get("steam").unwrap().keep_query);
    assert!(!compiled.get("steam").unwrap().is_cacheable("/x/1"));
    assert!(compiled.get("riot").unwrap().is_cacheable("/x/1"));
    assert!(compiled.get("other").is_none());

    rules.services[0].rule.include_paths.push("(".into());
    let err = compile_rules(&list(), &rules).err().unwrap();
    assert_eq!((err.service.as_str(), err.field, err.pattern.as_str()), ("steam", "include_paths", "("));
}

#[test]
fn ships_write_path_defaults_above_foyers() {
    // One flusher and a 16 MiB pool lose writes above a few Gbit of fill.
    let c = StoreConfig::default();
    assert!(c.flushers > 1, "one flusher is not enough");
    assert!(
        c.buffer_pool_bytes >= 64 * 1024 * 1024,
        "buffer pool must exceed 16 MiB"
    );
    assert_eq!(c.flushers, 4);
    assert_eq!(c.buffer_pool_bytes, 128 * 1024 * 1024);
    assert!(!c.direct_io);
}

#[test]
fn a_block_holds_several_slices() {
    let c = StoreConfig::from_config(&base());
    assert_eq!(c.block_bytes, DEFAULT_BLOCK_SIZE);
    assert_eq!(c.memory_bytes, 2 << 30);
    assert_eq!(c.disk_bytes, 1000 << 30);
    let c = StoreConfig::from_config(&Config {
        cache_slice_size: 32 << 20,
        ..base()
    });
    assert_eq!(c.block_bytes, 128 << 20);
}

#[test]
fn rejects_a_memory_tier_larger_than_the_disk_tier() {
    let tiers = |mem: u64, disk: u64| Config {
        cache_mem_size: mem,
        cache_disk_size: disk,
        min_free_disk: 0,
        ..base()
    };
    assert_eq!(
        tiers(2 << 30, 1 << 30).validate().unwrap_err(),
        ConfigError::Exceeds {
            a: "CACHE_MEM_SIZE",
            a_value: "2 GiB".into(),
            b: "CACHE_DISK_SIZE",
            b_value: "1 GiB".into(),
        }
    );
    tiers(1 << 30, 1 << 30).validate().unwrap();
}
