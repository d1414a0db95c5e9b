use astronomer::account::User;
use astronomer::cache::{CacheKey, Lookup, ResultCache};
use astronomer::color::parse_rgb;
use astronomer::config::{apply_filter, Config, RawConfig, Status};
use astronomer::graphql::{LanguageNode, Languages, LanguagesEdge, RepositoryEdge, RepositoryNode};

fn key(login: &str) -> CacheKey {
    CacheKey { login: login.to_string(), is_archived: None }
}

fn result_named(login: &str) -> User {
    let mut u = User::new(login.to_string());
    u.stars = 42;
    u
}

#[test]
fn miss_then_hit_within_ttl() {
    let mut cache = ResultCache::new(86400);
    let k = key("octo");
    assert!(matches!(cache.lookup(&k, 1000), Lookup::Compute));
    cache.complete(&k, result_named("octo"), 1000);
    match cache.lookup(&k, 1000 + 86399) {
        Lookup::Hit(u) => assert_eq!(u.stars, 42),
        _ => panic!("expected a hit before expiry"),
    }
}

#[test]
fn single_flight_while_computing() {
    let mut cache = ResultCache::new(86400);
    let k = key("octo");
    assert!(matches!(cache.lookup(&k, 0), Lookup::Compute));
    // every concurrent caller is told to await the one in-flight run
    assert!(matches!(cache.lookup(&k, 1), Lookup::Wait));
    assert!(matches!(cache.lookup(&k, 2), Lookup::Wait));
    assert!(matches!(cache.lookup(&k, 3), Lookup::Wait));
    // and all of them see the same stored result afterwards
    cache.complete(&k, result_named("octo"), 4);
    for now in 5..8 {
        match cache.lookup(&k, now) {
            Lookup::Hit(u) => assert_eq!(u.stars, 42),
            _ => panic!("expected a hit"),
        }
    }
}

#[test]
fn expiry_triggers_recomputation() {
    let mut cache = ResultCache::new(100);
    let k = key("octo");
    assert!(matches!(cache.lookup(&k, 0), Lookup::Compute));
    cache.complete(&k, result_named("octo"), 0);
    assert!(matches!(cache.lookup(&k, 99), Lookup::Hit(_)));
    // at the expiry instant the entry counts as stale
    assert!(matches!(cache.lookup(&k, 100), Lookup::Compute));
    // and the key is in flight again
    assert!(matches!(cache.lookup(&k, 101), Lookup::Wait));
}

#[test]
fn failure_is_not_cached() {
    let mut cache = ResultCache::new(100);
    let k = key("octo");
    assert!(matches!(cache.lookup(&k, 0), Lookup::Compute));
    cache.fail(&k);
    // the next caller retries immediately
    assert!(matches!(cache.lookup(&k, 1), Lookup::Compute));
}

#[test]
fn distinct_keys_do_not_interfere() {
    let mut cache = ResultCache::new(100);
    let a = key("alpha");
    let b = key("beta");
    let archived = CacheKey { login: "alpha".to_string(), is_archived: Some(true) };
    assert!(matches!(cache.lookup(&a, 0), Lookup::Compute));
    assert!(matches!(cache.lookup(&b, 0), Lookup::Compute));
    assert!(matches!(cache.lookup(&archived, 0), Lookup::Compute));
    cache.complete(&a, result_named("alpha"), 0);
    assert!(matches!(cache.lookup(&a, 1), Lookup::Hit(_)));
    assert!(matches!(cache.lookup(&b, 1), Lookup::Wait));
    assert!(matches!(cache.lookup(&archived, 1), Lookup::Wait));
}

fn sample_result() -> User {
    let mut user = User::new("octo".to_string());
    user.store_repos(vec![
        RepositoryEdge {
            node: RepositoryNode {
                name: "octo/a".to_string(),
                stargazer_count: 10,
                languages: Languages {
                    edges: vec![
                        LanguagesEdge {
                            size: 80,
                            node: LanguageNode { name: "Go".to_string(), color: None },
                        },
                        LanguagesEdge {
                            size: 20,
                            node: LanguageNode { name: "Rust".to_string(), color: None },
                        },
                    ],
                },
            },
        },
        RepositoryEdge {
            node: RepositoryNode {
                name: "octo/b".to_string(),
                stargazer_count: 0,
                languages: Languages {
                    edges: vec![LanguagesEdge {
                        size: 100,
                        node: LanguageNode { name: "Go".to_string(), color: None },
                    }],
                },
            },
        },
    ]);
    user.finalize();
    user
}

#[test]
fn filter_excludes_and_truncates() {
    let user = sample_result();
    let config = Config::from_raw(&RawConfig {
        exclude: Some("Rust".to_string()),
        top: Some(1),
        status: None,
    });
    let filtered = apply_filter(&user, &config);
    assert_eq!(filtered.languages.len(), 1);
    assert_eq!(filtered.languages[0].name, "Go");
    assert_eq!(filtered.stars, user.stars);
    assert_eq!(filtered.login, "octo");
}

#[test]
fn filter_without_parameters_keeps_everything() {
    let user = sample_result();
    let config = Config::from_raw(&RawConfig { exclude: None, top: None, status: None });
    let filtered = apply_filter(&user, &config);
    assert_eq!(filtered.languages.len(), 2);
    assert_eq!(filtered.languages[0].name, "Go");
    assert_eq!(filtered.languages[1].name, "Rust");
}

#[test]
fn from_raw_splits_and_trims_exclude() {
    let config = Config::from_raw(&RawConfig {
        exclude: Some(" Rust , Go,TypeScript ".to_string()),
        top: None,
        status: None,
    });
    let items: Vec<&str> = config.exclude.iter().map(|s| s.as_str()).collect();
    assert_eq!(items, ["Rust", "Go", "TypeScript"]);
    assert_eq!(config.top, 0);
    assert!(matches!(config.status, Status::All));
}

#[test]
fn from_raw_reads_status_case_insensitively() {
    let archived = Config::from_raw(&RawConfig {
        exclude: None,
        top: None,
        status: Some("ARCHIVED".to_string()),
    });
    assert!(matches!(archived.status, Status::Archived));
    let active = Config::from_raw(&RawConfig {
        exclude: None,
        top: None,
        status: Some("Active".to_string()),
    });
    assert!(matches!(active.status, Status::Active));
    let other = Config::from_raw(&RawConfig {
        exclude: None,
        top: None,
        status: Some("everything".to_string()),
    });
    assert!(matches!(other.status, Status::All));
}

#[test]
fn parse_rgb_reads_hex_channels() {
    assert_eq!(parse_rgb("#ff5733"), Some((255, 87, 51)));
    assert_eq!(parse_rgb("#00AdD8"), Some((0, 173, 216)));
    assert_eq!(parse_rgb("#zzzzzz"), None);
    assert_eq!(parse_rgb("#ff573"), None);
    assert_eq!(parse_rgb(""), None);
}
