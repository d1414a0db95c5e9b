use astronomer::account::User;
use astronomer::graphql::{
    LanguageNode, Languages, LanguagesEdge, PageInfo, RepositoryEdge, RepositoryNode,
};
use astronomer::SCALE;
use astronomer::fetch::PageFetcher;
use astronomer::graphql::Request;
use astronomer::model::{Language, Partial};
use astronomer::Error;

fn edge(name: &str, stars: u32, langs: Vec<(&str, u32, Option<&str>)>) -> RepositoryEdge {
    RepositoryEdge {
        node: RepositoryNode {
            name: name.to_string(),
            stargazer_count: stars,
            languages: Languages {
                edges: langs
                    .into_iter()
                    .map(|(n, size, color)| LanguagesEdge {
                        size,
                        node: LanguageNode {
                            name: n.to_string(),
                            color: color.map(|c| c.to_string()),
                        },
                    })
                    .collect(),
            },
        },
    }
}

#[test]
fn end_to_end_two_repositories() {
    let mut user = User::new("octo".to_string());
    user.store_repos(vec![
        edge("octo/a", 10, vec![("Go", 80, Some("#00add8")), ("Rust", 20, Some("#dea584"))]),
        edge("octo/b", 0, vec![("Go", 100, Some("#00add8"))]),
    ]);
    user.finalize();
    assert_eq!(user.stars, 10);
    assert_eq!(user.languages.len(), 2);
    assert_eq!(user.languages[0].name, "Go");
    assert_eq!(user.languages[0].stars, 8 * SCALE as u128);
    assert_eq!(user.languages[0].source.len(), 1);
    assert_eq!(user.languages[0].source[0].repository, "octo/a");
    assert_eq!(user.languages[0].source[0].stars, 8 * SCALE as u128);
    assert_eq!(user.languages[1].name, "Rust");
    assert_eq!(user.languages[1].stars, 2 * SCALE as u128);
    assert_eq!(user.languages[1].source.len(), 1);
    assert_eq!(user.languages[1].source[0].repository, "octo/a");
    assert_eq!(user.languages[1].source[0].stars, 2 * SCALE as u128);
}

#[test]
fn weights_sum_to_scaled_stars() {
    // 3 languages over 3 lines each of a 7-star repository: rounding down,
    // the total falls short of 7 * SCALE by at most the language count
    let mut user = User::new("octo".to_string());
    user.store_repos(vec![edge(
        "octo/a",
        7,
        vec![("A", 1, None), ("B", 1, None), ("C", 1, None)],
    )]);
    user.calculate();
    let total: u128 = user.repositories[0].languages.iter().map(|l| l.stars).sum();
    let exact = 7 * SCALE as u128;
    assert!(total <= exact);
    assert!(total > exact - 3);
    // each weight is the floor of the exact share
    assert_eq!(user.repositories[0].languages[0].stars, exact / 3);
}

#[test]
fn zero_line_repository_gets_zero_weights() {
    let mut user = User::new("octo".to_string());
    user.store_repos(vec![edge("octo/a", 5, vec![("Go", 0, None)])]);
    user.finalize();
    assert_eq!(user.stars, 5);
    assert!(user.languages.is_empty());
}

#[test]
fn account_total_counts_repositories_without_languages() {
    let mut user = User::new("octo".to_string());
    user.store_repos(vec![edge("octo/a", 3, vec![]), edge("octo/b", 4, vec![("C", 10, None)])]);
    user.finalize();
    assert_eq!(user.stars, 7);
    assert_eq!(user.languages.len(), 1);
    assert_eq!(user.languages[0].name, "C");
}

#[test]
fn default_color_when_upstream_omits_it() {
    let mut user = User::new("octo".to_string());
    user.store_repos(vec![edge("octo/a", 1, vec![("Go", 10, None)])]);
    assert_eq!(user.repositories[0].languages[0].color, "#efefef");
}

#[test]
fn color_comes_from_first_seen_repository() {
    let mut user = User::new("octo".to_string());
    user.store_repos(vec![
        edge("octo/a", 1, vec![("Go", 10, Some("#111111"))]),
        edge("octo/b", 1, vec![("Go", 10, Some("#222222"))]),
    ]);
    user.finalize();
    assert_eq!(user.languages.len(), 1);
    assert_eq!(user.languages[0].color, "#111111");
}

#[test]
fn languages_and_sources_sorted_descending() {
    let mut user = User::new("octo".to_string());
    user.store_repos(vec![
        edge("octo/small", 2, vec![("Go", 10, None)]),
        edge("octo/big", 8, vec![("Go", 5, None), ("Rust", 5, None)]),
    ]);
    user.finalize();
    // Go: 2 + 4 = 6 stars, Rust: 4 stars
    assert_eq!(user.languages[0].name, "Go");
    assert_eq!(user.languages[0].stars, 6 * SCALE as u128);
    assert_eq!(user.languages[1].name, "Rust");
    assert_eq!(user.languages[1].stars, 4 * SCALE as u128);
    // Go's sources: big repo's 4 before small repo's 2
    assert_eq!(user.languages[0].source[0].repository, "octo/big");
    assert_eq!(user.languages[0].source[0].stars, 4 * SCALE as u128);
    assert_eq!(user.languages[0].source[1].repository, "octo/small");
    assert_eq!(user.languages[0].source[1].stars, 2 * SCALE as u128);
}

#[test]
fn zero_weight_contributions_counted_but_not_sourced() {
    let mut user = User::new("octo".to_string());
    user.store_repos(vec![
        edge("octo/a", 4, vec![("Go", 10, None)]),
        edge("octo/b", 0, vec![("Go", 10, None)]),
    ]);
    user.finalize();
    assert_eq!(user.languages.len(), 1);
    assert_eq!(user.languages[0].stars, 4 * SCALE as u128);
    assert_eq!(user.languages[0].source.len(), 1);
    assert_eq!(user.languages[0].source[0].repository, "octo/a");
}

#[test]
fn pagination_stops_on_last_page_and_keeps_order() {
    let mut user = User::new("octo".to_string());
    let mut fetcher = PageFetcher::new("octo".to_string(), None);

    // first page
    let req1 = fetcher.next_request().expect("first request");
    assert_eq!(req1.variables.login, "octo");
    assert!(req1.variables.cursor.is_none());
    user.store_repos(vec![edge("octo/a", 1, vec![]), edge("octo/b", 2, vec![])]);
    fetcher.advance(&PageInfo { has_next_page: true, end_cursor: Some("CUR1".to_string()) });
    assert!(!fetcher.done);

    // second page carries the cursor
    let req2 = fetcher.next_request().expect("second request");
    assert_eq!(req2.variables.cursor.as_deref(), Some("CUR1"));
    user.store_repos(vec![edge("octo/c", 3, vec![])]);
    fetcher.advance(&PageInfo { has_next_page: false, end_cursor: None });
    assert!(fetcher.done);
    assert!(fetcher.next_request().is_none());

    // accumulated records are the pages' edges in order
    let names: Vec<&str> = user.repositories.iter().map(|r| r.name.as_str()).collect();
    assert_eq!(names, ["octo/a", "octo/b", "octo/c"]);
}

#[test]
fn request_carries_archived_filter() {
    let req = Request::new("octo".to_string(), Some(true), Some("abc".to_string()));
    assert_eq!(req.variables.login, "octo");
    assert_eq!(req.variables.is_archived, Some(true));
    assert_eq!(req.variables.cursor.as_deref(), Some("abc"));
    assert!(req.query.contains("stargazerCount"));
    assert!(req.query.contains("hasNextPage"));
}

#[test]
fn language_merge_adds_and_keeps_old_color() {
    let mut a = Language::new("Go".to_string(), "#new".to_string());
    a.stars = 5;
    a.lines = 10;
    a.source.push(Partial { repository: "r1".to_string(), stars: 5 });
    let mut b = Language::new("Go".to_string(), "#old".to_string());
    b.stars = 7;
    b.lines = 20;
    b.source.push(Partial { repository: "r2".to_string(), stars: 7 });
    let m = a.merge(&b);
    assert_eq!(m.name, "Go");
    assert_eq!(m.stars, 12);
    assert_eq!(m.lines, 30);
    assert_eq!(m.color, "#old");
    assert_eq!(m.source.len(), 2);
    assert_eq!(m.source[0].repository, "r1");
    assert_eq!(m.source[1].repository, "r2");
}

#[test]
fn error_messages_name_their_kind() {
    assert_eq!(Error::Serializer("boom".to_string()).message(), "Serializer error: boom");
    assert_eq!(Error::Http("down".to_string()).message(), "HTTP error: down");
    assert_eq!(Error::HttpStatus("403".to_string()).message(), "HTTP status error: 403");
}
