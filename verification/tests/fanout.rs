use argos_engine::error::ArgosError;
use argos_engine::providers::compact_source;
use argos_engine::providers::fanout::{
    accepted_results, active_indices, failure_of, fanout_members, merge_replies, normalize_url,
    warnings_for, ProviderReply,
};
use argos_engine::config::Config;
use argos_engine::types::{ProviderStatus, SearchOutcome, SearchResult};

fn result(url: &str, title: &str, engine: &str) -> SearchResult {
    SearchResult {
        source: compact_source(url),
        url: url.into(),
        title: title.into(),
        snippet: "s".into(),
        engine: Some(engine.into()),
    }
}

fn ok(name: &str, results: Vec<SearchResult>) -> ProviderReply {
    ProviderReply { name: name.into(), outcome: Ok(results) }
}

fn err(name: &str, error: ArgosError) -> ProviderReply {
    ProviderReply { name: name.into(), outcome: Err(error) }
}

fn status_of<'a>(outcome: &'a SearchOutcome, name: &str) -> Option<&'a ProviderStatus> {
    outcome
        .providers
        .iter()
        .find(|entry| entry.name == name)
        .map(|entry| &entry.status)
}

#[test]
fn interleaves_and_dedups_across_providers() {
    let replies = vec![
        ok(
            "a",
            vec![
                result("https://www.example.com/", "one", "a"),
                result("https://other.test/x", "two", "a"),
            ],
        ),
        ok(
            "b",
            vec![
                // Same page as provider a's first hit (www/scheme/trailing slash).
                result("http://example.com", "one-dup", "b"),
                result("https://third.test", "three", "b"),
            ],
        ),
    ];
    let outcome = merge_replies(&replies, "q", 10, &[]).expect("ok");
    assert_eq!(outcome.results.len(), 3, "normalized dup must be dropped");
    assert_eq!(
        outcome.results.iter().map(|r| r.title.as_str()).collect::<Vec<_>>(),
        vec!["one", "two", "three"],
        "fair interleave: rank0 of a, rank1 of a..., dup removed"
    );
    assert!(matches!(status_of(&outcome, "a"), Some(ProviderStatus::Success { count: 2 })));
    assert!(matches!(status_of(&outcome, "b"), Some(ProviderStatus::Success { count: 2 })));
}

#[test]
fn respects_limit() {
    let replies = vec![
        ok(
            "a",
            vec![
                result("https://a.test/1", "1", "a"),
                result("https://a.test/2", "2", "a"),
                result("https://a.test/3", "3", "a"),
            ],
        ),
        ok("b", vec![result("https://b.test/1", "b1", "b")]),
    ];
    let outcome = merge_replies(&replies, "q", 2, &[]).expect("ok");
    assert_eq!(outcome.results.len(), 2);
}

#[test]
fn prefers_rate_limit_error_when_all_failed_with_mixed_causes() {
    let replies = vec![
        err(
            "timeouty",
            ArgosError::Unreachable { origin: "engine-a".into(), cause: "timed out".into() },
        ),
        err("limited", ArgosError::RateLimited { engine: "engine-b".into(), status: 202 }),
    ];
    let error = merge_replies(&replies, "q", 5, &[]).expect_err("must fail");
    assert!(
        matches!(error, ArgosError::RateLimited { .. }),
        "rate-limit explains the failure better than a timeout, got: {error:?}"
    );
    assert!(error.message().contains("rate-limited"));
}

#[test]
fn all_rate_limited_promotes_to_dedicated_error() {
    let replies = vec![
        err("ddg", ArgosError::RateLimited { engine: "ddg".into(), status: 202 }),
        err("bing", ArgosError::RateLimited { engine: "bing".into(), status: 429 }),
    ];
    let error = merge_replies(&replies, "q", 5, &[]).expect_err("must fail");
    match error {
        ArgosError::AllProvidersRateLimited { providers } => {
            assert_eq!(providers.len(), 2);
            let names: Vec<&str> = providers.iter().map(|(n, _)| n.as_str()).collect();
            assert!(names.contains(&"ddg"));
            assert!(names.contains(&"bing"));
        }
        other => panic!("expected AllProvidersRateLimited, got {other:?}"),
    }
}

#[test]
fn partial_failure_surfaces_in_providers_and_warnings() {
    let replies = vec![
        ok("ddg", vec![result("https://ok.test/x", "ok", "ddg")]),
        err("brave", ArgosError::RateLimited { engine: "brave".into(), status: 429 }),
    ];
    let outcome = merge_replies(&replies, "q", 10, &[]).expect("ok");
    assert_eq!(outcome.results.len(), 1);
    assert!(matches!(status_of(&outcome, "ddg"), Some(ProviderStatus::Success { count: 1 })));
    assert!(matches!(
        status_of(&outcome, "brave"),
        Some(ProviderStatus::RateLimited { status: 429 })
    ));
    assert_eq!(outcome.warnings.len(), 1);
    assert!(outcome.warnings[0].contains("brave"));
}

#[test]
fn filters_results_outside_requested_domains() {
    let replies = vec![ok(
        "bing",
        vec![
            result("https://reddit.com/r/piano", "Piano VST", "bing"),
            result("https://youtube.com/watch?v=1", "Piano VST", "bing"),
        ],
    )];
    let outcome = merge_replies(&replies, "piano VST", 10, &["reddit.com".to_string()])
        .expect("usable result");
    assert_eq!(outcome.results.len(), 1);
    assert!(matches!(status_of(&outcome, "bing"), Some(ProviderStatus::Success { count: 1 })));
    assert!(outcome.warnings.iter().any(|warning| warning.contains("filtered 1")));
}

#[test]
fn rejects_entity_drift_instead_of_returning_garbage() {
    let replies = vec![ok(
        "bing",
        vec![result("https://tripadvisor.com/Macao", "Macao travel guide", "bing")],
    )];
    let error = merge_replies(&replies, "Spitfire Audio LABS free", 10, &[])
        .expect_err("entity drift must not be returned");
    assert!(matches!(error, ArgosError::NoUsableResults { .. }));
}

#[test]
fn empty_from_all_succeeds_is_not_reported_as_success() {
    let replies = vec![ok("ddg", vec![]), ok("bing", vec![])];
    let error = merge_replies(&replies, "q", 10, &[]).expect_err("empty upstream set must be typed");
    assert!(matches!(error, ArgosError::NoUsableResults { returned: 0, rejected: 0 }));
}

#[test]
fn every_provider_gets_a_status_row_in_order() {
    let replies = vec![
        ok("a", vec![result("https://a.test/1", "1", "a")]),
        ok("b", vec![]),
        err("c", ArgosError::Unreachable { origin: "c.test".into(), cause: "reset".into() }),
        err("d", ArgosError::Decode("odd".into())),
    ];
    let outcome = merge_replies(&replies, "q", 10, &[]).expect("ok");
    let names: Vec<&str> = outcome.providers.iter().map(|p| p.name.as_str()).collect();
    assert_eq!(names, vec!["a", "b", "c", "d"]);
    assert!(matches!(outcome.providers[1].status, ProviderStatus::Empty));
    match &outcome.providers[2].status {
        ProviderStatus::Unreachable { message } => assert_eq!(message, "c.test: reset"),
        other => panic!("unexpected {other:?}"),
    }
    match &outcome.providers[3].status {
        ProviderStatus::Unreachable { message } => assert_eq!(message, "unexpected payload: odd"),
        other => panic!("unexpected {other:?}"),
    }
    assert_eq!(
        outcome.warnings,
        vec![
            "c: unreachable (c.test: reset)".to_string(),
            "d: unreachable (unexpected payload: odd)".to_string(),
        ]
    );
}

#[test]
fn provider_whose_results_all_fail_the_gates_is_filtered() {
    let replies = vec![
        ok("a", vec![result("https://a.test/piano", "piano", "a")]),
        ok("b", vec![result("https://b.test/games", "games", "b")]),
    ];
    let outcome = merge_replies(&replies, "piano", 10, &[]).expect("ok");
    assert!(matches!(outcome.providers[1].status, ProviderStatus::Filtered { returned: 1 }));
    assert_eq!(
        outcome.warnings,
        vec!["b: returned 1 result(s), but none passed Argos' domain/relevance gate".to_string()]
    );
}

#[test]
fn no_replies_at_all_count_as_all_rate_limited() {
    match merge_replies(&vec![], "q", 10, &[]) {
        Err(ArgosError::AllProvidersRateLimited { providers }) => assert!(providers.is_empty()),
        other => panic!("unexpected {other:?}"),
    }
}

#[test]
fn failure_is_none_when_someone_answered() {
    let replies = vec![
        err("x", ArgosError::Decode("d".into())),
        ok("y", vec![]),
    ];
    assert!(failure_of(&replies).is_none());
    let only_errors = vec![
        err("x", ArgosError::Decode("first".into())),
        err("y", ArgosError::Decode("second".into())),
    ];
    match failure_of(&only_errors) {
        Some(ArgosError::Decode(m)) => assert_eq!(m, "first"),
        other => panic!("unexpected {other:?}"),
    }
}

#[test]
fn url_key_ignores_scheme_www_and_trailing_slash() {
    assert_eq!(normalize_url(" https://www.example.com/a/ "), "example.com/a");
    assert_eq!(normalize_url("http://example.com"), "example.com");
    assert_eq!(normalize_url("ftp://x.test/"), "ftp://x.test");
}

#[test]
fn warnings_render_each_degradation() {
    assert_eq!(
        warnings_for("bing", &ProviderStatus::RateLimited { status: 429 }).as_deref(),
        Some("bing: rate-limited (HTTP 429); back off or rotate ARGOS_PROVIDERS")
    );
    assert!(warnings_for("bing", &ProviderStatus::Success { count: 3 }).is_none());
    assert!(warnings_for("bing", &ProviderStatus::Empty).is_none());
}

#[test]
fn gates_keep_scope_and_relevance() {
    let rs = vec![
        result("https://reddit.com/r/piano", "Piano VST", "bing"),
        result("https://youtube.com/watch?v=1", "Piano VST", "bing"),
        result("https://reddit.com/r/games", "Games", "bing"),
    ];
    let kept = accepted_results(&rs, "piano VST", &["reddit.com".to_string()]);
    assert_eq!(kept.len(), 1);
    assert_eq!(kept[0].url, "https://reddit.com/r/piano");
}

#[test]
fn fanout_members_keep_known_providers_once() {
    let mut config = Config::default();
    config.providers = vec!["bing".into(), "nope".into(), "bing".into(), "searxng".into()];
    assert_eq!(fanout_members(&config), vec!["bing", "searxng"]);
    config.providers = vec!["nope".into()];
    assert_eq!(fanout_members(&config), vec!["duckduckgo", "bing", "brave"]);
}

#[test]
fn active_indices_follow_the_selection() {
    let names: Vec<String> = vec!["a".into(), "b".into(), "c".into()];
    assert_eq!(active_indices(&names, None), vec![0, 1, 2]);
    let sel: Vec<String> = vec!["c".into(), "a".into()];
    assert_eq!(active_indices(&names, Some(&sel)), vec![0, 2]);
}
