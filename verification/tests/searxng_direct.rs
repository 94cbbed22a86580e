use argos_engine::providers::searxng::RawResult;
use argos_engine::searxng::{base_url, plain_results, SearchFailure};

#[test]
fn base_url_defaults_to_localhost() {
    assert_eq!(base_url(None), "http://127.0.0.1:8080");
    assert_eq!(base_url(Some("http://10.0.0.2:9000/".into())), "http://10.0.0.2:9000/");
}

#[test]
fn direct_failures_say_what_went_wrong() {
    assert_eq!(
        SearchFailure::Unreachable { base: "http://h:1".into(), cause: "refused".into() }.message(),
        "SearXNG unreachable at http://h:1: refused. Start it with: docker compose -f searxng/docker-compose.yml up -d"
    );
    let http = SearchFailure::Http { status: "403 Forbidden".into() };
    assert_eq!(http.message(), "SearXNG returned HTTP 403 Forbidden");
    assert!(http.hint().expect("hint").contains("search.formats"));
    let payload = SearchFailure::Payload { cause: "expected value".into() };
    assert_eq!(payload.message(), "SearXNG sent an unexpected payload: expected value");
    assert!(payload.hint().is_none());
    assert_eq!(
        SearchFailure::Client { cause: "tls".into() }.message(),
        "failed to build HTTP client: tls"
    );
}

#[test]
fn direct_results_are_cut_to_limit_and_budget() {
    let raw = vec![
        RawResult {
            url: "https://a.test".into(),
            title: "A".into(),
            content: "x".repeat(400),
            engine: Some("google".into()),
        },
        RawResult { url: "https://b.test".into(), title: "B".into(), content: String::new(), engine: None },
    ];
    let one = plain_results(&raw, 1);
    assert_eq!(one.len(), 1);
    assert_eq!(one[0].url, "https://a.test");
    assert_eq!(one[0].snippet.chars().count(), 303);
    assert_eq!(one[0].engine.as_deref(), Some("google"));
    assert_eq!(plain_results(&raw, 10).len(), 2);
}
