use argos_engine::error::ArgosError;
use argos_engine::tools::prepare_search;

#[test]
fn search_rejects_empty_query() {
    match prepare_search("   ", None, None, None) {
        Err(ArgosError::InvalidQuery(m)) => assert_eq!(m, "query must not be empty"),
        other => panic!("empty query must be rejected, got {other:?}"),
    }
}

#[test]
fn search_request_is_trimmed_scoped_and_clamped() {
    let domains: Vec<String> = vec![" Reddit.com ".into()];
    let req = prepare_search("  piano VST  ", Some(0), Some(0), Some(&domains)).expect("valid");
    assert_eq!(req.relevance_query, "piano VST");
    assert_eq!(req.provider_query, "piano VST (site:reddit.com)");
    assert_eq!(req.domains, vec!["reddit.com"]);
    assert_eq!(req.limit, 1);
    assert_eq!(req.page, 1);
    let plain = prepare_search("rust", Some(500), Some(3), None).expect("valid");
    assert_eq!(plain.provider_query, "rust");
    assert_eq!(plain.limit, 50);
    assert_eq!(plain.page, 3);
}

#[test]
fn search_rejects_bad_domains() {
    let domains: Vec<String> = vec!["bad domain".into()];
    match prepare_search("rust", None, None, Some(&domains)) {
        Err(ArgosError::InvalidQuery(m)) => {
            assert_eq!(
                m,
                "invalid domain scope: \"bad domain\"; pass a hostname such as kvrforums.com"
            )
        }
        other => panic!("unexpected {other:?}"),
    }
}
