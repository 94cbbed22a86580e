use argos_engine::error::ArgosError;
use argos_engine::quality::{
    host_for, is_relevant, matches_domains, meaningful_terms, normalize_domains, scoped_query,
    MAX_DOMAINS,
};
use argos_engine::types::SearchResult;

fn result(url: &str, title: &str, snippet: &str) -> SearchResult {
    SearchResult {
        url: url.into(),
        source: String::new(),
        title: title.into(),
        snippet: snippet.into(),
        engine: Some("test".into()),
    }
}

#[test]
fn normalizes_and_deduplicates_domains() {
    let raw: Vec<String> = vec![" KVRForums.com. ".into(), "kvrforums.com".into()];
    assert_eq!(
        normalize_domains(Some(&raw)).expect("valid domains"),
        vec!["kvrforums.com"]
    );
}

#[test]
fn rejects_query_syntax_in_domains() {
    let raw: Vec<String> = vec!["example.com) OR (site:other.test".into()];
    assert!(normalize_domains(Some(&raw)).is_err());
}

#[test]
fn scope_accepts_exact_host_and_subdomains_only() {
    let domains: Vec<String> = vec!["reddit.com".into()];
    assert!(matches_domains("https://reddit.com/r/test", &domains));
    assert!(matches_domains("https://www.reddit.com/r/test", &domains));
    assert!(!matches_domains("https://notreddit.com/r/test", &domains));
}

#[test]
fn relevance_rejects_entity_drift() {
    let query = "free piano VST";
    assert!(!is_relevant(
        query,
        &result("https://poki.com", "Free Online Games", "Play free games")
    ));
    assert!(is_relevant(
        query,
        &result("https://kvr.test", "Free piano VST", "Piano instrument")
    ));
}

#[test]
fn no_domains_means_no_filter() {
    assert_eq!(normalize_domains(None).expect("none is fine"), Vec::<String>::new());
    assert!(matches_domains("https://anything.test/x", &[]));
}

#[test]
fn too_many_domains_are_rejected() {
    let raw: Vec<String> = (0..MAX_DOMAINS + 1).map(|i| format!("d{i}.test")).collect();
    match normalize_domains(Some(&raw)) {
        Err(ArgosError::InvalidQuery(msg)) => assert!(msg.contains("at most")),
        other => panic!("expected InvalidQuery, got {other:?}"),
    }
    let ok: Vec<String> = (0..MAX_DOMAINS).map(|i| format!("d{i}.test")).collect();
    assert_eq!(normalize_domains(Some(&ok)).expect("eight fit").len(), MAX_DOMAINS);
}

#[test]
fn blank_domain_is_rejected() {
    let raw: Vec<String> = vec!["  ".into()];
    assert!(matches!(
        normalize_domains(Some(&raw)),
        Err(ArgosError::InvalidQuery(_))
    ));
}

#[test]
fn scoped_query_appends_site_hints() {
    assert_eq!(scoped_query("piano VST", &[]), "piano VST");
    let one: Vec<String> = vec!["reddit.com".into()];
    assert_eq!(scoped_query("piano VST", &one), "piano VST (site:reddit.com)");
    let two: Vec<String> = vec!["a.test".into(), "b.test".into()];
    assert_eq!(
        scoped_query("q", &two),
        "q (site:a.test OR site:b.test)"
    );
}

#[test]
fn host_is_lowercased() {
    let h: String = host_for("https://WWW.Example.COM/path").expect("host").into_iter().collect();
    assert_eq!(h, "www.example.com");
    assert!(host_for("not a url").is_none());
}

#[test]
fn meaningful_terms_drop_generic_words() {
    let terms = meaningful_terms("Free piano VST for the best sound");
    assert_eq!(terms, vec!["piano", "vst", "sound"]);
}

#[test]
fn query_of_only_generic_words_keeps_everything() {
    let r = result("https://x.test", "Nothing related", "at all");
    assert!(is_relevant("free the best", &r));
}

#[test]
fn normalizing_twice_changes_nothing() {
    let raw: Vec<String> = vec![" Example.COM.. ".into(), "sub.example.com".into(), "EXAMPLE.com".into()];
    let once = normalize_domains(Some(&raw)).expect("valid");
    assert_eq!(once, vec!["example.com", "sub.example.com"]);
    let twice = normalize_domains(Some(&once)).expect("still valid");
    assert_eq!(twice, once);
}

#[test]
fn terms_are_distinct_lowercase_words() {
    assert_eq!(meaningful_terms("VST vst, Piano-VST x"), vec!["vst", "piano"]);
}

#[test]
fn result_with_every_term_is_relevant() {
    let r = result("https://x.test", "Piano VST sampler", "");
    assert!(is_relevant("piano VST sampler", &r));
    let none = result("https://x.test", "Cooking", "recipes");
    assert!(!is_relevant("piano VST sampler", &none));
}
