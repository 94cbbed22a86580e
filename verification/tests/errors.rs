use argos_engine::error::{ArgosError, ToolErrorKind};

#[test]
fn invalid_query_maps_to_invalid_params() {
    let error = ArgosError::InvalidQuery("query must not be empty".into());
    assert_eq!(error.tool_kind(), ToolErrorKind::InvalidParams);
    assert_eq!(error.message(), "invalid query: query must not be empty");
}

#[test]
fn down_carries_provisioning_hint() {
    let error = ArgosError::Down {
        base: "http://127.0.0.1:8080".into(),
    };
    assert!(error.message().contains("not running"));
    let hint = error.hint().expect("hint payload expected");
    assert!(hint.contains("wsl-setup.bat"));
    assert!(hint.contains("ARGOS_AUTO_START"));
}

#[test]
fn unreachable_names_the_provider_and_mentions_failover() {
    let error = ArgosError::Unreachable {
        origin: "html.duckduckgo.com".into(),
        cause: "operation timed out".into(),
    };
    let message = error.message();
    assert!(message.contains("html.duckduckgo.com"));
    assert!(message.contains("unreachable"));
    let hint = error.hint().expect("hint payload expected");
    assert!(hint.contains("ARGOS_PROVIDERS"));
}

#[test]
fn rate_limit_explains_the_ceiling_lever() {
    let error = ArgosError::RateLimited {
        engine: "duckduckgo".into(),
        status: 202,
    };
    let message = error.message();
    assert!(message.contains("rate-limited"));
    assert!(message.contains("202"));
    let hint = error.hint().expect("hint payload expected");
    assert!(hint.contains("ARGOS_PROVIDERS"));
    assert!(hint.contains("fanout"));
}

#[test]
fn all_providers_rate_limited_lists_them_and_distinguishes_from_no_results() {
    let error = ArgosError::AllProvidersRateLimited {
        providers: vec![("duckduckgo".into(), 202), ("bing".into(), 429)],
    };
    assert!(error.message().contains("all providers rate-limited"));
    let hint = error.hint().expect("hint payload expected");
    assert!(
        hint.contains("throttled"),
        "hint must explain this isn't 'no hits': {hint}"
    );
    match &error {
        ArgosError::AllProvidersRateLimited { providers } => assert_eq!(providers.len(), 2),
        other => panic!("unexpected {other:?}"),
    }
}

#[test]
fn no_usable_results_explains_quality_filtering() {
    let error = ArgosError::NoUsableResults {
        returned: 10,
        rejected: 10,
    };
    assert!(error.message().contains("no usable results"));
    match &error {
        ArgosError::NoUsableResults { returned, rejected } => {
            assert_eq!(*returned, 10);
            assert_eq!(*rejected, 10);
        }
        other => panic!("unexpected {other:?}"),
    }
    assert!(error.hint().unwrap_or_default().contains("domain"));
}

#[test]
fn no_eligible_providers_explains_cooldown_state() {
    let error = ArgosError::NoEligibleProviders {
        providers: vec!["brave".into(), "ddg".into()],
    };
    assert!(error.message().contains("no search providers"));
    match &error {
        ArgosError::NoEligibleProviders { providers } => assert_eq!(providers.len(), 2),
        other => panic!("unexpected {other:?}"),
    }
    assert!(error.hint().unwrap_or_default().contains("cooldown"));
}

#[test]
fn http_error_carries_operator_hint() {
    let error = ArgosError::Http {
        status: 403,
        hint: "check settings".into(),
    };
    assert!(error.message().contains("403"));
    assert_eq!(error.hint().expect("hint payload"), "check settings");
}

#[test]
fn stack_starting_suggests_retry() {
    let error = ArgosError::StackStarting { secs: 60 };
    assert!(error.message().contains("still starting"));
    let hint = error.hint().expect("hint payload expected");
    assert!(hint.contains("retry"));
}

#[test]
fn every_message_is_exact() {
    assert_eq!(
        ArgosError::Down { base: "http://h:1".into() }.message(),
        "SearXNG is not running at http://h:1"
    );
    assert_eq!(
        ArgosError::Unreachable { origin: "o".into(), cause: "c".into() }.message(),
        "o unreachable: c"
    );
    assert_eq!(
        ArgosError::RateLimited { engine: "bing".into(), status: 429 }.message(),
        "bing rate-limited this IP (HTTP 429)"
    );
    assert_eq!(
        ArgosError::AllProvidersRateLimited { providers: vec![] }.message(),
        "all providers rate-limited this IP"
    );
    assert_eq!(
        ArgosError::NoUsableResults { returned: 0, rejected: 0 }.message(),
        "providers returned no usable results after quality filtering"
    );
    assert_eq!(
        ArgosError::NoEligibleProviders { providers: vec![] }.message(),
        "no search providers are currently eligible"
    );
    assert_eq!(
        ArgosError::Http { status: 500, hint: String::new() }.message(),
        "SearXNG returned HTTP 500"
    );
    assert_eq!(ArgosError::Decode("bad".into()).message(), "unexpected payload: bad");
    assert_eq!(
        ArgosError::StackBoot { detail: "d".into() }.message(),
        "SearXNG stack failed to start: d"
    );
    assert_eq!(
        ArgosError::StackStarting { secs: 0 }.message(),
        "SearXNG stack is still starting after 0s"
    );
}

#[test]
fn only_invalid_query_is_the_callers_fault() {
    assert_eq!(ArgosError::Decode("x".into()).tool_kind(), ToolErrorKind::Internal);
    assert_eq!(ArgosError::StackStarting { secs: 1 }.tool_kind(), ToolErrorKind::Internal);
}

#[test]
fn hints_are_absent_where_the_message_says_it_all() {
    assert!(ArgosError::InvalidQuery("x".into()).hint().is_none());
    assert!(ArgosError::Decode("x".into()).hint().is_none());
    assert!(ArgosError::StackBoot { detail: "x".into() }
        .hint()
        .unwrap_or_default()
        .contains("wsl-setup.bat"));
}

#[test]
fn duplicate_is_a_faithful_copy() {
    let e = ArgosError::AllProvidersRateLimited {
        providers: vec![("a".into(), 202)],
    };
    match e.duplicate() {
        ArgosError::AllProvidersRateLimited { providers } => {
            assert_eq!(providers, vec![("a".to_string(), 202)])
        }
        other => panic!("unexpected {other:?}"),
    }
}
