use argos_engine::config::Config;
use argos_engine::error::ArgosError;
use argos_engine::metasearch::{
    builtin_manifest, ProviderRegistry, ProviderRuntimeStatus, ProviderState, ProviderStates,
    RouterRun, COOLDOWN_BASE_MS, COOLDOWN_MAX_MS, RATE_LIMIT_COOLDOWN_MS,
};
use argos_engine::types::{ProviderEntry, ProviderStatus, SearchOutcome, SearchResult};

const NOW: u64 = 1_000_000;

fn config_with(providers: &[&str], initial: usize) -> Config {
    let mut config = Config::default();
    config.providers = providers.iter().map(|p| p.to_string()).collect();
    config.metasearch_initial = initial;
    config
}

#[test]
fn registry_registers_only_implemented_configured_providers() {
    let config = config_with(&["duckduckgo", "not-implemented", "bing"], 2);
    let registry = ProviderRegistry::from_config_with_state(&config, ProviderStates::new());
    assert_eq!(registry.members(), vec!["duckduckgo", "bing"]);
    assert_eq!(registry.select(NOW).len(), 2);
}

// The default provider list does not name brave, so the list is given here.
#[test]
fn rate_limited_provider_is_skipped_until_cooldown() {
    let config = config_with(&["duckduckgo", "bing", "brave"], 3);
    let mut registry = ProviderRegistry::from_config_with_state(&config, ProviderStates::new());
    registry.record_rate_limits(&vec![("brave".into(), 429)], NOW);
    let selected = registry.select(NOW);
    assert!(!selected.contains(&"brave".to_string()));
    assert_eq!(selected.len(), 2);
    assert_eq!(
        registry.state_of("brave").expect("brave state").status,
        ProviderRuntimeStatus::Cooldown
    );
    // Back in the selection once the cooldown is over.
    assert!(registry
        .select(NOW + RATE_LIMIT_COOLDOWN_MS)
        .contains(&"brave".to_string()));
}

#[test]
fn all_cooldown_produces_no_eligible_selection() {
    let config = config_with(&["bing"], 3);
    let mut registry = ProviderRegistry::from_config_with_state(&config, ProviderStates::new());
    registry.record_rate_limits(&vec![("bing".into(), 429)], NOW);
    assert!(registry.select(NOW).is_empty());
}

#[test]
fn unreachable_provider_recovers_after_backoff() {
    let mut state = ProviderState::new();
    state.record_unreachable_at(NOW);
    assert!(!state.available_at(NOW));
    assert!(state.available_at(NOW + COOLDOWN_BASE_MS + 1_000));
}

#[test]
fn backoff_doubles_and_is_capped() {
    let mut state = ProviderState::new();
    let mut delays = Vec::new();
    for _ in 0..8 {
        state.record_unreachable_at(NOW);
        delays.push(state.cooldown_until.expect("cooldown") - NOW);
    }
    assert_eq!(
        delays,
        vec![30_000, 60_000, 120_000, 240_000, 480_000, 900_000, 900_000, 900_000]
    );
    assert!(delays.iter().all(|d| *d <= COOLDOWN_MAX_MS));
    assert_eq!(state.consecutive_failures, 8);
}

#[test]
fn success_resets_failures_and_empty_keeps_provider_eligible() {
    let mut state = ProviderState::new();
    state.record_rate_limited_at(NOW, 429);
    assert_eq!(state.last_status_code, Some(429));
    state.record_success_at(NOW + 1, 2_000);
    assert_eq!(state.status, ProviderRuntimeStatus::Healthy);
    assert_eq!(state.consecutive_failures, 0);
    assert_eq!(state.cooldown_until, None);
    assert_eq!(state.last_quality, Some(1000));
    assert_eq!(state.last_success, Some(NOW + 1));
    state.record_empty_at(NOW + 2);
    assert_eq!(state.status, ProviderRuntimeStatus::Degraded);
    assert!(state.available_at(NOW + 2));
    assert_eq!(state.last_quality, Some(0));
}

#[test]
fn selection_ranks_by_priority_and_quality() {
    let config = config_with(&["bing", "duckduckgo", "brave", "searxng"], 4);
    let registry = ProviderRegistry::from_config_with_state(&config, ProviderStates::new());
    // searxng 80, duckduckgo 70, brave 60, bing 30, plus 10 each for unknown quality.
    assert_eq!(registry.select(NOW), vec!["searxng", "duckduckgo", "brave", "bing"]);
    let two = config_with(&["bing", "duckduckgo", "brave"], 2);
    let registry = ProviderRegistry::from_config_with_state(&two, ProviderStates::new());
    assert_eq!(registry.select(NOW), vec!["duckduckgo", "brave"]);
}

#[test]
fn manifests_exist_for_implemented_providers_only() {
    for id in ["duckduckgo", "bing", "brave", "searxng"] {
        let m = builtin_manifest(id).expect("manifest");
        assert_eq!(m.id, id);
    }
    assert!(builtin_manifest("google").is_none());
    assert_eq!(builtin_manifest("searxng").expect("m").priority, 80);
}

#[test]
fn state_table_survives_the_registry() {
    let config = config_with(&["duckduckgo", "bing"], 3);
    let mut registry = ProviderRegistry::from_config_with_state(&config, ProviderStates::new());
    registry.record_rate_limits(&vec![("bing".into(), 202), ("ghost".into(), 429)], NOW);
    let states = registry.into_states();
    assert!(states.get("ghost").is_none());
    let again = ProviderRegistry::from_config_with_state(&config, states);
    assert_eq!(
        again.state_of("bing").expect("kept").status,
        ProviderRuntimeStatus::Cooldown
    );
    assert_eq!(again.select(NOW), vec!["duckduckgo"]);
}

fn outcome(entries: Vec<(&str, ProviderStatus)>) -> SearchOutcome {
    SearchOutcome {
        results: vec![SearchResult {
            url: "https://x.test".into(),
            source: "x.test".into(),
            title: "x".into(),
            snippet: String::new(),
            engine: None,
        }],
        providers: entries
            .into_iter()
            .map(|(n, s)| ProviderEntry { name: n.into(), status: s })
            .collect(),
        warnings: vec!["late".into()],
    }
}

#[test]
fn router_falls_back_to_the_next_wave() {
    let config = config_with(&["duckduckgo", "bing", "brave"], 1);
    let mut registry = ProviderRegistry::from_config_with_state(&config, ProviderStates::new());
    let mut run = RouterRun::new();
    let first = run.next_wave(&registry, NOW).expect("a wave");
    assert_eq!(first, vec!["duckduckgo"]);
    let answer = run.finish_wave(
        &mut registry,
        Err(ArgosError::RateLimited { engine: "duckduckgo".into(), status: 202 }),
        NOW,
    );
    assert!(answer.is_none());
    let second = run.next_wave(&registry, NOW).expect("another wave");
    assert_eq!(second, vec!["brave"]);
    let done = run
        .finish_wave(
            &mut registry,
            Ok(outcome(vec![("brave", ProviderStatus::Success { count: 4 })])),
            NOW,
        )
        .expect("answered")
        .expect("success");
    assert_eq!(
        done.warnings,
        vec![
            "duckduckgo: rate-limited before fallback (HTTP 202)".to_string(),
            "late".to_string()
        ]
    );
    let brave = registry.state_of("brave").expect("state");
    assert_eq!(brave.last_quality, Some(400));
    assert_eq!(
        registry.state_of("duckduckgo").expect("state").status,
        ProviderRuntimeStatus::Cooldown
    );
}

#[test]
fn router_gives_up_with_the_last_error_or_no_eligible() {
    let config = config_with(&["bing"], 3);
    let mut registry = ProviderRegistry::from_config_with_state(&config, ProviderStates::new());
    let mut run = RouterRun::new();
    assert!(run.next_wave(&registry, NOW).is_some());
    let none = run.finish_wave(
        &mut registry,
        Err(ArgosError::AllProvidersRateLimited { providers: vec![("bing".into(), 429)] }),
        NOW,
    );
    assert!(none.is_none());
    assert!(run.next_wave(&registry, NOW).is_none());
    match run.give_up(&registry) {
        ArgosError::AllProvidersRateLimited { providers } => {
            assert_eq!(providers, vec![("bing".to_string(), 429)])
        }
        other => panic!("unexpected {other:?}"),
    }
    let fresh = RouterRun::new();
    match fresh.give_up(&registry) {
        ArgosError::NoEligibleProviders { providers } => assert_eq!(providers, vec!["bing"]),
        other => panic!("unexpected {other:?}"),
    }
}

#[test]
fn router_stops_after_the_wave_bound() {
    let mut config = config_with(&["duckduckgo", "bing", "brave"], 1);
    config.metasearch_total = 2;
    let mut registry = ProviderRegistry::from_config_with_state(&config, ProviderStates::new());
    let mut run = RouterRun::new();
    for _ in 0..2 {
        assert!(run.next_wave(&registry, NOW).is_some());
        assert!(run
            .finish_wave(&mut registry, Err(ArgosError::Decode("x".into())), NOW)
            .is_none());
    }
    assert!(run.next_wave(&registry, NOW).is_none());
    match run.give_up(&registry) {
        ArgosError::Decode(m) => assert_eq!(m, "x"),
        other => panic!("unexpected {other:?}"),
    }
}

#[test]
fn equal_scores_keep_member_order() {
    let config = config_with(&["brave", "duckduckgo"], 2);
    let mut registry = ProviderRegistry::from_config_with_state(&config, ProviderStates::new());
    // duckduckgo: 70 + 0 after an empty answer; brave: 60 + 10 for unknown quality.
    registry.record_outcome(
        &SearchOutcome {
            results: vec![],
            providers: vec![ProviderEntry { name: "duckduckgo".into(), status: ProviderStatus::Empty }],
            warnings: vec![],
        },
        NOW,
    );
    assert_eq!(registry.select(NOW), vec!["brave", "duckduckgo"]);
}
