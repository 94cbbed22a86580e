use argos_engine::config::{parse_bool, parse_providers, Config, EnvOverrides};

#[test]
fn default_points_to_localhost_with_lifecycle_enabled() {
    let config = Config::default();
    assert_eq!(config.searxng_url, "http://127.0.0.1:8080");
    assert_eq!(config.request_timeout_secs, 15);
    assert_eq!(config.ping_timeout_secs, 2);
    assert!(config.auto_start);
    assert_eq!(config.boot_timeout_secs, 60);
    assert_eq!(config.idle_stop_secs, 300);
    assert_eq!(config.wsl_distro, "Ubuntu");
    assert!(config.stack_script.contains("searxng"));
    assert_eq!(config.providers, vec!["duckduckgo", "bing"]);
}

#[test]
fn provider_list_parsing_is_forgiving() {
    assert_eq!(
        parse_providers(" DuckDuckGo , BING ,,  "),
        vec!["duckduckgo", "bing"]
    );
    assert!(parse_providers(" , , ").is_empty());
}

#[test]
fn bool_parsing_is_forgiving() {
    assert!(parse_bool("true", false));
    assert!(parse_bool("YES", false));
    assert!(parse_bool("on", false));
    assert!(!parse_bool("0", true));
    assert!(!parse_bool("False", true));
    assert!(parse_bool("garbage", true));
}

#[test]
fn default_router_waves() {
    let config = Config::default();
    assert_eq!(config.metasearch_initial, 3);
    assert_eq!(config.metasearch_total, 5);
}

#[test]
fn default_with_script_keeps_the_given_path() {
    let config = Config::default_with_script("/opt/argos/searxng/wsl-setup.sh".to_string());
    assert_eq!(config.stack_script, "/opt/argos/searxng/wsl-setup.sh");
    assert_eq!(config.searxng_url, "http://127.0.0.1:8080");
}

#[test]
fn bool_parsing_trims_and_falls_back() {
    assert!(parse_bool("  Off  ", true) == false);
    assert!(parse_bool(" 1 ", false));
    assert!(!parse_bool("", false));
    assert!(parse_bool("", true));
}

#[test]
fn provider_names_are_lowercase_and_nonempty() {
    let names = parse_providers("Brave,,  SearXNG ,ddg");
    assert_eq!(names, vec!["brave", "searxng", "ddg"]);
    for n in &names {
        assert!(!n.is_empty());
        assert_eq!(n.to_lowercase(), *n);
    }
}

fn no_overrides() -> EnvOverrides {
    EnvOverrides {
        searxng_url: None,
        auto_start: None,
        wsl_distro: None,
        stack_script: None,
        boot_timeout_secs: None,
        idle_stop_secs: None,
        providers: None,
    }
}

#[test]
fn env_overrides_replace_defaults() {
    let env = EnvOverrides {
        searxng_url: Some(" http://10.0.0.5:8888// ".to_string()),
        auto_start: Some("no".to_string()),
        wsl_distro: Some(" Debian ".to_string()),
        stack_script: Some("C:\\argos\\wsl-setup.sh".to_string()),
        boot_timeout_secs: Some(" 90 ".to_string()),
        idle_stop_secs: Some("0".to_string()),
        providers: Some("brave, Bing".to_string()),
    };
    let config = Config::default().apply_env(&env);
    assert_eq!(config.searxng_url, "http://10.0.0.5:8888");
    assert!(!config.auto_start);
    assert_eq!(config.wsl_distro, "Debian");
    assert_eq!(config.stack_script, "C:\\argos\\wsl-setup.sh");
    assert_eq!(config.boot_timeout_secs, 90);
    assert_eq!(config.idle_stop_secs, 0);
    assert_eq!(config.providers, vec!["brave", "bing"]);
    assert_eq!(config.request_timeout_secs, 15);
}

#[test]
fn unusable_env_values_keep_defaults() {
    let env = EnvOverrides {
        searxng_url: Some("  ///  ".to_string()),
        auto_start: Some("maybe".to_string()),
        wsl_distro: Some("   ".to_string()),
        stack_script: None,
        boot_timeout_secs: Some("ninety".to_string()),
        idle_stop_secs: Some("-5".to_string()),
        providers: Some(" , ".to_string()),
    };
    let config = Config::default().apply_env(&env);
    assert_eq!(config.searxng_url, "http://127.0.0.1:8080");
    assert!(config.auto_start);
    assert_eq!(config.wsl_distro, "Ubuntu");
    assert_eq!(config.boot_timeout_secs, 60);
    assert_eq!(config.idle_stop_secs, 300);
    assert_eq!(config.providers, vec!["duckduckgo", "bing"]);
}

#[test]
fn no_env_means_defaults() {
    let config = Config::default().apply_env(&no_overrides());
    assert_eq!(config.searxng_url, "http://127.0.0.1:8080");
    assert_eq!(config.providers, vec!["duckduckgo", "bing"]);
    assert_eq!(config.boot_timeout_secs, 60);
}
