use argos_engine::config::Config;
use argos_engine::error::ArgosError;
use argos_engine::stack::{
    boot_command_args, boot_result, idle_expired, script_path_error, terminate_args, tracks_idle,
    win_to_wsl, BootOutcome,
};

#[test]
fn converts_windows_paths_with_spaces() {
    assert_eq!(
        win_to_wsl(r"D:\Mis Juegos\ClaudeMCPs\argos-engine\searxng\wsl-setup.sh"),
        Some("/mnt/d/Mis Juegos/ClaudeMCPs/argos-engine/searxng/wsl-setup.sh".to_string())
    );
}

#[test]
fn converts_forward_slash_windows_paths() {
    assert_eq!(
        win_to_wsl("C:/repo/searxng/wsl-setup.sh"),
        Some("/mnt/c/repo/searxng/wsl-setup.sh".to_string())
    );
}

#[test]
fn upper_case_drive_is_lowercased() {
    assert_eq!(
        win_to_wsl(r"E:\data\script.sh"),
        Some("/mnt/e/data/script.sh".to_string())
    );
}

#[test]
fn unix_paths_pass_through() {
    assert_eq!(
        win_to_wsl("/mnt/d/whatever.sh"),
        Some("/mnt/d/whatever.sh".to_string())
    );
}

#[test]
fn relative_paths_are_rejected() {
    assert_eq!(win_to_wsl("searxng/wsl-setup.sh"), None);
    assert_eq!(win_to_wsl(""), None);
}

#[test]
fn drive_without_separator_is_rejected() {
    assert_eq!(win_to_wsl("C:relative"), None);
    assert_eq!(win_to_wsl("  /trimmed.sh  "), Some("/trimmed.sh".to_string()));
}

#[test]
fn boot_command_runs_the_script_as_root() {
    let config = Config::default();
    assert_eq!(
        boot_command_args(&config, "/mnt/c/x/wsl-setup.sh"),
        vec!["-d", "Ubuntu", "-u", "root", "-e", "bash", "/mnt/c/x/wsl-setup.sh", "--up"]
    );
    assert_eq!(terminate_args("Ubuntu"), vec!["--terminate", "Ubuntu"]);
}

#[test]
fn boot_outcomes_map_to_errors() {
    assert!(boot_result(BootOutcome::Exited { success: true, code: Some(0) }, 60).is_ok());
    match boot_result(BootOutcome::Exited { success: false, code: Some(3) }, 60) {
        Err(ArgosError::StackBoot { detail }) => assert_eq!(detail, "exited with code 3"),
        other => panic!("unexpected {other:?}"),
    }
    match boot_result(BootOutcome::Exited { success: false, code: None }, 60) {
        Err(ArgosError::StackBoot { detail }) => assert_eq!(detail, "exited with code -1"),
        other => panic!("unexpected {other:?}"),
    }
    match boot_result(BootOutcome::WaitFailed { detail: "io".into() }, 60) {
        Err(ArgosError::StackBoot { detail }) => assert_eq!(detail, "wait failed: io"),
        other => panic!("unexpected {other:?}"),
    }
    match boot_result(BootOutcome::TimedOut, 45) {
        Err(ArgosError::StackStarting { secs }) => assert_eq!(secs, 45),
        other => panic!("unexpected {other:?}"),
    }
}

#[test]
fn script_errors_name_the_path() {
    match script_path_error("rel/x.sh") {
        ArgosError::StackBoot { detail } => {
            assert_eq!(detail, "cannot convert stack script path to WSL: rel/x.sh")
        }
        other => panic!("unexpected {other:?}"),
    }
}

#[test]
fn idle_watchdog_decisions() {
    let mut config = Config::default();
    assert!(tracks_idle(&config));
    config.idle_stop_secs = 0;
    assert!(!tracks_idle(&config));
    assert!(!idle_expired(None, 1_000_000, 300_000));
    assert!(!idle_expired(Some(1_000), 300_999, 300_000));
    assert!(idle_expired(Some(1_000), 301_000, 300_000));
    // A clock reading before the stamp counts as no time elapsed.
    assert!(!idle_expired(Some(5_000), 1_000, 1));
}
