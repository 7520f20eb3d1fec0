//! The backend name and the settings stored next to it.

use blue2th_server::config::{
    name_store_path, validate_backend_name, NameError, ServerConfig, ServerName, DEFAULT_BACKEND_NAME,
    MAX_BACKEND_NAME_LEN,
};

#[test]
fn test_new_defaults_to_restoring_during_playback() {
    assert!(ServerName::new().restore_during_playback());
    assert!(ServerName::with_store(None).restore_during_playback());
}

#[test]
fn test_set_restore_during_playback_applies_the_value() {
    let mut config = ServerName::new();
    config.set_restore_during_playback(false);
    assert!(!config.restore_during_playback());
    config.set_restore_during_playback(true);
    assert!(config.restore_during_playback());
}

#[test]
fn test_new_defaults_to_auto_reconnect_enabled() {
    assert!(ServerName::new().auto_reconnect());
    assert!(ServerName::with_store(None).auto_reconnect());
}

#[test]
fn test_set_auto_reconnect_applies_the_value() {
    let mut config = ServerName::new();
    config.set_auto_reconnect(false);
    assert!(!config.auto_reconnect());
    config.set_auto_reconnect(true);
    assert!(config.auto_reconnect());
}

#[test]
fn test_new_defaults_to_spotify_volume_lock_off() {
    assert!(!ServerName::new().spotify_volume_lock());
    assert!(!ServerName::with_store(None).spotify_volume_lock());
}

#[test]
fn test_set_spotify_volume_lock_applies_the_value() {
    let mut config = ServerName::new();
    config.set_spotify_volume_lock(true);
    assert!(config.spotify_volume_lock());
    config.set_spotify_volume_lock(false);
    assert!(!config.spotify_volume_lock());
}

#[test]
fn test_name_store_path_is_app_scoped() {
    if let Some(path) = name_store_path(Some("/var/lib/state"), Some("/home/me")) {
        assert!(path.ends_with("blue2th/name.json"), "the name store must be app-scoped, got {path:?}");
    }
    if let Some(path) = name_store_path(None, Some("/home/me")) {
        assert!(path.ends_with("blue2th/name.json"), "the name store must be app-scoped, got {path:?}");
    }
}

#[test]
fn test_name_store_path_prefers_an_absolute_xdg_state_home() {
    assert_eq!(
        name_store_path(Some("/var/lib/state"), Some("/home/me")).as_deref(),
        Some("/var/lib/state/blue2th/name.json")
    );
    assert_eq!(
        name_store_path(Some("relative/dir"), Some("/home/me")).as_deref(),
        Some("/home/me/.local/state/blue2th/name.json")
    );
    assert_eq!(name_store_path(None, None), None);
    assert_eq!(name_store_path(Some(""), Some("")), None);
}

#[test]
fn test_with_store_none_holds_the_default_name() {
    let config = ServerName::with_store(None);
    assert_eq!(config.name(), DEFAULT_BACKEND_NAME);
}

#[test]
fn test_with_store_reloads_every_setting() {
    let stored = ServerConfig {
        name: "LivingRoom".to_string(),
        restore_during_playback: false,
        auto_reconnect: false,
        spotify_volume_lock: true,
    };
    let config = ServerName::with_store(Some(stored.clone()));
    assert_eq!(config.name(), "LivingRoom");
    assert!(!config.restore_during_playback());
    assert!(!config.auto_reconnect());
    assert!(config.spotify_volume_lock());
    assert_eq!(config.config(), stored);
}

#[test]
fn test_with_store_refuses_to_resurrect_an_invalid_name() {
    let stored = ServerConfig {
        name: "9lives".to_string(),
        restore_during_playback: true,
        auto_reconnect: true,
        spotify_volume_lock: false,
    };
    assert_eq!(ServerName::with_store(Some(stored)).name(), DEFAULT_BACKEND_NAME);
}

#[test]
fn test_set_name_trims_and_stores_a_valid_name() {
    let mut config = ServerName::new();
    assert_eq!(config.set_name("  Kitchen_2  "), Ok("Kitchen_2".to_string()));
    assert_eq!(config.name(), "Kitchen_2");
}

#[test]
fn test_set_name_keeps_the_old_name_on_refusal() {
    let mut config = ServerName::new();
    assert_eq!(config.set_name("   "), Err(NameError::Empty));
    assert_eq!(config.name(), DEFAULT_BACKEND_NAME);
}

#[test]
fn test_validate_backend_name_reports_each_error() {
    assert_eq!(validate_backend_name(""), Err(NameError::Empty));
    assert_eq!(validate_backend_name("  \t "), Err(NameError::Empty));
    let long = "a".repeat(MAX_BACKEND_NAME_LEN + 1);
    assert_eq!(validate_backend_name(&long), Err(NameError::TooLong));
    let exact = "a".repeat(MAX_BACKEND_NAME_LEN);
    assert_eq!(validate_backend_name(&exact), Ok(exact.clone()));
    assert_eq!(validate_backend_name("-lead"), Err(NameError::BadStart));
    assert_eq!(validate_backend_name("bad!char"), Err(NameError::BadChar));
    assert_eq!(validate_backend_name("Ok-name_1"), Ok("Ok-name_1".to_string()));
}

#[test]
fn test_default_backend_name_is_valid() {
    assert_eq!(validate_backend_name(DEFAULT_BACKEND_NAME), Ok(DEFAULT_BACKEND_NAME.to_string()));
}

#[test]
fn a_config_request_with_a_refused_name_changes_nothing() {
    let mut config = ServerName::new();
    config.set_auto_reconnect(false);
    let refused = config.apply_request("   ", false, true);
    assert!(refused.is_err());
    assert_eq!(config.name(), DEFAULT_BACKEND_NAME);
    assert!(config.restore_during_playback());
    assert!(!config.auto_reconnect());
}

#[test]
fn a_config_request_rearms_only_on_the_off_to_on_edge() {
    let mut config = ServerName::new();
    config.set_auto_reconnect(false);
    assert_eq!(config.apply_request("  Salon ", false, true), Ok(true));
    assert_eq!(config.name(), "Salon");
    assert!(!config.restore_during_playback());
    assert!(config.auto_reconnect());
    assert_eq!(config.apply_request("Salon", false, true), Ok(false), "a repeated on re-arms nothing");
    assert_eq!(config.apply_request("Salon", true, false), Ok(false));
    assert!(!config.auto_reconnect());
}
