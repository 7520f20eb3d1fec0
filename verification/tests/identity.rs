//! The backend's stable identity.

use blue2th_server::identity::{generate_id, identity_store_path, BackendIdentity};

#[test]
fn test_generate_id_is_url_safe_and_non_empty() {
    let id = generate_id();
    assert!(!id.is_empty(), "an empty id identifies nothing");
    assert!(
        id.chars().all(|c| c.is_ascii_alphanumeric() || c == '-' || c == '_'),
        "the id must be URL-safe (TXT record + settings blob), got {id}"
    );
}

#[test]
fn test_generate_id_differs_on_every_call() {
    let ids: Vec<String> = (0..8).map(|_| generate_id()).collect();
    let mut unique = ids.clone();
    unique.sort();
    unique.dedup();
    assert_eq!(unique.len(), ids.len(), "ids repeated: {ids:?}");
}

#[test]
fn test_new_identity_has_an_id_and_no_store() {
    let identity = BackendIdentity::new();
    assert!(!identity.id().is_empty());
    assert!(identity.minted_a_new_id(), "a store-free identity was minted, not reloaded");
}

#[test]
fn test_identity_store_path_is_app_scoped() {
    if let Some(path) = identity_store_path(Some("/var/lib/state"), None) {
        assert!(
            path.ends_with("blue2th/identity.json"),
            "the id must live next to the other state files, got {path:?}"
        );
    }
}

#[test]
fn test_generate_id_is_twenty_two_characters() {
    assert_eq!(generate_id().len(), 22);
}

#[test]
fn test_with_store_reloads_a_persisted_id() {
    let first = BackendIdentity::new();
    let reloaded = BackendIdentity::with_store(Some(first.id().to_string()));
    assert_eq!(reloaded.id(), first.id());
    assert!(!reloaded.minted_a_new_id());
}

#[test]
fn test_with_store_mints_in_place_of_a_blank_or_missing_id() {
    let blank = BackendIdentity::with_store(Some(String::new()));
    assert!(blank.minted_a_new_id());
    assert_eq!(blank.id().len(), 22);
    let missing = BackendIdentity::with_store(None);
    assert!(missing.minted_a_new_id());
    assert!(!missing.id().is_empty());
}

#[test]
fn test_identity_store_path_falls_back_to_home() {
    assert_eq!(
        identity_store_path(None, Some("/home/me")).as_deref(),
        Some("/home/me/.local/state/blue2th/identity.json")
    );
}
