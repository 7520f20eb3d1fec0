//! Pairing codes, the bearer guard and the token store. Times are milliseconds
//! since the Unix epoch.

use blue2th_server::auth::{
    bearer_token, generate_token, is_authorised, verify_code, AuthStore, PairError, PairingCode,
    MAX_PAIRING_ATTEMPTS, PAIRING_CODE_LEN, PAIRING_TTL, TOKEN_ENTROPY_BYTES,
};

/// A fixed instant to anchor the expiry tests.
fn t0() -> u64 {
    1_700_000_000 * 1000
}

fn secs(s: u64) -> u64 {
    s * 1000
}

#[test]
fn test_generate_token_is_long_and_url_safe() {
    let token = generate_token();
    assert!(token.len() >= 43, "a {TOKEN_ENTROPY_BYTES}-byte token in {} chars", token.len());
    assert!(token.chars().all(|c| c.is_ascii_alphanumeric() || c == '-' || c == '_'));
}

#[test]
fn test_generate_token_differs_on_every_call() {
    let tokens: Vec<String> = (0..8).map(|_| generate_token()).collect();
    let mut unique = tokens.clone();
    unique.sort();
    unique.dedup();
    assert_eq!(unique.len(), tokens.len());
}

#[test]
fn test_pairing_code_mint_is_short_and_url_safe() {
    let code = PairingCode::mint(t0());
    assert_eq!(code.code().chars().count(), PAIRING_CODE_LEN);
    assert!(code.code().chars().all(|c| c.is_ascii_alphanumeric()));
    assert_eq!(code.attempts(), 0);
    assert!(!code.is_consumed());
}

#[test]
fn test_pairing_code_mint_expires_after_the_ttl() {
    let code = PairingCode::mint(t0());
    assert_eq!(code.expires_at(), t0() + PAIRING_TTL);
}

#[test]
fn test_verify_code_accepts_the_armed_code() {
    let stored = PairingCode::armed("K7M2QX", t0() + PAIRING_TTL);
    assert_eq!(verify_code(Some(&stored), "K7M2QX", t0()), Ok(()));
}

#[test]
fn test_verify_code_rejects_anything_but_an_exact_match() {
    let stored = PairingCode::armed("K7M2QX", t0() + PAIRING_TTL);
    for submitted in ["K7M2Q", "K7M2QX7", "AAAAAA", "", " K7M2QX"] {
        assert_eq!(
            verify_code(Some(&stored), submitted, t0()),
            Err(PairError::Rejected),
            "{submitted:?} is not the armed code"
        );
    }
}

#[test]
fn test_verify_code_cannot_tell_expired_from_unknown_or_unarmed() {
    let expired = PairingCode::armed("K7M2QX", t0());
    let armed = PairingCode::armed("K7M2QX", t0() + PAIRING_TTL);
    let after_ttl = t0() + PAIRING_TTL + secs(1);

    let expired_err = verify_code(Some(&expired), "K7M2QX", after_ttl).expect_err("expired");
    let unknown_err = verify_code(Some(&armed), "AAAAAA", t0()).expect_err("unknown");
    let unarmed_err = verify_code(None, "K7M2QX", t0()).expect_err("unarmed");

    assert_eq!(expired_err, unknown_err);
    assert_eq!(expired_err, unarmed_err);
    assert_eq!(expired_err.to_string(), unknown_err.to_string());
    assert_eq!(expired_err.to_string(), unarmed_err.to_string());
}

#[test]
fn test_verify_code_rejects_a_code_past_its_expiry() {
    let stored = PairingCode::armed("K7M2QX", t0() + PAIRING_TTL);
    assert_eq!(verify_code(Some(&stored), "K7M2QX", t0() + PAIRING_TTL - secs(1)), Ok(()));
    assert_eq!(
        verify_code(Some(&stored), "K7M2QX", t0() + PAIRING_TTL + secs(1)),
        Err(PairError::Rejected)
    );
}

#[test]
fn test_verify_code_rejects_a_consumed_code() {
    let mut stored = PairingCode::armed("K7M2QX", t0() + PAIRING_TTL);
    stored.consume();
    assert_eq!(verify_code(Some(&stored), "K7M2QX", t0()), Err(PairError::Rejected));
}

#[test]
fn test_verify_code_rejects_the_right_code_once_the_attempt_cap_is_reached() {
    let mut stored = PairingCode::armed("K7M2QX", t0() + PAIRING_TTL);
    for _ in 0..MAX_PAIRING_ATTEMPTS {
        stored.register_failure();
    }
    assert_eq!(verify_code(Some(&stored), "K7M2QX", t0()), Err(PairError::Rejected));
}

#[test]
fn test_verify_code_still_accepts_the_right_code_below_the_attempt_cap() {
    let mut stored = PairingCode::armed("K7M2QX", t0() + PAIRING_TTL);
    for _ in 0..MAX_PAIRING_ATTEMPTS - 1 {
        stored.register_failure();
    }
    assert_eq!(verify_code(Some(&stored), "K7M2QX", t0()), Ok(()));
}

#[test]
fn test_redeem_returns_the_stored_token() {
    let mut store = AuthStore::with_token("stored-token-value");
    let code = store.arm_pairing(t0());
    assert_eq!(store.redeem(&code, t0()), Ok("stored-token-value".to_string()));
}

#[test]
fn test_redeem_consumes_the_code_so_a_second_use_fails() {
    let mut store = AuthStore::with_token("stored-token-value");
    let code = store.arm_pairing(t0());
    assert!(store.redeem(&code, t0()).is_ok());
    assert_eq!(store.redeem(&code, t0()), Err(PairError::Rejected));
}

#[test]
fn test_redeem_invalidates_the_code_after_the_attempt_cap() {
    let mut store = AuthStore::with_token("stored-token-value");
    let code = store.arm_pairing(t0());
    for _ in 0..MAX_PAIRING_ATTEMPTS {
        assert_eq!(store.redeem("AAAAAA", t0()), Err(PairError::Rejected));
    }
    assert_eq!(store.redeem(&code, t0()), Err(PairError::Rejected));
    assert!(store.armed().is_none(), "past the cap the code is gone");
}

#[test]
fn test_redeem_without_an_armed_code_is_refused() {
    let mut store = AuthStore::with_token("stored-token-value");
    assert!(store.armed().is_none());
    assert_eq!(store.redeem("K7M2QX", t0()), Err(PairError::Rejected));
}

#[test]
fn test_arming_a_new_code_retires_the_previous_one() {
    let mut store = AuthStore::with_token("stored-token-value");
    let first = store.arm_pairing(t0());
    let second = store.arm_pairing(t0());
    assert_ne!(first, second);
    assert_eq!(store.redeem(&first, t0()), Err(PairError::Rejected));
    assert!(store.redeem(&second, t0()).is_ok());
}

#[test]
fn test_auth_store_new_is_disk_free() {
    assert_ne!(AuthStore::new().token(), AuthStore::new().token());
}

#[test]
fn test_auth_store_with_a_stored_token_keeps_it() {
    let store = AuthStore::with_store(Some("persisted-token".to_string()));
    assert_eq!(store.token(), "persisted-token");
}

#[test]
fn test_auth_store_with_a_missing_or_empty_token_mints_one() {
    for stored in [None, Some(String::new())] {
        let store = AuthStore::with_store(stored);
        assert_eq!(store.token().len(), 43);
    }
}

#[test]
fn test_rotate_replaces_the_token() {
    let mut store = AuthStore::with_token("before");
    let after = store.rotate();
    assert_ne!(after, "before");
    assert_eq!(store.token(), after);
    assert!(store.authorises(Some(&format!("Bearer {after}"))));
    assert!(!store.authorises(Some("Bearer before")));
}

#[test]
fn test_bearer_token_extracts_the_credential() {
    assert_eq!(bearer_token(Some("Bearer abc123")), Some("abc123"));
    assert_eq!(bearer_token(Some("bearer abc123")), Some("abc123"));
    assert_eq!(bearer_token(Some("Bearer   abc123")), Some("abc123"));
}

#[test]
fn test_bearer_token_rejects_a_missing_or_malformed_header() {
    for header in [
        None,
        Some(""),
        Some("Bearer"),
        Some("Bearer "),
        Some("abc123"),
        Some("Basic abc123"),
    ] {
        assert_eq!(bearer_token(header), None, "{header:?} carries no bearer");
    }
}

#[test]
fn test_bearer_token_keeps_a_trailing_space_and_drops_tabs_before_the_token() {
    assert_eq!(bearer_token(Some("BEARER \tabc ")), Some("abc "));
    assert_eq!(bearer_token(Some("Bearer\tabc")), None, "the scheme ends at a space");
}

#[test]
fn test_is_authorised_accepts_only_the_stored_token() {
    assert!(is_authorised("s3cret", Some("Bearer s3cret")));
    assert!(!is_authorised("s3cret", Some("Bearer s3cre")));
    assert!(!is_authorised("s3cret", Some("Bearer s3cret ")));
    assert!(!is_authorised("s3cret", Some("Bearer S3CRET")));
    assert!(!is_authorised("s3cret", None));
}

#[test]
fn test_auth_store_authorises_its_own_token_only() {
    let store = AuthStore::with_token("s3cret");
    assert!(store.authorises(Some("Bearer s3cret")));
    assert!(!store.authorises(Some("Bearer other")));
    assert!(!store.authorises(None));
}

#[test]
fn test_pair_error_message_is_the_documented_one() {
    assert_eq!(
        PairError::Rejected.to_string(),
        "pairing refused — ask for a fresh pairing code"
    );
}
